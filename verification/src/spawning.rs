//! Spawn bodies from repeat templates.
//!
//! A [`SpawnBodyDefinition`] frames a repeated unit with a fixed front and back; [`create_body`]
//! expands it as far as the energy, the limits on repeats and the size of a creep allow.
use crate::constants::MAX_CREEP_SIZE;
use crate::parts::{body_cost, push_all, Part};
use vstd::prelude::*;

verus! {

/// A body template: `pre_body`, then `repeat_body` as often as can be afforded, then `post_body`.
pub struct SpawnBodyDefinition<'a> {
    pub maximum_energy: u32,
    pub minimum_repeat: Option<usize>,
    pub maximum_repeat: Option<usize>,
    pub pre_body: &'a [Part],
    pub repeat_body: &'a [Part],
    pub post_body: &'a [Part],
}

impl<'a> SpawnBodyDefinition<'a> {
    /// The energy of the parts that are not repeated.
    pub open spec fn fixed_energy(&self) -> int {
        crate::parts::body_energy(self.pre_body@) + crate::parts::body_energy(self.post_body@)
    }

    /// The number of parts that are not repeated.
    pub open spec fn fixed_size(&self) -> int {
        (self.pre_body@.len() + self.post_body@.len()) as int
    }

    /// How often the unit could be repeated within the energy and the size of a creep.
    pub open spec fn affordable_repeats(&self) -> int {
        if self.repeat_body@.len() == 0 {
            0
        } else {
            crate::fixed::min_of(
                (self.maximum_energy - self.fixed_energy()) / crate::parts::body_energy(
                    self.repeat_body@,
                ),
                (MAX_CREEP_SIZE - self.fixed_size()) / (self.repeat_body@.len() as int),
            )
        }
    }

    /// The fixed parts, and the least number of repeats asked for, can be afforded and fit.
    pub open spec fn buildable(&self) -> bool {
        &&& self.fixed_energy() <= self.maximum_energy
        &&& self.fixed_size() <= MAX_CREEP_SIZE
        &&& match self.minimum_repeat {
            Some(least) => least <= self.affordable_repeats(),
            None => true,
        }
    }

    /// How often the unit is repeated: as often as can be, up to the most asked for.
    pub open spec fn repeats(&self) -> int {
        match self.maximum_repeat {
            Some(most) => crate::fixed::min_of(self.affordable_repeats(), most as int),
            None => self.affordable_repeats(),
        }
    }

    /// The expanded body.
    pub open spec fn body(&self) -> Seq<Part> {
        self.pre_body@ + crate::parts::times(self.repeat_body@, self.repeats()) + self.post_body@
    }
}

/// `val`, raised to `min`; else lowered to `max`.
fn clamp(val: usize, min: usize, max: usize) -> (r: usize)
    ensures
        r == if val < min {
            min
        } else if val > max {
            max
        } else {
            val
        },
{
    if val < min {
        min
    } else if val > max {
        max
    } else {
        val
    }
}

/// Expands a [`SpawnBodyDefinition`] into a body, or fails where even the fixed parts and the least
/// number of repeats cannot be afforded or do not fit one creep.
pub fn create_body(definition: &SpawnBodyDefinition) -> (r: Result<Vec<Part>, ()>)
    ensures
        r is Ok <==> definition.buildable(),
        r matches Ok(body) ==> body@ == definition.body(),
{
    let size = MAX_CREEP_SIZE as usize;
    let pre_len: usize = definition.pre_body.len();
    let post_len: usize = definition.post_body.len();
    let pre_cost: u128 = body_cost(definition.pre_body);
    let post_cost: u128 = body_cost(definition.post_body);
    let maximum_energy: u128 = definition.maximum_energy as u128;
    let fixed_cost: u128 = pre_cost + post_cost;
    if fixed_cost > maximum_energy {
        return Err(());
    }
    if pre_len > size || post_len > size - pre_len {
        return Err(());
    }
    let fixed_len: usize = pre_len + post_len;
    let affordable: usize = if definition.repeat_body.len() == 0 {
        0
    } else {
        let by_length: usize = (size - fixed_len) / definition.repeat_body.len();
        let by_cost: u128 = (maximum_energy - fixed_cost) / body_cost(definition.repeat_body);
        if by_cost < by_length as u128 {
            by_cost as usize
        } else {
            by_length
        }
    };
    assert(affordable == definition.affordable_repeats());
    if let Some(least) = definition.minimum_repeat {
        if affordable < least {
            return Err(());
        }
    }
    let least: usize = match definition.minimum_repeat {
        Some(least) => least,
        None => 0,
    };
    let most: usize = match definition.maximum_repeat {
        Some(most) => most,
        None => usize::MAX,
    };
    let repeats: usize = clamp(affordable, least, most);
    let mut body: Vec<Part> = Vec::new();
    push_all(&mut body, definition.pre_body);
    let ghost front = body@;
    assert(front =~= definition.pre_body@);
    let mut k: usize = 0;
    while k < repeats
        invariant
            k <= repeats,
            body@ =~= front + crate::parts::times(definition.repeat_body@, k as int),
        decreases repeats - k,
    {
        push_all(&mut body, definition.repeat_body);
        k = k + 1;
    }
    push_all(&mut body, definition.post_body);
    assert(body@ =~= definition.body());
    Ok(body)
}

/// A body that is built is within the energy and the size of a creep, and repeats its unit at least
/// as often as asked, unless fewer were the most asked for.
pub proof fn law_created_body_fits(definition: SpawnBodyDefinition)
    requires
        definition.buildable(),
    ensures
        crate::parts::body_energy(definition.body()) <= definition.maximum_energy,
        definition.body().len() <= MAX_CREEP_SIZE,
        definition.minimum_repeat matches Some(least) ==> definition.repeats() >= least || (
        definition.maximum_repeat matches Some(most) && definition.repeats() == most),
{
    let unit = definition.repeat_body@;
    let n = definition.repeats();
    let energy = crate::parts::by_energy();
    let one = crate::parts::each();
    let unit_energy = crate::parts::body_energy(unit);
    crate::parts::lemma_energy_is_positive(unit);
    crate::parts::lemma_energy_is_positive(definition.pre_body@);
    crate::parts::lemma_energy_is_positive(definition.post_body@);
    let spare = definition.maximum_energy - definition.fixed_energy();
    let room = MAX_CREEP_SIZE - definition.fixed_size();
    assert(0 <= n * unit_energy <= spare && 0 <= n * (unit.len() as int) <= room) by {
        if unit.len() == 0 {
            assert(unit =~= Seq::<Part>::empty());
            assert(n * 0 == 0) by (nonlinear_arith);
        } else {
            let len = unit.len() as int;
            vstd::arithmetic::div_mod::lemma_fundamental_div_mod(spare, unit_energy);
            vstd::arithmetic::div_mod::lemma_fundamental_div_mod(room, len);
            vstd::arithmetic::div_mod::lemma_div_pos_is_pos(spare, unit_energy);
            vstd::arithmetic::div_mod::lemma_div_pos_is_pos(room, len);
            let a = spare / unit_energy;
            let b = room / len;
            let ra = spare % unit_energy;
            let rb = room % len;
            assert(0 <= n * unit_energy <= spare) by (nonlinear_arith)
                requires
                    0 <= n <= a,
                    spare == unit_energy * a + ra,
                    ra >= 0,
                    unit_energy > 0,
            ;
            assert(0 <= n * len <= room) by (nonlinear_arith)
                requires
                    0 <= n <= b,
                    room == len * b + rb,
                    rb >= 0,
                    len > 0,
            ;
        }
    }
    let repeated = crate::parts::times(unit, n);
    crate::parts::lemma_weigh_times(unit, n, energy);
    crate::parts::lemma_weigh_times(unit, n, one);
    crate::parts::lemma_weigh_concat(definition.pre_body@, repeated, energy);
    crate::parts::lemma_weigh_concat(definition.pre_body@ + repeated, definition.post_body@, energy);
    crate::parts::lemma_weigh_ones(unit);
    crate::parts::lemma_weigh_ones(repeated);
}

/// A body that can be expanded repeats as often as it can: once more would cost more than there is, be more
/// than fifty parts, or pass the most that is wanted. It cannot be expanded exactly where the fixed parts
/// cost too much or are too many, or where the least number of repeats is not reached.
pub proof fn law_body_repeats_as_often_as_it_can(definition: SpawnBodyDefinition, n: int)
    requires
        definition.repeat_body@.len() > 0,
        0 <= n,
    ensures
        ({
            let energy = crate::parts::body_energy(definition.pre_body@) + crate::parts::body_energy(
                definition.post_body@,
            );
            let unit = crate::parts::body_energy(definition.repeat_body@);
            let size = definition.pre_body@.len() + definition.post_body@.len();
            let len = definition.repeat_body@.len();
            let possible = energy + n * unit <= definition.maximum_energy && size + n * len <= 50;
            let fixed = energy <= definition.maximum_energy && size <= 50;
            &&& fixed ==> (n <= definition.affordable_repeats() <==> possible)
            &&& fixed ==> (n <= definition.repeats() <==> possible && (definition.maximum_repeat matches Some(
                most,
            ) ==> n <= most))
            &&& definition.minimum_repeat == Some(n as usize) && n <= usize::MAX ==> (definition.buildable()
                <==> fixed && possible)
            &&& definition.minimum_repeat is None ==> (definition.buildable() <==> fixed)
        }),
{
    let unit = crate::parts::body_energy(definition.repeat_body@);
    let len = definition.repeat_body@.len() as int;
    crate::parts::lemma_energy_is_positive(definition.repeat_body@);
    let spare = definition.maximum_energy - definition.fixed_energy();
    let room = MAX_CREEP_SIZE - definition.fixed_size();
    lemma_quotient_is_most(spare, unit, n);
    lemma_quotient_is_most(room, len, n);
}

/// A quotient rounded down is the most that fits.
proof fn lemma_quotient_is_most(whole: int, unit: int, n: int)
    requires
        unit > 0,
    ensures
        n <= whole / unit <==> n * unit <= whole,
{
    let q = whole / unit;
    let r = whole % unit;
    vstd::arithmetic::div_mod::lemma_fundamental_div_mod(whole, unit);
    assert(n <= q <==> n * unit <= whole) by (nonlinear_arith)
        requires
            whole == unit * q + r,
            0 <= r < unit,
    ;
}

/// Without anything to repeat a body is its fixed parts; else the repeated parts stand between them, one
/// after the other.
pub proof fn law_repeats_stand_in_the_middle(definition: SpawnBodyDefinition, i: int)
    requires
        definition.repeats() >= 0,
    ensures
        ({
            let body = definition.body();
            let (front, unit) = (definition.pre_body@.len() as int, definition.repeat_body@.len() as int);
            let middle = definition.repeats() * unit;
            &&& body.len() == front + middle + definition.post_body@.len()
            &&& 0 <= i < front ==> body[i] == definition.pre_body@[i]
            &&& 0 <= i < middle ==> body[front + i] == definition.repeat_body@[i % unit]
            &&& 0 <= i < definition.post_body@.len() ==> body[front + middle + i]
                == definition.post_body@[i]
        }),
        definition.repeat_body@.len() == 0 ==> definition.affordable_repeats() == 0,
{
    lemma_times_repeats(definition.repeat_body@, definition.repeats(), i);
}

/// What stands where in a repeated body.
proof fn lemma_times_repeats(unit: Seq<Part>, n: int, i: int)
    requires
        0 <= n,
    ensures
        crate::parts::times(unit, n).len() == n * unit.len(),
        0 <= i < n * unit.len() ==> crate::parts::times(unit, n)[i] == unit[i % (unit.len() as int)],
    decreases n,
{
    let len = unit.len() as int;
    if n > 0 {
        lemma_times_repeats(unit, n - 1, i);
        assert(n * len == (n - 1) * len + len) by (nonlinear_arith);
        if (n - 1) * len <= i < n * len {
            let rest = i - (n - 1) * len;
            vstd::arithmetic::div_mod::lemma_fundamental_div_mod_converse(i, len, n - 1, rest);
        }
    } else {
        assert(0 * len == 0) by (nonlinear_arith);
    }
}

}
