//! The parts that creeps are made of.
use vstd::prelude::*;

verus! {

/// A part of a creep's body.
#[derive(Clone, Copy, Debug, PartialEq, Eq, Structural)]
pub enum Part {
    Move,
    Work,
    Carry,
    Attack,
    RangedAttack,
    Tough,
    Heal,
    Claim,
}

/// The energy that a part takes to spawn.
pub open spec fn energy_of(part: Part) -> int {
    match part {
        Part::Move => 50,
        Part::Work => 100,
        Part::Carry => 50,
        Part::Attack => 80,
        Part::RangedAttack => 150,
        Part::Tough => 10,
        Part::Heal => 250,
        Part::Claim => 600,
    }
}

/// Calls `screeps::Part::cost`: the energy that the game charges for the part, which is [`energy_of`].
#[verifier::external_body]
pub(crate) fn part_cost(part: Part) -> (cost: u32)
    ensures
        cost == energy_of(part),
{
    let priced = match part {
        Part::Move => screeps::Part::Move,
        Part::Work => screeps::Part::Work,
        Part::Carry => screeps::Part::Carry,
        Part::Attack => screeps::Part::Attack,
        Part::RangedAttack => screeps::Part::RangedAttack,
        Part::Tough => screeps::Part::Tough,
        Part::Heal => screeps::Part::Heal,
        Part::Claim => screeps::Part::Claim,
    };
    priced.cost()
}

/// What the parts of a body weigh together, each by `f`.
pub open spec fn weigh(body: Seq<Part>, f: spec_fn(Part) -> int) -> int
    decreases body.len(),
{
    if body.len() == 0 {
        0
    } else {
        weigh(body.drop_last(), f) + f(body.last())
    }
}

/// Weighs each part as one.
pub open spec fn each() -> spec_fn(Part) -> int {
    |p: Part| 1
}

/// Weighs each part by its energy.
pub open spec fn by_energy() -> spec_fn(Part) -> int {
    |p: Part| energy_of(p)
}

/// Weighs `part` as one, and all others as nothing.
pub open spec fn only(part: Part) -> spec_fn(Part) -> int {
    |p: Part|
        if p == part {
            1
        } else {
            0
        }
}

/// The energy that a body takes to spawn.
pub open spec fn body_energy(body: Seq<Part>) -> int {
    weigh(body, by_energy())
}

/// How many of the parts of `body` are `part`.
pub open spec fn count_of(body: Seq<Part>, part: Part) -> int {
    weigh(body, only(part))
}

/// `n` times the same part.
pub open spec fn copies(part: Part, n: int) -> Seq<Part> {
    Seq::new(n as nat, |i: int| part)
}

/// `body`, `n` times over.
pub open spec fn times(body: Seq<Part>, n: int) -> Seq<Part>
    decreases n,
{
    if n <= 0 {
        Seq::empty()
    } else {
        times(body, n - 1) + body
    }
}

/// The energy that a body takes to spawn.
pub fn body_cost(body: &[Part]) -> (energy: u128)
    ensures
        energy == body_energy(body@),
        10 * body@.len() <= energy <= 600 * body@.len(),
{
    let mut energy: u128 = 0;
    let mut i: usize = 0;
    while i < body.len()
        invariant
            i <= body@.len(),
            energy == body_energy(body@.take(i as int)),
            10 * i <= energy <= 600 * i,
        decreases body@.len() - i,
    {
        assert(body@.take(i + 1).drop_last() =~= body@.take(i as int));
        energy = energy + part_cost(body[i]) as u128;
        i = i + 1;
    }
    assert(body@.take(i as int) =~= body@);
    energy
}

/// Appends `n` copies of `part`.
pub(crate) fn push_copies(body: &mut Vec<Part>, part: Part, n: u32)
    ensures
        final(body)@ == old(body)@ + copies(part, n as int),
{
    let ghost before = body@;
    let mut k: u32 = 0;
    assert(before + copies(part, 0) =~= before);
    while k < n
        invariant
            k <= n,
            body@ == before + copies(part, k as int),
        decreases n - k,
    {
        body.push(part);
        assert(copies(part, k + 1) =~= copies(part, k as int).push(part));
        assert(body@ =~= before + copies(part, k + 1));
        k = k + 1;
    }
}

/// Appends all of `more`.
pub(crate) fn push_all(body: &mut Vec<Part>, more: &[Part])
    ensures
        final(body)@ == old(body)@ + more@,
{
    let ghost before = body@;
    let mut i: usize = 0;
    assert(before + more@.take(0) =~= before);
    while i < more.len()
        invariant
            i <= more@.len(),
            body@ == before + more@.take(i as int),
        decreases more@.len() - i,
    {
        body.push(more[i]);
        assert(more@.take(i + 1) =~= more@.take(i as int).push(more@[i as int]));
        assert(body@ =~= before + more@.take(i + 1));
        i = i + 1;
    }
    assert(more@.take(i as int) =~= more@);
}

/// Two bodies weigh together what each weighs.
pub proof fn lemma_weigh_concat(a: Seq<Part>, b: Seq<Part>, f: spec_fn(Part) -> int)
    ensures
        weigh(a + b, f) == weigh(a, f) + weigh(b, f),
    decreases b.len(),
{
    if b.len() == 0 {
        assert(a + b =~= a);
    } else {
        assert((a + b).drop_last() =~= a + b.drop_last());
        lemma_weigh_concat(a, b.drop_last(), f);
    }
}

/// Copies of a part weigh what the part does, as often as there are.
pub proof fn lemma_weigh_copies(part: Part, n: int, f: spec_fn(Part) -> int)
    requires
        n >= 0,
    ensures
        weigh(copies(part, n), f) == n * f(part),
    decreases n,
{
    if n > 0 {
        assert(copies(part, n).drop_last() =~= copies(part, n - 1));
        lemma_weigh_copies(part, n - 1, f);
        assert(n * f(part) == (n - 1) * f(part) + f(part)) by (nonlinear_arith);
    } else {
        assert(0 * f(part) == 0) by (nonlinear_arith);
    }
}

/// A body several times over weighs what it does, as often.
pub proof fn lemma_weigh_times(body: Seq<Part>, n: int, f: spec_fn(Part) -> int)
    requires
        n >= 0,
    ensures
        weigh(times(body, n), f) == n * weigh(body, f),
    decreases n,
{
    if n > 0 {
        lemma_weigh_times(body, n - 1, f);
        lemma_weigh_concat(times(body, n - 1), body, f);
        let w = weigh(body, f);
        assert(n * w == (n - 1) * w + w) by (nonlinear_arith);
    } else {
        let w = weigh(body, f);
        assert(0 * w == 0) by (nonlinear_arith);
    }
}

/// Weighed as one each, the parts are counted.
pub proof fn lemma_weigh_ones(body: Seq<Part>)
    ensures
        weigh(body, each()) == body.len(),
    decreases body.len(),
{
    if body.len() > 0 {
        lemma_weigh_ones(body.drop_last());
    }
}

/// Every part costs something.
pub proof fn lemma_energy_is_positive(body: Seq<Part>)
    ensures
        body_energy(body) >= body.len(),
    decreases body.len(),
{
    if body.len() > 0 {
        lemma_energy_is_positive(body.drop_last());
    }
}

/// A body costs what its parts do, and counts each part once.
pub proof fn law_body_is_the_sum_of_its_parts(body: Seq<Part>, part: Part, kind: Part)
    ensures
        body_energy(Seq::empty()) == 0,
        body_energy(body.push(part)) == body_energy(body) + match part {
            Part::Move => 50int,
            Part::Work => 100,
            Part::Carry => 50,
            Part::Attack => 80,
            Part::RangedAttack => 150,
            Part::Tough => 10,
            Part::Heal => 250,
            Part::Claim => 600,
        },
        count_of(Seq::empty(), kind) == 0,
        count_of(body.push(part), kind) == count_of(body, kind) + if part == kind {
            1int
        } else {
            0
        },
{
    assert(body.push(part).drop_last() =~= body);
}

}
