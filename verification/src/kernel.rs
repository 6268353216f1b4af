//! What each member of a squad does and where it goes, by expected value.
//!
//! Offense, healing and risk are priced in one currency: how much a change of fighting strength
//! shifts the odds ([`win_permille`], [`sensitivities`]). From its tile a member takes the most
//! valuable of the action sets that the game carries out ([`enumerate_legal_sets`]); then it goes to
//! the tile around it that is worth most. Members share ledgers of what is left to destroy and to
//! heal, so that nothing is counted twice ([`plan_squad_ev`]).
use crate::battlefield::{
    CombatIntent, CombatStructureDto, FocusTarget, KillTarget, Ownership, StructureKind, ThreatField,
};
use crate::constants::{ATTACK_POWER, HEAL_POWER, RANGED_HEAL_POWER};
use crate::fixed::{minus, plus, times};
use crate::geometry::{range_between, tile_cost, Position};
use screeps::local::LocalCostMatrix;
use std::collections::HashMap;
use vstd::prelude::*;

verus! {

// ---------------------------------------------------------------------------------------------
// Actions.
// ---------------------------------------------------------------------------------------------

/// What a creep can do with the parts that still work.
#[derive(Clone, Copy, Debug, PartialEq, Eq, Structural)]
pub struct ActorCaps {
    /// It can strike, with ATTACK.
    pub melee: bool,
    /// It can shoot, with RANGED_ATTACK.
    pub ranged: bool,
    /// It can heal, with HEAL.
    pub heal: bool,
    /// It can take structures apart, with WORK.
    pub dismantle: bool,
    /// It can attack a controller, with CLAIM.
    pub claim: bool,
}

impl Default for ActorCaps {
    fn default() -> (caps: Self)
        ensures
            caps == (ActorCaps {
                melee: false,
                ranged: false,
                heal: false,
                dismantle: false,
                claim: false,
            }),
    {
        ActorCaps { melee: false, ranged: false, heal: false, dismantle: false, claim: false }
    }
}

/// An action of a creep in combat.
#[derive(Clone, Copy, Debug, PartialEq, Eq, Structural)]
pub enum Act {
    /// Strike a creep or a structure next to it.
    Melee,
    /// Shoot a creep or a structure up to three tiles away.
    Ranged,
    /// Shoot all within three tiles.
    Rma,
    /// Take a structure next to it apart.
    Dismantle,
    /// Attack a controller next to it.
    Declaim,
    /// Heal itself or a creep next to it.
    Heal,
    /// Heal a creep two or three tiles away.
    RangedHeal,
}

impl Act {
    /// The game drops this action when `other` is ordered as well.
    pub open spec fn yields_to(self, other: Act) -> bool {
        match self {
            Act::Melee => other == Act::Dismantle || other == Act::Declaim || other
                == Act::RangedHeal || other == Act::Heal,
            Act::Ranged => other == Act::Rma || other == Act::RangedHeal,
            Act::Rma => other == Act::RangedHeal,
            Act::Dismantle => other == Act::Declaim || other == Act::RangedHeal || other
                == Act::Heal,
            Act::Declaim => other == Act::RangedHeal || other == Act::Heal,
            Act::RangedHeal => other == Act::Heal,
            Act::Heal => false,
        }
    }

    /// The actions that make the game drop this one.
    fn dropped_by(self) -> (by: Vec<Act>)
        ensures
            forall|other: Act| by@.contains(other) <==> self.yields_to(other),
    {
        let by: Vec<Act> = match self {
            Act::Melee => vec![Act::Dismantle, Act::Declaim, Act::RangedHeal, Act::Heal],
            Act::Ranged => vec![Act::Rma, Act::RangedHeal],
            Act::Rma => vec![Act::RangedHeal],
            Act::Dismantle => vec![Act::Declaim, Act::RangedHeal, Act::Heal],
            Act::Declaim => vec![Act::RangedHeal, Act::Heal],
            Act::RangedHeal => vec![Act::Heal],
            Act::Heal => vec![],
        };
        proof {
            assert forall|other: Act| by@.contains(other) <==> self.yields_to(other) by {
                match self {
                    Act::Melee => {
                        assert(by@[0] == Act::Dismantle && by@[1] == Act::Declaim && by@[2]
                            == Act::RangedHeal && by@[3] == Act::Heal);
                    },
                    Act::Ranged => {
                        assert(by@[0] == Act::Rma && by@[1] == Act::RangedHeal);
                    },
                    Act::Rma => {
                        assert(by@[0] == Act::RangedHeal);
                    },
                    Act::Dismantle => {
                        assert(by@[0] == Act::Declaim && by@[1] == Act::RangedHeal && by@[2]
                            == Act::Heal);
                    },
                    Act::Declaim => {
                        assert(by@[0] == Act::RangedHeal && by@[1] == Act::Heal);
                    },
                    Act::RangedHeal => {
                        assert(by@[0] == Act::Heal);
                    },
                    Act::Heal => {},
                }
            }
        }
        by
    }
}

/// The game carries out all of the actions: none of them makes it drop another.
pub open spec fn is_legal(set: Seq<Act>) -> bool {
    forall|i: int, j: int|
        0 <= i < set.len() && 0 <= j < set.len() ==> !(#[trigger] set[i]).yields_to(
            #[trigger] set[j],
        )
}

/// Whether the game carries out all of the actions.
pub fn is_engine_legal(set: &[Act]) -> (legal: bool)
    ensures
        legal == is_legal(set@),
{
    let mut i: usize = 0;
    while i < set.len()
        invariant
            i <= set@.len(),
            forall|a: int, b: int|
                0 <= a < i && 0 <= b < set@.len() ==> !(#[trigger] set@[a]).yields_to(
                    #[trigger] set@[b],
                ),
        decreases set@.len() - i,
    {
        let by = set[i].dropped_by();
        let mut j: usize = 0;
        while j < set.len()
            invariant
                i < set@.len(),
                j <= set@.len(),
                forall|other: Act| by@.contains(other) <==> set@[i as int].yields_to(other),
                forall|b: int| 0 <= b < j ==> !set@[i as int].yields_to(#[trigger] set@[b]),
            decreases set@.len() - j,
        {
            if holds(&by, set[j]) {
                assert(set@[i as int].yields_to(set@[j as int]));
                return false;
            }
            j = j + 1;
        }
        i = i + 1;
    }
    true
}

/// Whether the action is among `acts`.
fn holds(acts: &Vec<Act>, act: Act) -> (yes: bool)
    ensures
        yes == acts@.contains(act),
{
    let mut k: usize = 0;
    while k < acts.len()
        invariant
            k <= acts@.len(),
            forall|h: int| 0 <= h < k ==> #[trigger] acts@[h] != act,
        decreases acts@.len() - k,
    {
        if acts[k] == act {
            assert(acts@[k as int] == act);
            return true;
        }
        k = k + 1;
    }
    false
}

impl ActorCaps {
    /// The creep has the parts for the action.
    pub open spec fn can(&self, act: Act) -> bool {
        match act {
            Act::Melee => self.melee,
            Act::Ranged | Act::Rma => self.ranged,
            Act::Dismantle => self.dismantle,
            Act::Declaim => self.claim,
            Act::Heal | Act::RangedHeal => self.heal,
        }
    }

    /// What the creep may do besides shooting and healing: nothing, or one of these.
    pub open spec fn grounds(&self) -> Seq<Seq<Act>> {
        seq![Seq::<Act>::empty()] + (if self.claim {
            seq![seq![Act::Declaim]]
        } else {
            seq![]
        }) + (if self.dismantle {
            seq![seq![Act::Dismantle]]
        } else {
            seq![]
        }) + (if self.melee {
            seq![seq![Act::Melee]]
        } else {
            seq![]
        })
    }

    /// How the creep may shoot: not at all, at one target or at all.
    pub open spec fn shots(&self) -> Seq<Seq<Act>> {
        seq![Seq::<Act>::empty()] + (if self.ranged {
            seq![seq![Act::Ranged], seq![Act::Rma]]
        } else {
            seq![]
        })
    }

    /// The action sets that the creep may choose from.
    pub open spec fn menu(&self) -> Seq<Seq<Act>> {
        crossed(self.grounds(), self.shots()) + if self.heal {
            crossed(seq![seq![Act::Heal]], self.shots()) + seq![seq![Act::RangedHeal]]
        } else {
            seq![]
        }
    }
}

/// Each of the first followed by each of the second.
pub open spec fn crossed(first: Seq<Seq<Act>>, second: Seq<Seq<Act>>) -> Seq<Seq<Act>>
    decreases first.len(),
{
    if first.len() == 0 {
        Seq::empty()
    } else {
        crossed(first.drop_last(), second) + Seq::new(
            second.len(),
            |j: int| first.last() + second[j],
        )
    }
}

/// What the vectors hold.
pub open spec fn contents<T>(sets: Seq<Vec<T>>) -> Seq<Seq<T>> {
    Seq::new(sets.len(), |i: int| sets[i]@)
}

/// The one followed by the other.
fn join(first: &Vec<Act>, second: &Vec<Act>) -> (joined: Vec<Act>)
    ensures
        joined@ == first@ + second@,
{
    let mut joined: Vec<Act> = Vec::new();
    let mut i: usize = 0;
    while i < first.len()
        invariant
            i <= first@.len(),
            joined@ =~= first@.take(i as int),
        decreases first@.len() - i,
    {
        joined.push(first[i]);
        i = i + 1;
    }
    assert(joined@ =~= first@);
    let mut j: usize = 0;
    while j < second.len()
        invariant
            j <= second@.len(),
            joined@ =~= first@ + second@.take(j as int),
        decreases second@.len() - j,
    {
        joined.push(second[j]);
        j = j + 1;
    }
    joined
}

/// Appends each of the first followed by each of the second.
fn push_crossed(out: &mut Vec<Vec<Act>>, first: &Vec<Vec<Act>>, second: &Vec<Vec<Act>>)
    ensures
        contents(final(out)@) == contents(old(out)@) + crossed(contents(first@), contents(second@)),
{
    let ghost before = contents(out@);
    let ghost a = contents(first@);
    let ghost b = contents(second@);
    let mut i: usize = 0;
    assert(a.take(0) =~= Seq::<Seq<Act>>::empty());
    while i < first.len()
        invariant
            i <= first@.len(),
            a == contents(first@),
            b == contents(second@),
            contents(out@) =~= before + crossed(a.take(i as int), b),
        decreases first@.len() - i,
    {
        let ghost row = contents(out@);
        let mut j: usize = 0;
        while j < second.len()
            invariant
                i < first@.len(),
                j <= second@.len(),
                a == contents(first@),
                b == contents(second@),
                contents(out@) =~= row + Seq::new(j as nat, |h: int| a[i as int] + b[h]),
            decreases second@.len() - j,
        {
            let set = join(&first[i], &second[j]);
            let ghost sets = out@;
            out.push(set);
            assert(contents(out@) =~= contents(sets).push(set@));
            j = j + 1;
        }
        assert(a.take(i + 1).drop_last() =~= a.take(i as int));
        assert(a.take(i + 1).last() == a[i as int]);
        i = i + 1;
    }
    assert(a.take(i as int) =~= a);
}

/// Appends a set of one action.
fn push_one(out: &mut Vec<Vec<Act>>, act: Act)
    ensures
        contents(final(out)@) == contents(old(out)@).push(seq![act]),
{
    let ghost before = out@;
    let one: Vec<Act> = vec![act];
    out.push(one);
    assert(one@ =~= seq![act]);
    assert(contents(out@) =~= contents(before).push(seq![act]));
}

/// The one set that holds nothing.
fn idle() -> (out: Vec<Vec<Act>>)
    ensures
        contents(out@) == seq![Seq::<Act>::empty()],
{
    let none: Vec<Act> = Vec::new();
    let mut out: Vec<Vec<Act>> = Vec::new();
    out.push(none);
    assert(none@ =~= Seq::<Act>::empty());
    assert(contents(out@) =~= seq![Seq::<Act>::empty()]);
    out
}

/// Every set of actions that the game carries out for a creep with these abilities: at most one
/// action on the ground next to it, and at most one way of shooting; or a heal with a way of
/// shooting; or a heal at a distance. Doing nothing comes first.
pub fn enumerate_legal_sets(caps: ActorCaps) -> (sets: Vec<Vec<Act>>)
    ensures
        contents(sets@) == caps.menu(),
{
    let mut grounds = idle();
    if caps.claim {
        push_one(&mut grounds, Act::Declaim);
    }
    if caps.dismantle {
        push_one(&mut grounds, Act::Dismantle);
    }
    if caps.melee {
        push_one(&mut grounds, Act::Melee);
    }
    assert(contents(grounds@) =~= caps.grounds());
    let mut shots = idle();
    if caps.ranged {
        push_one(&mut shots, Act::Ranged);
        push_one(&mut shots, Act::Rma);
    }
    assert(contents(shots@) =~= caps.shots());
    let mut out: Vec<Vec<Act>> = Vec::new();
    assert(contents(out@) =~= Seq::<Seq<Act>>::empty());
    push_crossed(&mut out, &grounds, &shots);
    if caps.heal {
        let mut heal: Vec<Vec<Act>> = Vec::new();
        assert(contents(heal@) =~= Seq::<Seq<Act>>::empty());
        push_one(&mut heal, Act::Heal);
        assert(contents(heal@) =~= seq![seq![Act::Heal]]);
        push_crossed(&mut out, &heal, &shots);
        push_one(&mut out, Act::RangedHeal);
    }
    assert(contents(out@) =~= caps.menu());
    out
}

/// The game carries out every set on the menu, and doing nothing is on it.
pub proof fn law_menu_is_legal(caps: ActorCaps)
    ensures
        forall|i: int| 0 <= i < caps.menu().len() ==> is_legal(#[trigger] caps.menu()[i]),
        caps.menu().len() >= 1,
        caps.menu()[0] == Seq::<Act>::empty(),
{
    let g = caps.grounds();
    let s = caps.shots();
    lemma_crossed(g, s);
    lemma_crossed(seq![seq![Act::Heal]], s);
    let free = crossed(g, s);
    let healing = crossed(seq![seq![Act::Heal]], s);
    assert forall|i: int| 0 <= i < g.len() implies (#[trigger] g[i]) == Seq::<Act>::empty() || g[i]
        == seq![Act::Declaim] || g[i] == seq![Act::Dismantle] || g[i] == seq![Act::Melee] by {}
    assert forall|i: int| 0 <= i < s.len() implies (#[trigger] s[i]) == Seq::<Act>::empty() || s[i]
        == seq![Act::Ranged] || s[i] == seq![Act::Rma] by {}
    assert forall|i: int| 0 <= i < free.len() implies is_legal(#[trigger] free[i]) by {
        let (a, b) = (i / (s.len() as int), i % (s.len() as int));
        assert(is_cell(g, s, i, free[i]));
        assert(g[a].len() <= 1 && s[b].len() <= 1);
    }
    assert forall|i: int| 0 <= i < healing.len() implies is_legal(#[trigger] healing[i]) by {
        let one = seq![seq![Act::Heal]];
        let (a, b) = (i / (s.len() as int), i % (s.len() as int));
        assert(is_cell(one, s, i, healing[i]));
        assert(one[a] == seq![Act::Heal]);
        assert(s[b].len() <= 1);
    }
    assert(is_legal(seq![Act::RangedHeal]));
    assert forall|i: int| 0 <= i < caps.menu().len() implies is_legal(#[trigger] caps.menu()[i]) by {
        if i < free.len() {
            assert(caps.menu()[i] == free[i]);
        } else if i < free.len() + healing.len() {
            assert(caps.menu()[i] == healing[i - free.len()]);
        } else {
            assert(caps.menu()[i] == seq![Act::RangedHeal]);
        }
    }
    let n = s.len() as int;
    assert(0int / n == 0 && 0int % n == 0) by (nonlinear_arith)
        requires
            n > 0,
    ;
    assert(is_cell(g, s, 0, free[0]));
    assert(caps.menu()[0] =~= Seq::<Act>::empty());
}

/// The menu lacks nothing: whatever a creep with these abilities orders that the game carries out, a
/// set on the menu holds the same actions. And the menu asks for no ability that the creep lacks.
#[verifier::spinoff_prover]
#[verifier::rlimit(60)]
pub proof fn law_menu_is_complete(caps: ActorCaps, set: Seq<Act>)
    requires
        is_legal(set),
        forall|i: int| 0 <= i < set.len() ==> caps.can(#[trigger] set[i]),
    ensures
        exists|k: int|
            0 <= k < caps.menu().len() && #[trigger] caps.menu()[k].to_set() == set.to_set(),
        forall|k: int, i: int|
            0 <= k < caps.menu().len() && 0 <= i < caps.menu()[k].len() ==> caps.can(
                #[trigger] caps.menu()[k][i],
            ),
{
    let g = caps.grounds();
    let s = caps.shots();
    let heal = seq![seq![Act::Heal]];
    let free = crossed(g, s);
    let healing = crossed(heal, s);
    let menu = caps.menu();
    lemma_crossed(g, s);
    lemma_crossed(heal, s);
    // What is on the menu.
    assert forall|k: int, i: int| 0 <= k < menu.len() && 0 <= i < menu[k].len() implies caps.can(
        #[trigger] menu[k][i],
    ) by {
        let n = s.len() as int;
        if k < free.len() {
            assert(menu[k] == free[k]);
            assert(is_cell(g, s, k, free[k]));
            assert(g[k / n].len() <= 1 && s[k % n].len() <= 1);
        } else if k < free.len() + healing.len() {
            let h = k - free.len();
            assert(menu[k] == healing[h]);
            assert(is_cell(heal, s, h, healing[h]));
            assert(heal[h / n] == seq![Act::Heal]);
            assert(s[h % n].len() <= 1);
        } else {
            assert(menu[k] == seq![Act::RangedHeal]);
        }
    }
    // Where the set is on the menu.
    let ground = if set.contains(Act::Declaim) {
        Some(Act::Declaim)
    } else if set.contains(Act::Dismantle) {
        Some(Act::Dismantle)
    } else if set.contains(Act::Melee) {
        Some(Act::Melee)
    } else {
        None
    };
    let shot = if set.contains(Act::Rma) {
        Some(Act::Rma)
    } else if set.contains(Act::Ranged) {
        Some(Act::Ranged)
    } else {
        None
    };
    assert forall|a: Act, b: Act| #[trigger] set.contains(a) && #[trigger] set.contains(b) implies
        !a.yields_to(b) && caps.can(a) by {
        let i = choose|i: int| 0 <= i < set.len() && set[i] == a;
        let j = choose|j: int| 0 <= j < set.len() && set[j] == b;
        assert(!set[i].yields_to(set[j]));
        assert(caps.can(set[i]));
    }
    let b: int = if shot == Some(Act::Ranged) {
        1
    } else if shot == Some(Act::Rma) {
        2
    } else {
        0
    };
    assert(s[b] =~= only(shot));
    if set.contains(Act::Heal) {
        lemma_cell_of(heal, s, 0, b);
        let h = 0 * s.len() + b;
        let k = free.len() + h;
        assert(menu[k] == healing[h]);
        assert(heal[0] =~= only(Some(Act::Heal)));
        lemma_pair_holds(set, menu[k], Some(Act::Heal), shot);
        assert(menu[k].to_set() == set.to_set());
    } else if set.contains(Act::RangedHeal) {
        let k = (free.len() + healing.len()) as int;
        assert(menu[k] =~= only(Some(Act::RangedHeal)) + only(None));
        lemma_pair_holds(set, menu[k], Some(Act::RangedHeal), None);
        assert(menu[k].to_set() == set.to_set());
    } else {
        let claims: int = if caps.claim {
            1
        } else {
            0
        };
        let works: int = if caps.dismantle {
            1
        } else {
            0
        };
        let a: int = if ground == Some(Act::Declaim) {
            1
        } else if ground == Some(Act::Dismantle) {
            1 + claims
        } else if ground == Some(Act::Melee) {
            1 + claims + works
        } else {
            0
        };
        assert(g[a] =~= only(ground));
        lemma_cell_of(g, s, a, b);
        let k = a * s.len() + b;
        assert(menu[k] == free[k]);
        lemma_pair_holds(set, menu[k], ground, shot);
        assert(menu[k].to_set() == set.to_set());
    }
}

/// One action, or none.
spec fn only(act: Option<Act>) -> Seq<Act> {
    match act {
        Some(act) => seq![act],
        None => Seq::empty(),
    }
}

/// Two sets hold the same actions where one of them is made of what the other holds.
proof fn lemma_pair_holds(set: Seq<Act>, pair: Seq<Act>, first: Option<Act>, second: Option<Act>)
    requires
        pair == only(first) + only(second),
        forall|act: Act| set.contains(act) <==> first == Some(act) || second == Some(act),
    ensures
        pair.to_set() == set.to_set(),
{
    assert forall|act: Act| pair.contains(act) <==> set.contains(act) by {
        if first == Some(act) {
            assert(pair[0] == act);
        }
        if second == Some(act) {
            assert(pair[only(first).len() as int] == act);
        }
    }
    assert(pair.to_set() =~= set.to_set());
}

/// Where a set stands when the lists are crossed row by row.
proof fn lemma_cell_of(first: Seq<Seq<Act>>, second: Seq<Seq<Act>>, a: int, b: int)
    requires
        0 <= a < first.len(),
        0 <= b < second.len(),
    ensures
        0 <= a * second.len() + b < crossed(first, second).len(),
        crossed(first, second)[a * second.len() + b] == first[a] + second[b],
{
    let n = second.len() as int;
    let i = a * n + b;
    lemma_crossed(first, second);
    assert(0 <= i < first.len() * n) by (nonlinear_arith)
        requires
            i == a * n + b,
            0 <= a,
            a + 1 <= first.len(),
            0 <= b < n,
    ;
    vstd::arithmetic::div_mod::lemma_fundamental_div_mod_converse(i, n, a, b);
    assert(is_cell(first, second, i, crossed(first, second)[i]));
}

/// The set at `i` when the lists are crossed row by row.
spec fn is_cell(first: Seq<Seq<Act>>, second: Seq<Seq<Act>>, i: int, set: Seq<Act>) -> bool {
    let n = second.len() as int;
    &&& 0 <= i / n < first.len()
    &&& 0 <= i % n < n
    &&& set == first[i / n] + second[i % n]
}

/// Crossing lists by rows.
proof fn lemma_crossed(first: Seq<Seq<Act>>, second: Seq<Seq<Act>>)
    requires
        second.len() > 0,
    ensures
        crossed(first, second).len() == first.len() * second.len(),
        forall|i: int|
            0 <= i < crossed(first, second).len() ==> is_cell(
                first,
                second,
                i,
                #[trigger] crossed(first, second)[i],
            ),
    decreases first.len(),
{
    let n = second.len() as int;
    if first.len() > 0 {
        let rest = first.drop_last();
        lemma_crossed(rest, second);
        let k = rest.len() as int;
        assert((k + 1) * n == k * n + n) by (nonlinear_arith);
        assert forall|i: int| 0 <= i < crossed(first, second).len() implies is_cell(
            first,
            second,
            i,
            #[trigger] crossed(first, second)[i],
        ) by {
            if i < k * n {
                assert(crossed(first, second)[i] == crossed(rest, second)[i]);
                assert(is_cell(rest, second, i, crossed(rest, second)[i]));
                assert(first[i / n] == rest[i / n]);
            } else {
                let j = i - k * n;
                assert(i == k * n + j);
                vstd::arithmetic::div_mod::lemma_fundamental_div_mod_converse(i, n, k, j);
                assert(first.last() == first[k]);
            }
        }
    } else {
        assert(0 * n == 0) by (nonlinear_arith);
    }
}

// ---------------------------------------------------------------------------------------------
// Currency.
// ---------------------------------------------------------------------------------------------

/// The odds of winning, in thousandths, at margins fifty apart from -1000 to 1000: a logistic curve.
pub const WIN_LUT: [u16; 41] = [
    18, 22, 27, 32, 39, 47, 57, 69, 83, 100, 119, 142, 168, 198, 231, 269, 310, 354, 401, 450, 500,
    550, 599, 646, 690, 731, 769, 802, 832, 858, 881, 900, 917, 931, 943, 953, 961, 968, 973, 978,
    982,
];

/// The odds of winning at a margin, between the entries of the curve in proportion.
pub open spec fn odds(mu: int) -> int {
    let t = crate::fixed::within(mu, -1000, 1000) + 1000;
    let i = t / 50;
    if i >= 40 {
        WIN_LUT[40] as int
    } else {
        WIN_LUT[i] + (WIN_LUT[i + 1] - WIN_LUT[i]) * (t % 50) / 50
    }
}

/// The odds of winning, in thousandths, at a margin `mu` of strength, in thousandths; beyond a
/// thousand either way they do not change.
pub fn win_permille(mu: i64) -> (w: i64)
    ensures
        w == odds(mu as int),
        18 <= w <= 982,
{
    let mu: i64 = if mu < -1000 {
        -1000
    } else if mu > 1000 {
        1000
    } else {
        mu
    };
    let t: i64 = mu + 1000;
    let i: usize = (t / 50) as usize;
    proof {
        lemma_curve_rises();
    }
    if i >= 40 {
        return WIN_LUT[40] as i64;
    }
    let lo: i64 = WIN_LUT[i] as i64;
    let hi: i64 = WIN_LUT[i + 1] as i64;
    let frac: i64 = t % 50;
    assert(WIN_LUT[i as int] <= WIN_LUT[i + 1]);
    assert(0 <= (hi - lo) * frac <= (hi - lo) * 50) by (nonlinear_arith)
        requires
            0 <= frac < 50,
            lo <= hi,
    ;
    lo + (hi - lo) * frac / 50
}

/// The entries of the curve rise.
proof fn lemma_curve_rises()
    ensures
        forall|i: int, j: int|
            0 <= i <= j <= 40 ==> 18 <= #[trigger] WIN_LUT[i] <= #[trigger] WIN_LUT[j] <= 982,
{
}

/// The odds of one side and of the other make certainty, but for what rounding takes.
pub proof fn law_odds_are_symmetric(mu: int)
    ensures
        999 <= odds(mu) + odds(-mu) <= 1000,
        odds(0) == 500,
{
    let t = crate::fixed::within(mu, -1000, 1000) + 1000;
    let i = t / 50;
    let f = t % 50;
    lemma_curve_is_symmetric();
    assert(crate::fixed::within(-mu, -1000, 1000) + 1000 == 2000 - t);
    if f == 0 {
        assert((2000 - t) / 50 == 40 - i && (2000 - t) % 50 == 0);
        assert(WIN_LUT[i] + WIN_LUT[40 - i] == 1000);
        if i < 40 {
            let rise = WIN_LUT[i + 1] - WIN_LUT[i];
            assert(rise * 0 == 0) by (nonlinear_arith);
        }
        if i > 0 {
            let rise = WIN_LUT[40 - i + 1] - WIN_LUT[40 - i];
            assert(rise * 0 == 0) by (nonlinear_arith);
        }
    } else {
        assert((2000 - t) / 50 == 39 - i && (2000 - t) % 50 == 50 - f);
        assert(WIN_LUT[i] + WIN_LUT[40 - i] == 1000);
        assert(WIN_LUT[i + 1] + WIN_LUT[39 - i] == 1000);
        let rise = WIN_LUT[i + 1] - WIN_LUT[i];
        assert(rise * (50 - f) == 50 * rise - rise * f) by (nonlinear_arith);
    }
    let middle = WIN_LUT[21] - WIN_LUT[20];
    assert(middle * 0 == 0) by (nonlinear_arith);
}

/// The entries of the curve mirror each other.
proof fn lemma_curve_is_symmetric()
    ensures
        forall|i: int| 0 <= i <= 40 ==> #[trigger] WIN_LUT[i] + WIN_LUT[40 - i] == 1000,
{
}

/// The least that the slope of the curve counts for.
pub const SLOPE_FLOOR: i64 = 1;

/// How much the odds change over a window of a hundred around a margin.
pub open spec fn slope(mu: int) -> int {
    crate::fixed::max_of(odds(mu + 50) - odds(mu - 50), SLOPE_FLOOR as int)
}

/// How much the odds change over a window of a hundred around a margin, at least the floor.
fn margin_slope(mu: i64) -> (s: i64)
    ensures
        s == slope(mu as int),
        1 <= s <= 1000,
{
    let rise: i64 = win_permille(plus(mu, 50)) - win_permille(minus(mu, 50));
    if rise > SLOPE_FLOOR {
        rise
    } else {
        SLOPE_FLOOR
    }
}

/// What a unit of fighting strength is worth, on either side.
#[derive(Clone, Copy, Debug, PartialEq, Eq, Structural)]
pub struct Sensitivities {
    /// What a unit of ours is worth, kept or added.
    pub g_us: i64,
    /// What a unit of theirs is worth, removed.
    pub g_them: i64,
}

/// The most that a unit of strength is worth.
pub const G_CAP: i64 = 1_073_741_824;

/// Scaled down to the cap where the larger of the two exceeds it.
pub open spec fn capped(g: int, larger: int) -> int {
    if larger > G_CAP {
        crate::fixed::max_of(g * G_CAP / larger, 1)
    } else {
        g
    }
}

/// What a unit of ours is worth: the slope of the odds times the enemy's strength.
pub open spec fn worth_of_ours(ours: int, theirs: int, mu: int) -> int {
    let (a, b) = (crate::fixed::max_of(ours, 1), crate::fixed::max_of(theirs, 1));
    capped(slope(mu) * b, slope(mu) * crate::fixed::max_of(a, b))
}

/// What a unit of theirs is worth: the slope of the odds times our strength.
pub open spec fn worth_of_theirs(ours: int, theirs: int, mu: int) -> int {
    let (a, b) = (crate::fixed::max_of(ours, 1), crate::fixed::max_of(theirs, 1));
    capped(slope(mu) * a, slope(mu) * crate::fixed::max_of(a, b))
}

/// Scaling down keeps a positive worth positive and within the cap.
proof fn lemma_capped(g: int, larger: int)
    requires
        1 <= g <= larger,
    ensures
        1 <= capped(g, larger) <= G_CAP,
{
    if larger > G_CAP {
        assert(g * 1_073_741_824 / larger <= 1_073_741_824) by (nonlinear_arith)
            requires
                1 <= g <= larger,
        ;
    }
}

/// What a unit of fighting strength is worth on either side, where ours is `our_strength`, theirs
/// `enemy_strength` and the margin `mu`. Ours is worth the more, the stronger they are, and theirs
/// the more, the stronger we are; both are worth more near an even fight.
pub fn sensitivities(our_strength: u64, enemy_strength: u64, mu: i64) -> (s: Sensitivities)
    ensures
        s.g_us == worth_of_ours(our_strength as int, enemy_strength as int, mu as int),
        s.g_them == worth_of_theirs(our_strength as int, enemy_strength as int, mu as int),
        1 <= s.g_us <= G_CAP,
        1 <= s.g_them <= G_CAP,
{
    let slope: i128 = margin_slope(mu) as i128;
    let ours: i128 = if our_strength > 1 {
        our_strength as i128
    } else {
        1
    };
    let theirs: i128 = if enemy_strength > 1 {
        enemy_strength as i128
    } else {
        1
    };
    assert(1 <= slope * theirs <= 1000 * theirs) by (nonlinear_arith)
        requires
            1 <= slope <= 1000,
            1 <= theirs,
    ;
    assert(1 <= slope * ours <= 1000 * ours) by (nonlinear_arith)
        requires
            1 <= slope <= 1000,
            1 <= ours,
    ;
    assert(ours <= theirs ==> slope * ours <= slope * theirs) by (nonlinear_arith)
        requires
            1 <= slope,
    ;
    assert(theirs <= ours ==> slope * theirs <= slope * ours) by (nonlinear_arith)
        requires
            1 <= slope,
    ;
    let us: i128 = slope * theirs;
    let them: i128 = slope * ours;
    let larger: i128 = if us > them {
        us
    } else {
        them
    };
    proof {
        let (a, b) = (
            crate::fixed::max_of(our_strength as int, 1),
            crate::fixed::max_of(enemy_strength as int, 1),
        );
        assert(a == ours && b == theirs);
        assert(larger == slope * crate::fixed::max_of(a, b));
        lemma_capped(us as int, larger as int);
        lemma_capped(them as int, larger as int);
    }
    let g_us: i128 = capped_to(us, larger);
    let g_them: i128 = capped_to(them, larger);
    Sensitivities { g_us: g_us as i64, g_them: g_them as i64 }
}

/// A rate, scaled down so that the larger of the two stays within the cap.
fn capped_to(g: i128, larger: i128) -> (c: i128)
    requires
        1 <= g <= larger <= 1000 * 0x1_0000_0000_0000_0000,
    ensures
        c == capped(g as int, larger as int),
{
    let cap: i128 = G_CAP as i128;
    if larger > cap {
        assert(g * cap == g * 1_073_741_824);
        let scaled: i128 = g * cap / larger;
        if scaled > 1 {
            scaled
        } else {
            1
        }
    } else {
        g
    }
}

/// The odds never fall as the margin grows, lie between eighteen and 982 thousandths, are even at no
/// margin, and stop changing a thousand away from it.
pub proof fn law_odds_grow_with_the_margin(a: int, b: int)
    requires
        a <= b,
    ensures
        18 <= odds(a) <= odds(b) <= 982,
        odds(0) == 500,
        b <= -1000 ==> odds(b) == 18,
        a >= 1000 ==> odds(a) == 982,
{
    lemma_curve_rises();
    let s = crate::fixed::within(a, -1000, 1000) + 1000;
    let t = crate::fixed::within(b, -1000, 1000) + 1000;
    lemma_between_entries(s);
    lemma_between_entries(t);
    let (i, j) = (s / 50, t / 50);
    assert(i <= j);
    let zero = 0int;
    assert((WIN_LUT[1] - WIN_LUT[0]) * zero == 0 && (WIN_LUT[21] - WIN_LUT[20]) * zero == 0)
        by (nonlinear_arith)
        requires
            zero == 0,
    ;
    assert(WIN_LUT[0] == 18 && WIN_LUT[20] == 500 && WIN_LUT[40] == 982);
    assert(0int % 50 == zero && 1000int % 50 == zero && 1000int / 50 == 20 && 0int / 50 == 0);
    if i == j && i < 40 {
        let step = WIN_LUT[i + 1] - WIN_LUT[i];
        assert(step * (s % 50) <= step * (t % 50)) by (nonlinear_arith)
            requires
                0 <= step,
                s % 50 <= t % 50,
        ;
        assert(step * (s % 50) / 50 <= step * (t % 50) / 50);
    } else if i < j {
        assert(WIN_LUT[i + 1] <= WIN_LUT[j]);
    }
}

/// Between two entries of the curve the odds lie between them.
proof fn lemma_between_entries(t: int)
    requires
        0 <= t <= 2000,
    ensures
        t / 50 < 40 ==> WIN_LUT[t / 50] <= WIN_LUT[t / 50] + (WIN_LUT[t / 50 + 1] - WIN_LUT[t / 50])
            * (t % 50) / 50 <= WIN_LUT[t / 50 + 1],
{
    lemma_curve_rises();
    let i = t / 50;
    if i < 40 {
        let step = WIN_LUT[i + 1] - WIN_LUT[i];
        assert(0 <= step * (t % 50) <= step * 50) by (nonlinear_arith)
            requires
                0 <= step,
                0 <= t % 50 < 50,
        ;
    }
}

/// Ahead, removing their strength is worth at least what keeping ours is; behind, the reverse; even,
/// the same. Neither is ever worth nothing, and both stay within the cap.
pub proof fn law_press_when_ahead_survive_when_behind(ours: int, theirs: int, mu: int)
    requires
        0 <= ours,
        0 <= theirs,
    ensures
        1 <= worth_of_ours(ours, theirs, mu) <= G_CAP,
        1 <= worth_of_theirs(ours, theirs, mu) <= G_CAP,
        ours >= theirs ==> worth_of_theirs(ours, theirs, mu) >= worth_of_ours(ours, theirs, mu),
        ours <= theirs ==> worth_of_theirs(ours, theirs, mu) <= worth_of_ours(ours, theirs, mu),
{
    let (a, b) = (crate::fixed::max_of(ours, 1), crate::fixed::max_of(theirs, 1));
    let m = crate::fixed::max_of(a, b);
    let k = slope(mu);
    assert(1 <= k * a <= k * m && 1 <= k * b <= k * m) by (nonlinear_arith)
        requires
            k >= 1,
            1 <= a <= m,
            1 <= b <= m,
    ;
    lemma_capped(k * a, k * m);
    lemma_capped(k * b, k * m);
    assert((a <= b ==> k * a <= k * b) && (b <= a ==> k * b <= k * a)) by (nonlinear_arith)
        requires
            k >= 1,
    ;
    lemma_capping_keeps_the_order(k * a, k * b, k * m);
    lemma_capping_keeps_the_order(k * b, k * a, k * m);
}

/// Scaling down keeps the order of rates.
proof fn lemma_capping_keeps_the_order(g: int, h: int, larger: int)
    requires
        1 <= larger,
    ensures
        g <= h ==> capped(g, larger) <= capped(h, larger),
{
    if g <= h && larger > G_CAP {
        assert(g * 1_073_741_824 / larger <= h * 1_073_741_824 / larger) by (nonlinear_arith)
            requires
                g <= h,
                1 <= larger,
        ;
    }
}

// ---------------------------------------------------------------------------------------------
// What an action is worth.
// ---------------------------------------------------------------------------------------------

/// A member of the squad.
#[derive(Clone, Copy, Debug)]
pub struct EvMember {
    /// Its place in the squad.
    pub idx: usize,
    pub id: Option<screeps::RawObjectId>,
    pub pos: Position,
    pub hits: u32,
    pub hits_max: u32,
    pub caps: ActorCaps,
    /// The damage that it strikes with.
    pub melee_power: u32,
    /// The damage that it shoots with.
    pub ranged_power: u32,
    /// Its working HEAL parts.
    pub heal_parts: u32,
    /// The damage that it does to a structure that it takes apart.
    pub dismantle_power: u32,
    /// The damage that it does to a controller.
    pub claim_power: u32,
}

/// What a member is to do: where to go, and its orders for this tick.
#[derive(Clone, Debug)]
pub struct EvResult {
    pub goal: Option<Position>,
    pub intents: Vec<CombatIntent>,
}

impl Default for EvResult {
    fn default() -> (r: Self)
        ensures
            r.goal is None,
            r.intents@.len() == 0,
    {
        EvResult { goal: None, intents: Vec::new() }
    }
}

/// What the squad can still damage this tick.
#[derive(Clone, Copy, Debug)]
pub struct DamageTarget {
    pub pos: Position,
    pub id: Option<screeps::RawObjectId>,
    /// The hits that are left to remove.
    pub residual: i64,
    /// What each of them is worth.
    pub value_per_hit: i64,
    pub is_structure: bool,
    /// The damage that it strikes back with.
    pub attack_back: i64,
}

/// What the squad can still heal this tick.
#[derive(Clone, Copy, Debug)]
pub struct HealTarget {
    pub pos: Position,
    pub id: Option<screeps::RawObjectId>,
    /// The hits that are worth restoring.
    pub need: i64,
    /// The damage that is coming can kill it.
    pub mortal: bool,
}

/// How many times over it counts to heal a member that is about to die.
pub const MORTAL_HEAL_MULT: i64 = 4;

/// The tenths of its power that a mass attack does at a range.
pub open spec fn falloff(range: int) -> int {
    if range <= 1 {
        10
    } else if range == 2 {
        4
    } else if range == 3 {
        1
    } else {
        0
    }
}

/// The tenths of its power that a mass attack does at a range.
fn rma_factor(range: u32) -> (tenths: i64)
    ensures
        tenths == falloff(range as int),
{
    if range <= 1 {
        10
    } else if range == 2 {
        4
    } else if range == 3 {
        1
    } else {
        0
    }
}

/// The first of the greatest among the offers; `None` where there is no offer.
pub open spec fn best_of(offers: Seq<Option<int>>) -> Option<int>
    decreases offers.len(),
{
    if offers.len() == 0 {
        None
    } else {
        let rest = best_of(offers.drop_last());
        match offers.last() {
            None => rest,
            Some(v) => if rest is None || v > offers[rest->0]->0 {
                Some(offers.len() - 1)
            } else {
                rest
            },
        }
    }
}

/// [`best_of`] takes an offer where there is one, none is greater, and those before it are less.
pub proof fn law_first_of_the_greatest(offers: Seq<Option<int>>)
    ensures
        match best_of(offers) {
            None => forall|j: int| 0 <= j < offers.len() ==> (#[trigger] offers[j]) is None,
            Some(i) => {
                &&& 0 <= i < offers.len()
                &&& offers[i] is Some
                &&& forall|j: int|
                    0 <= j < offers.len() && offers[j] is Some ==> (#[trigger] offers[j])->0
                        <= offers[i]->0
                &&& forall|j: int|
                    0 <= j < i && offers[j] is Some ==> (#[trigger] offers[j])->0 < offers[i]->0
            },
        },
    decreases offers.len(),
{
    if offers.len() > 0 {
        let rest = offers.drop_last();
        law_first_of_the_greatest(rest);
        assert forall|j: int| 0 <= j < rest.len() implies rest[j] == #[trigger] offers[j] by {}
    }
}

/// What the offers say, as integers.
pub open spec fn offers_of(values: Seq<Option<i64>>) -> Seq<Option<int>> {
    Seq::new(
        values.len(),
        |i: int|
            match values[i] {
                Some(v) => Some(v as int),
                None => None,
            },
    )
}

/// The first of the greatest among the offers.
fn pick(values: &Vec<Option<i64>>) -> (best: Option<usize>)
    ensures
        match best {
            Some(i) => i < values@.len() && best_of(offers_of(values@)) == Some(i as int)
                && values@[i as int] is Some,
            None => best_of(offers_of(values@)) is None,
        },
{
    let ghost all = offers_of(values@);
    let mut best: Option<usize> = None;
    let mut top: i64 = 0;
    let mut i: usize = 0;
    assert(all.take(0) =~= Seq::empty());
    while i < values.len()
        invariant
            i <= values@.len(),
            all == offers_of(values@),
            match best {
                Some(b) => b < i && best_of(all.take(i as int)) == Some(b as int) && values@[b as int]
                    == Some(top),
                None => best_of(all.take(i as int)) is None,
            },
        decreases values@.len() - i,
    {
        let ghost seen = all.take(i + 1);
        assert(seen.drop_last() =~= all.take(i as int));
        assert(seen.last() == all[i as int]);
        if let Some(v) = values[i] {
            if best.is_none() || v > top {
                best = Some(i);
                top = v;
            }
        }
        i = i + 1;
    }
    assert(all.take(i as int) =~= all);
    best
}

impl EvMember {
    /// It stands on a tile.
    pub open spec fn wf(self) -> bool {
        self.pos.wf()
    }

    /// The damage of an action on one target.
    pub open spec fn power(self, act: Act) -> int {
        match act {
            Act::Melee => self.melee_power as int,
            Act::Dismantle => self.dismantle_power as int,
            Act::Declaim => self.claim_power as int,
            _ => self.ranged_power as int,
        }
    }

    /// What its heal restores: twelve hits per part next to it, four at a distance.
    pub open spec fn healing(self, act: Act) -> int {
        self.heal_parts * if act == Act::Heal {
            HEAL_POWER as int
        } else {
            RANGED_HEAL_POWER as int
        }
    }

    /// What the action does.
    fn power_of(&self, act: Act) -> (p: i64)
        ensures
            p == self.power(act),
    {
        match act {
            Act::Melee => self.melee_power as i64,
            Act::Dismantle => self.dismantle_power as i64,
            Act::Declaim => self.claim_power as i64,
            _ => self.ranged_power as i64,
        }
    }

    /// What the action heals.
    fn healing_of(&self, act: Act) -> (h: i64)
        ensures
            h == self.healing(act),
    {
        if act == Act::Heal {
            let c: i64 = HEAL_POWER as i64;
            assert(self.heal_parts * c == self.heal_parts * 12);
            self.heal_parts as i64 * c
        } else {
            let c: i64 = RANGED_HEAL_POWER as i64;
            assert(self.heal_parts * c == self.heal_parts * 4);
            self.heal_parts as i64 * c
        }
    }
}

/// What it is worth that the member does `act` to the target from `tile`, while `left` of the target
/// is left; `None` where it cannot. Striking a creep is worth less by what it strikes back.
pub open spec fn strike(
    m: EvMember,
    tile: Position,
    act: Act,
    t: DamageTarget,
    left: int,
    g_us: int,
) -> Option<int> {
    let reach: int = if act == Act::Ranged {
        3
    } else {
        1
    };
    let only_structures = act == Act::Dismantle || act == Act::Declaim;
    if left <= 0 || crate::geometry::chebyshev(tile, t.pos) > reach || (only_structures
        && !t.is_structure) {
        None
    } else {
        let gain = crate::fixed::nearest_i64(
            crate::fixed::min_of(m.power(act), left) * t.value_per_hit,
        );
        if act == Act::Melee && !t.is_structure {
            Some(
                crate::fixed::nearest_i64(
                    gain - crate::fixed::nearest_i64(g_us * t.attack_back),
                ),
            )
        } else {
            Some(gain)
        }
    }
}

/// What it is worth that the member heals the target from `tile`, while it needs `left`; `None` where
/// it cannot.
pub open spec fn mend(
    m: EvMember,
    tile: Position,
    act: Act,
    t: HealTarget,
    left: int,
    g_us: int,
) -> Option<int> {
    let range = crate::geometry::chebyshev(tile, t.pos);
    let in_reach = if act == Act::Heal {
        range <= 1
    } else {
        2 <= range <= 3
    };
    if left <= 0 || !in_reach {
        None
    } else {
        Some(
            crate::fixed::nearest_i64(
                crate::fixed::nearest_i64(crate::fixed::min_of(m.healing(act), left) * g_us)
                    * if t.mortal {
                    MORTAL_HEAL_MULT as int
                } else {
                    1
                },
            ),
        )
    }
}

/// What [`strike`] offers on each target.
pub open spec fn strikes(
    m: EvMember,
    tile: Position,
    act: Act,
    dmg: Seq<DamageTarget>,
    res: Seq<i64>,
    g_us: int,
) -> Seq<Option<int>> {
    Seq::new(dmg.len(), |i: int| strike(m, tile, act, dmg[i], res[i] as int, g_us))
}

/// What [`mend`] offers on each target.
pub open spec fn mends(
    m: EvMember,
    tile: Position,
    act: Act,
    heals: Seq<HealTarget>,
    need: Seq<i64>,
    g_us: int,
) -> Seq<Option<int>> {
    Seq::new(heals.len(), |i: int| mend(m, tile, act, heals[i], need[i] as int, g_us))
}

/// What a mass attack of the member from `tile` does to the target of which `left` is left.
pub open spec fn swept(m: EvMember, tile: Position, t: DamageTarget, left: int) -> int {
    let range = crate::geometry::chebyshev(tile, t.pos);
    if left <= 0 || range > 3 {
        0
    } else {
        crate::fixed::min_of(m.ranged_power * falloff(range) / 10, left)
    }
}

/// What a mass attack is worth on the first `n` targets.
pub open spec fn sweep(
    m: EvMember,
    tile: Position,
    dmg: Seq<DamageTarget>,
    res: Seq<i64>,
    n: int,
) -> int
    decreases n,
{
    if n <= 0 {
        0
    } else {
        crate::fixed::nearest_i64(
            sweep(m, tile, dmg, res, n - 1) + crate::fixed::nearest_i64(
                swept(m, tile, dmg[n - 1], res[n - 1] as int) * dmg[n - 1].value_per_hit,
            ),
        )
    }
}

/// What comes of actions: what they are worth, what they leave to damage and to heal, and the orders
/// for them.
#[verifier::ext_equal]
pub struct Outcome {
    pub value: int,
    pub res: Seq<i64>,
    pub need: Seq<i64>,
    pub intents: Seq<CombatIntent>,
}

/// The order to do `act` to the target.
pub open spec fn order_on(act: Act, t: DamageTarget) -> CombatIntent {
    match act {
        Act::Ranged => CombatIntent::RangedAttack { target: t.pos, id: t.id },
        Act::Dismantle => CombatIntent::Dismantle { target: t.pos, id: t.id },
        Act::Declaim => CombatIntent::Attack { target: t.pos, id: None },
        _ => CombatIntent::Attack { target: t.pos, id: t.id },
    }
}

/// The order to heal the target.
pub open spec fn order_for(act: Act, t: HealTarget) -> CombatIntent {
    if act == Act::Heal {
        CombatIntent::Heal { target: t.pos, id: t.id }
    } else {
        CombatIntent::RangedHeal { target: t.pos, id: t.id }
    }
}

/// What comes of `act` after what came of the actions before it: it goes to the target on which it is
/// worth most; a mass attack goes to all.
pub open spec fn with_act(
    m: EvMember,
    tile: Position,
    act: Act,
    dmg: Seq<DamageTarget>,
    heals: Seq<HealTarget>,
    g_us: int,
    so_far: Outcome,
) -> Outcome {
    match act {
        Act::Rma => {
            let gain = sweep(m, tile, dmg, so_far.res, dmg.len() as int);
            Outcome {
                value: crate::fixed::nearest_i64(so_far.value + gain),
                res: Seq::new(
                    dmg.len(),
                    |i: int|
                        (so_far.res[i] - swept(m, tile, dmg[i], so_far.res[i] as int)) as i64,
                ),
                need: so_far.need,
                intents: if gain > 0 {
                    so_far.intents.push(CombatIntent::RangedMassAttack)
                } else {
                    so_far.intents
                },
            }
        },
        Act::Heal | Act::RangedHeal => {
            let offers = mends(m, tile, act, heals, so_far.need, g_us);
            match best_of(offers) {
                None => so_far,
                Some(i) => Outcome {
                    value: crate::fixed::nearest_i64(so_far.value + offers[i]->0),
                    res: so_far.res,
                    need: so_far.need.update(
                        i,
                        (so_far.need[i] - crate::fixed::min_of(
                            m.healing(act),
                            so_far.need[i] as int,
                        )) as i64,
                    ),
                    intents: so_far.intents.push(order_for(act, heals[i])),
                },
            }
        },
        _ => {
            let offers = strikes(m, tile, act, dmg, so_far.res, g_us);
            match best_of(offers) {
                None => so_far,
                Some(i) => Outcome {
                    value: crate::fixed::nearest_i64(so_far.value + offers[i]->0),
                    res: so_far.res.update(
                        i,
                        (so_far.res[i] - crate::fixed::min_of(
                            m.power(act),
                            so_far.res[i] as int,
                        )) as i64,
                    ),
                    need: so_far.need,
                    intents: so_far.intents.push(order_on(act, dmg[i])),
                },
            }
        },
    }
}

/// What comes of the actions, one after the other.
pub open spec fn with_set(
    m: EvMember,
    tile: Position,
    set: Seq<Act>,
    dmg: Seq<DamageTarget>,
    heals: Seq<HealTarget>,
    g_us: int,
    before: Outcome,
) -> Outcome
    decreases set.len(),
{
    if set.len() == 0 {
        before
    } else {
        with_act(
            m,
            tile,
            set.last(),
            dmg,
            heals,
            g_us,
            with_set(m, tile, set.drop_last(), dmg, heals, g_us, before),
        )
    }
}

/// Nothing done yet, with what is left to damage and to heal.
pub open spec fn untouched(dmg: Seq<DamageTarget>, heals: Seq<HealTarget>) -> Outcome {
    Outcome {
        value: 0,
        res: Seq::new(dmg.len(), |i: int| dmg[i].residual),
        need: Seq::new(heals.len(), |i: int| heals[i].need),
        intents: Seq::empty(),
    }
}

/// What each set of the menu is worth.
pub open spec fn menu_values(
    m: EvMember,
    tile: Position,
    dmg: Seq<DamageTarget>,
    heals: Seq<HealTarget>,
    g_us: int,
) -> Seq<Option<int>> {
    Seq::new(
        m.caps.menu().len(),
        |i: int|
            Some(
                with_set(
                    m,
                    tile,
                    m.caps.menu()[i],
                    dmg,
                    heals,
                    g_us,
                    untouched(dmg, heals),
                ).value,
            ),
    )
}

/// The set of the menu that is worth most from `tile`; the first of them where several are.
pub open spec fn best_set(
    m: EvMember,
    tile: Position,
    dmg: Seq<DamageTarget>,
    heals: Seq<HealTarget>,
    g_us: int,
) -> Seq<Act> {
    m.caps.menu()[best_of(menu_values(m, tile, dmg, heals, g_us))->0]
}

/// What comes of it.
pub open spec fn best_outcome(
    m: EvMember,
    tile: Position,
    dmg: Seq<DamageTarget>,
    heals: Seq<HealTarget>,
    g_us: int,
) -> Outcome {
    with_set(
        m,
        tile,
        best_set(m, tile, dmg, heals, g_us),
        dmg,
        heals,
        g_us,
        untouched(dmg, heals),
    )
}

/// All that can be damaged stands on a tile.
pub open spec fn all_placed(dmg: Seq<DamageTarget>) -> bool {
    forall|i: int| 0 <= i < dmg.len() ==> (#[trigger] dmg[i]).pos.wf()
}

/// All that can be healed stands on a tile.
pub open spec fn all_standing(heals: Seq<HealTarget>) -> bool {
    forall|i: int| 0 <= i < heals.len() ==> (#[trigger] heals[i]).pos.wf()
}

/// [`strike`], computed.
fn strike_value(
    m: &EvMember,
    tile: Position,
    act: Act,
    t: &DamageTarget,
    left: i64,
    g_us: i64,
) -> (offer: Option<i64>)
    requires
        tile.wf(),
        t.pos.wf(),
    ensures
        match offer {
            Some(v) => strike(*m, tile, act, *t, left as int, g_us as int) == Some(v as int),
            None => strike(*m, tile, act, *t, left as int, g_us as int) is None,
        },
{
    let reach: u32 = if act == Act::Ranged {
        3
    } else {
        1
    };
    let only_structures = act == Act::Dismantle || act == Act::Declaim;
    if left <= 0 || range_between(tile, t.pos) > reach || (only_structures && !t.is_structure) {
        return None;
    }
    let power: i64 = m.power_of(act);
    let landed: i64 = if power < left {
        power
    } else {
        left
    };
    let gain: i64 = times(landed, t.value_per_hit);
    if act == Act::Melee && !t.is_structure {
        Some(minus(gain, times(g_us, t.attack_back)))
    } else {
        Some(gain)
    }
}

/// [`mend`], computed.
fn mend_value(
    m: &EvMember,
    tile: Position,
    act: Act,
    t: &HealTarget,
    left: i64,
    g_us: i64,
) -> (offer: Option<i64>)
    requires
        tile.wf(),
        t.pos.wf(),
    ensures
        match offer {
            Some(v) => mend(*m, tile, act, *t, left as int, g_us as int) == Some(v as int),
            None => mend(*m, tile, act, *t, left as int, g_us as int) is None,
        },
{
    let range: u32 = range_between(tile, t.pos);
    let in_reach = if act == Act::Heal {
        range <= 1
    } else {
        2 <= range && range <= 3
    };
    if left <= 0 || !in_reach {
        return None;
    }
    let output: i64 = m.healing_of(act);
    let landed: i64 = if output < left {
        output
    } else {
        left
    };
    let mult: i64 = if t.mortal {
        MORTAL_HEAL_MULT
    } else {
        1
    };
    Some(times(times(landed, g_us), mult))
}

/// [`strikes`], computed.
fn strike_values(
    m: &EvMember,
    tile: Position,
    act: Act,
    dmg: &Vec<DamageTarget>,
    res: &Vec<i64>,
    g_us: i64,
) -> (offers: Vec<Option<i64>>)
    requires
        tile.wf(),
        all_placed(dmg@),
        res@.len() == dmg@.len(),
    ensures
        offers_of(offers@) == strikes(*m, tile, act, dmg@, res@, g_us as int),
{
    let mut offers: Vec<Option<i64>> = Vec::new();
    let mut i: usize = 0;
    while i < dmg.len()
        invariant
            tile.wf(),
            all_placed(dmg@),
            res@.len() == dmg@.len(),
            i <= dmg@.len(),
            offers@.len() == i,
            forall|j: int|
                0 <= j < i ==> offers_of(offers@)[j] == #[trigger] strikes(
                    *m,
                    tile,
                    act,
                    dmg@,
                    res@,
                    g_us as int,
                )[j],
        decreases dmg@.len() - i,
    {
        let ghost before = offers@;
        let offer = strike_value(m, tile, act, &dmg[i], res[i], g_us);
        offers.push(offer);
        assert forall|j: int| 0 <= j < i + 1 implies offers_of(offers@)[j] == #[trigger] strikes(
            *m,
            tile,
            act,
            dmg@,
            res@,
            g_us as int,
        )[j] by {
            if j < i {
                assert(offers_of(offers@)[j] == offers_of(before)[j]);
            }
        }
        i = i + 1;
    }
    assert(offers_of(offers@) =~= strikes(*m, tile, act, dmg@, res@, g_us as int));
    offers
}

/// [`mends`], computed.
fn mend_values(
    m: &EvMember,
    tile: Position,
    act: Act,
    heals: &Vec<HealTarget>,
    need: &Vec<i64>,
    g_us: i64,
) -> (offers: Vec<Option<i64>>)
    requires
        tile.wf(),
        all_standing(heals@),
        need@.len() == heals@.len(),
    ensures
        offers_of(offers@) == mends(*m, tile, act, heals@, need@, g_us as int),
{
    let mut offers: Vec<Option<i64>> = Vec::new();
    let mut i: usize = 0;
    while i < heals.len()
        invariant
            tile.wf(),
            all_standing(heals@),
            need@.len() == heals@.len(),
            i <= heals@.len(),
            offers@.len() == i,
            forall|j: int|
                0 <= j < i ==> offers_of(offers@)[j] == #[trigger] mends(
                    *m,
                    tile,
                    act,
                    heals@,
                    need@,
                    g_us as int,
                )[j],
        decreases heals@.len() - i,
    {
        let ghost before = offers@;
        let offer = mend_value(m, tile, act, &heals[i], need[i], g_us);
        offers.push(offer);
        assert forall|j: int| 0 <= j < i + 1 implies offers_of(offers@)[j] == #[trigger] mends(
            *m,
            tile,
            act,
            heals@,
            need@,
            g_us as int,
        )[j] by {
            if j < i {
                assert(offers_of(offers@)[j] == offers_of(before)[j]);
            }
        }
        i = i + 1;
    }
    assert(offers_of(offers@) =~= mends(*m, tile, act, heals@, need@, g_us as int));
    offers
}

/// Does a mass attack: lowers what is left of each target, and returns what that is worth.
fn apply_sweep(m: &EvMember, tile: Position, dmg: &Vec<DamageTarget>, res: &mut Vec<i64>) -> (gain:
    i64)
    requires
        tile.wf(),
        all_placed(dmg@),
        old(res)@.len() == dmg@.len(),
    ensures
        gain == sweep(*m, tile, dmg@, old(res)@, dmg@.len() as int),
        final(res)@ == Seq::new(
            dmg@.len(),
            |i: int| (old(res)@[i] - swept(*m, tile, dmg@[i], old(res)@[i] as int)) as i64,
        ),
{
    let ghost before = res@;
    let mut total: i64 = 0;
    let mut i: usize = 0;
    while i < dmg.len()
        invariant
            tile.wf(),
            all_placed(dmg@),
            before.len() == dmg@.len(),
            res@.len() == dmg@.len(),
            i <= dmg@.len(),
            total == sweep(*m, tile, dmg@, before, i as int),
            forall|j: int|
                0 <= j < i ==> #[trigger] res@[j] == (before[j] - swept(
                    *m,
                    tile,
                    dmg@[j],
                    before[j] as int,
                )) as i64,
            forall|j: int| i <= j < dmg@.len() ==> #[trigger] res@[j] == before[j],
        decreases dmg@.len() - i,
    {
        let t = &dmg[i];
        let range: u32 = range_between(tile, t.pos);
        let left: i64 = res[i];
        if left > 0 && range <= 3 {
            let tenths: i64 = rma_factor(range);
            let power: i64 = m.ranged_power as i64;
            assert(0 <= power * tenths <= power * 10) by (nonlinear_arith)
                requires
                    0 <= tenths <= 10,
                    0 <= power,
            ;
            let full: i64 = power * tenths / 10;
            let landed: i64 = if full < left {
                full
            } else {
                left
            };
            total = plus(total, times(landed, t.value_per_hit));
            res[i] = left - landed;
        } else {
            assert(0 * t.value_per_hit == 0) by (nonlinear_arith);
        }
        i = i + 1;
    }
    assert(res@ =~= Seq::new(
        dmg@.len(),
        |i: int| (before[i] - swept(*m, tile, dmg@[i], before[i] as int)) as i64,
    ));
    total
}

/// Does `act` to the target on which it is worth most: lowers what is left of it, gives the order and
/// returns what that is worth. A mass attack goes to all targets.
fn apply_act(
    m: &EvMember,
    tile: Position,
    act: Act,
    dmg: &Vec<DamageTarget>,
    heals: &Vec<HealTarget>,
    res: &mut Vec<i64>,
    need: &mut Vec<i64>,
    g_us: i64,
    intents: &mut Vec<CombatIntent>,
) -> (gain: i64)
    requires
        tile.wf(),
        all_placed(dmg@),
        all_standing(heals@),
        old(res)@.len() == dmg@.len(),
        old(need)@.len() == heals@.len(),
    ensures
        (Outcome { value: gain as int, res: final(res)@, need: final(need)@, intents: final(intents)@ })
            == with_act(
            *m,
            tile,
            act,
            dmg@,
            heals@,
            g_us as int,
            Outcome { value: 0, res: old(res)@, need: old(need)@, intents: old(intents)@ },
        ),
        final(res)@.len() == dmg@.len(),
        final(need)@.len() == heals@.len(),
{
    match act {
        Act::Rma => {
            let total: i64 = apply_sweep(m, tile, dmg, res);
            if total > 0 {
                intents.push(CombatIntent::RangedMassAttack);
            }
            total
        },
        Act::Heal | Act::RangedHeal => {
            let offers = mend_values(m, tile, act, heals, need, g_us);
            proof {
                law_first_of_the_greatest(offers_of(offers@));
            }
            match pick(&offers) {
                Some(i) => {
                    let output: i64 = m.healing_of(act);
                    let left: i64 = need[i];
                    assert(offers_of(offers@)[i as int] is Some);
                    need[i] = left - if output < left {
                        output
                    } else {
                        left
                    };
                    let t = &heals[i];
                    intents.push(
                        if act == Act::Heal {
                            CombatIntent::Heal { target: t.pos, id: t.id }
                        } else {
                            CombatIntent::RangedHeal { target: t.pos, id: t.id }
                        },
                    );
                    let gain: i64 = match offers[i] {
                        Some(v) => v,
                        None => 0,
                    };
                    gain
                },
                None => 0,
            }
        },
        _ => {
            let offers = strike_values(m, tile, act, dmg, res, g_us);
            proof {
                law_first_of_the_greatest(offers_of(offers@));
            }
            match pick(&offers) {
                Some(i) => {
                    assert(offers_of(offers@)[i as int] is Some);
                    apply_dmg(act, i, dmg, res, m.power_of(act), intents);
                    let gain: i64 = match offers[i] {
                        Some(v) => v,
                        None => 0,
                    };
                    gain
                },
                None => 0,
            }
        },
    }
}

/// Lowers what is left of the target by the power of the action, and gives the order.
fn apply_dmg(
    act: Act,
    i: usize,
    dmg: &Vec<DamageTarget>,
    res: &mut Vec<i64>,
    power: i64,
    intents: &mut Vec<CombatIntent>,
)
    requires
        i < dmg@.len(),
        old(res)@.len() == dmg@.len(),
        old(res)@[i as int] > 0,
        0 <= power,
    ensures
        final(res)@ == old(res)@.update(
            i as int,
            (old(res)@[i as int] - crate::fixed::min_of(power as int, old(res)@[i as int] as int))
                as i64,
        ),
        final(intents)@ == old(intents)@.push(order_on(act, dmg@[i as int])),
{
    let left: i64 = res[i];
    res[i] = left - if power < left {
        power
    } else {
        left
    };
    let t = &dmg[i];
    intents.push(
        match act {
            Act::Ranged => CombatIntent::RangedAttack { target: t.pos, id: t.id },
            Act::Dismantle => CombatIntent::Dismantle { target: t.pos, id: t.id },
            Act::Declaim => CombatIntent::Attack { target: t.pos, id: None },
            _ => CombatIntent::Attack { target: t.pos, id: t.id },
        },
    );
}

/// What an action is worth adds to what was gained before, and nothing else depends on that.
proof fn lemma_gains_add(
    m: EvMember,
    tile: Position,
    act: Act,
    dmg: Seq<DamageTarget>,
    heals: Seq<HealTarget>,
    g_us: int,
    so_far: Outcome,
)
    requires
        i64::MIN <= so_far.value <= i64::MAX,
        so_far.res.len() == dmg.len(),
        so_far.need.len() == heals.len(),
    ensures
        ({
            let alone = with_act(m, tile, act, dmg, heals, g_us, Outcome { value: 0, ..so_far });
            with_act(m, tile, act, dmg, heals, g_us, so_far) == (Outcome {
                value: crate::fixed::nearest_i64(so_far.value + alone.value),
                ..alone
            })
        }),
{
    let fresh = Outcome { value: 0, ..so_far };
    match act {
        Act::Rma => {
            lemma_sweep_fits(m, tile, dmg, so_far.res, dmg.len() as int);
        },
        Act::Heal | Act::RangedHeal => {
            law_first_of_the_greatest(mends(m, tile, act, heals, so_far.need, g_us));
        },
        _ => {
            law_first_of_the_greatest(strikes(m, tile, act, dmg, so_far.res, g_us));
        },
    }
    let alone = with_act(m, tile, act, dmg, heals, g_us, fresh);
    let both = with_act(m, tile, act, dmg, heals, g_us, so_far);
    assert(both.res =~= alone.res);
    assert(both.need =~= alone.need);
    assert(both.intents =~= alone.intents);
}

/// What a sweep is worth is a number of 64 bits.
proof fn lemma_sweep_fits(
    m: EvMember,
    tile: Position,
    dmg: Seq<DamageTarget>,
    res: Seq<i64>,
    n: int,
)
    ensures
        i64::MIN <= sweep(m, tile, dmg, res, n) <= i64::MAX,
{
}

/// The entries, copied.
fn copy_of(entries: &Vec<i64>) -> (copy: Vec<i64>)
    ensures
        copy@ == entries@,
{
    let mut copy: Vec<i64> = Vec::new();
    let mut i: usize = 0;
    while i < entries.len()
        invariant
            i <= entries@.len(),
            copy@ =~= entries@.take(i as int),
        decreases entries@.len() - i,
    {
        copy.push(entries[i]);
        i = i + 1;
    }
    assert(copy@ =~= entries@);
    copy
}

/// Does the actions of the set one after the other; returns what they are worth and the orders, and
/// leaves in `res` and `need` what they leave.
fn apply_set(
    m: &EvMember,
    tile: Position,
    set: &Vec<Act>,
    dmg: &Vec<DamageTarget>,
    heals: &Vec<HealTarget>,
    res: &mut Vec<i64>,
    need: &mut Vec<i64>,
    g_us: i64,
) -> (done: (i64, Vec<CombatIntent>))
    requires
        tile.wf(),
        all_placed(dmg@),
        all_standing(heals@),
        old(res)@.len() == dmg@.len(),
        old(need)@.len() == heals@.len(),
    ensures
        (Outcome { value: done.0 as int, res: final(res)@, need: final(need)@, intents: done.1@ })
            == with_set(
            *m,
            tile,
            set@,
            dmg@,
            heals@,
            g_us as int,
            Outcome { value: 0, res: old(res)@, need: old(need)@, intents: Seq::empty() },
        ),
        final(res)@.len() == dmg@.len(),
        final(need)@.len() == heals@.len(),
{
    let ghost before = Outcome { value: 0, res: res@, need: need@, intents: Seq::empty() };
    let mut value: i64 = 0;
    let mut intents: Vec<CombatIntent> = Vec::new();
    let mut i: usize = 0;
    assert(set@.take(0) =~= Seq::empty());
    while i < set.len()
        invariant
            tile.wf(),
            all_placed(dmg@),
            all_standing(heals@),
            res@.len() == dmg@.len(),
            need@.len() == heals@.len(),
            i <= set@.len(),
            (Outcome { value: value as int, res: res@, need: need@, intents: intents@ }) == with_set(
                *m,
                tile,
                set@.take(i as int),
                dmg@,
                heals@,
                g_us as int,
                before,
            ),
        decreases set@.len() - i,
    {
        proof {
            let so_far = Outcome { value: value as int, res: res@, need: need@, intents: intents@ };
            lemma_gains_add(*m, tile, set@[i as int], dmg@, heals@, g_us as int, so_far);
            assert(set@.take(i + 1).drop_last() =~= set@.take(i as int));
            assert(set@.take(i + 1).last() == set@[i as int]);
        }
        let gain: i64 = apply_act(m, tile, set[i], dmg, heals, res, need, g_us, &mut intents);
        value = plus(value, gain);
        i = i + 1;
    }
    assert(set@.take(i as int) =~= set@);
    (value, intents)
}

/// Chooses the set of the menu that is worth most from `tile`; returns what it is worth and the
/// orders, and leaves in `res` and `need` what it leaves.
fn score_best_set(
    m: &EvMember,
    tile: Position,
    dmg: &Vec<DamageTarget>,
    heals: &Vec<HealTarget>,
    res: &mut Vec<i64>,
    need: &mut Vec<i64>,
    g_us: i64,
) -> (best: (i64, Vec<CombatIntent>))
    requires
        tile.wf(),
        all_placed(dmg@),
        all_standing(heals@),
        old(res)@ == untouched(dmg@, heals@).res,
        old(need)@ == untouched(dmg@, heals@).need,
    ensures
        (Outcome { value: best.0 as int, res: final(res)@, need: final(need)@, intents: best.1@ })
            == best_outcome(*m, tile, dmg@, heals@, g_us as int),
        final(res)@.len() == dmg@.len(),
        final(need)@.len() == heals@.len(),
{
    let ghost before = untouched(dmg@, heals@);
    let ghost values = menu_values(*m, tile, dmg@, heals@, g_us as int);
    let sets = enumerate_legal_sets(m.caps);
    proof {
        law_menu_is_legal(m.caps);
        assert(contents(sets@).len() == sets@.len());
        assert(contents(sets@)[0] == sets@[0]@);
    }
    let mut best_res = copy_of(res);
    let mut best_need = copy_of(need);
    let (first, mut best_intents) = apply_set(
        m,
        tile,
        &sets[0],
        dmg,
        heals,
        &mut best_res,
        &mut best_need,
        g_us,
    );
    let mut top: i64 = first;
    let ghost mut chosen: int = 0;
    let mut i: usize = 1;
    proof {
        assert(values.take(1).drop_last() =~= Seq::empty());
        assert(values.take(1).last() == values[0]);
        reveal_with_fuel(best_of, 2);
    }
    while i < sets.len()
        invariant
            tile.wf(),
            all_placed(dmg@),
            all_standing(heals@),
            contents(sets@) == m.caps.menu(),
            before == untouched(dmg@, heals@),
            values == menu_values(*m, tile, dmg@, heals@, g_us as int),
            res@ == before.res,
            need@ == before.need,
            1 <= i <= sets@.len(),
            0 <= chosen < i,
            best_of(values.take(i as int)) == Some(chosen),
            values[chosen] == Some(top as int),
            (Outcome {
                value: top as int,
                res: best_res@,
                need: best_need@,
                intents: best_intents@,
            }) == with_set(
                *m,
                tile,
                m.caps.menu()[chosen],
                dmg@,
                heals@,
                g_us as int,
                before,
            ),
            best_res@.len() == dmg@.len(),
            best_need@.len() == heals@.len(),
        decreases sets@.len() - i,
    {
        let mut set_res = copy_of(res);
        let mut set_need = copy_of(need);
        assert(contents(sets@)[i as int] == sets@[i as int]@);
        let (value, intents) = apply_set(
            m,
            tile,
            &sets[i],
            dmg,
            heals,
            &mut set_res,
            &mut set_need,
            g_us,
        );
        proof {
            let seen = values.take(i + 1);
            assert(seen.drop_last() =~= values.take(i as int));
            assert(seen.last() == values[i as int]);
        }
        if value > top {
            top = value;
            best_intents = intents;
            best_res = set_res;
            best_need = set_need;
            proof {
                chosen = i as int;
            }
        }
        i = i + 1;
    }
    assert(values.take(i as int) =~= values);
    *res = best_res;
    *need = best_need;
    (top, best_intents)
}

/// What is left to remove of each target.
fn residuals_of(dmg: &Vec<DamageTarget>) -> (res: Vec<i64>)
    ensures
        res@ == Seq::new(dmg@.len(), |i: int| dmg@[i].residual),
{
    let mut res: Vec<i64> = Vec::new();
    let mut i: usize = 0;
    while i < dmg.len()
        invariant
            i <= dmg@.len(),
            res@ =~= Seq::new(i as nat, |k: int| dmg@[k].residual),
        decreases dmg@.len() - i,
    {
        res.push(dmg[i].residual);
        i = i + 1;
    }
    res
}

/// What each target needs.
fn needs_of(heals: &Vec<HealTarget>) -> (need: Vec<i64>)
    ensures
        need@ == Seq::new(heals@.len(), |i: int| heals@[i].need),
{
    let mut need: Vec<i64> = Vec::new();
    let mut i: usize = 0;
    while i < heals.len()
        invariant
            i <= heals@.len(),
            need@ =~= Seq::new(i as nat, |k: int| heals@[k].need),
        decreases heals@.len() - i,
    {
        need.push(heals[i].need);
        i = i + 1;
    }
    need
}

/// What the member's best set of actions from `tile` is worth.
fn best_action_value(
    m: &EvMember,
    tile: Position,
    dmg: &Vec<DamageTarget>,
    heals: &Vec<HealTarget>,
    g_us: i64,
) -> (value: i64)
    requires
        tile.wf(),
        all_placed(dmg@),
        all_standing(heals@),
    ensures
        value == best_outcome(*m, tile, dmg@, heals@, g_us as int).value,
{
    let mut res = residuals_of(dmg);
    let mut need = needs_of(heals);
    score_best_set(m, tile, dmg, heals, &mut res, &mut need, g_us).0
}

/// The targets with what is left of each.
pub open spec fn drained(dmg: Seq<DamageTarget>, res: Seq<i64>) -> Seq<DamageTarget> {
    Seq::new(dmg.len(), |i: int| DamageTarget { residual: res[i], ..dmg[i] })
}

/// The targets with what each still needs.
pub open spec fn tended(heals: Seq<HealTarget>, need: Seq<i64>) -> Seq<HealTarget> {
    Seq::new(heals.len(), |i: int| HealTarget { need: need[i], ..heals[i] })
}

/// Has the member do its best set of actions from `tile`; returns what it is worth and the orders,
/// and leaves in the ledgers what it leaves.
fn best_action(
    m: &EvMember,
    tile: Position,
    dmg: &mut Vec<DamageTarget>,
    heals: &mut Vec<HealTarget>,
    g_us: i64,
) -> (best: (i64, Vec<CombatIntent>))
    requires
        tile.wf(),
        all_placed(old(dmg)@),
        all_standing(old(heals)@),
    ensures
        ({
            let out = best_outcome(*m, tile, old(dmg)@, old(heals)@, g_us as int);
            &&& best.0 == out.value
            &&& best.1@ == out.intents
            &&& final(dmg)@ == drained(old(dmg)@, out.res)
            &&& final(heals)@ == tended(old(heals)@, out.need)
        }),
{
    let mut res = residuals_of(dmg);
    let mut need = needs_of(heals);
    let best = score_best_set(m, tile, dmg, heals, &mut res, &mut need, g_us);
    let ghost targets = dmg@;
    let ghost allies = heals@;
    let mut i: usize = 0;
    while i < dmg.len()
        invariant
            i <= dmg@.len(),
            dmg@.len() == targets.len(),
            res@.len() == targets.len(),
            forall|k: int|
                0 <= k < dmg@.len() ==> #[trigger] dmg@[k] == if k < i {
                    (DamageTarget { residual: res@[k], ..targets[k] })
                } else {
                    targets[k]
                },
        decreases dmg@.len() - i,
    {
        let t: DamageTarget = dmg[i];
        dmg[i] = DamageTarget { residual: res[i], ..t };
        i = i + 1;
    }
    assert(dmg@ =~= drained(targets, res@));
    let mut j: usize = 0;
    while j < heals.len()
        invariant
            j <= heals@.len(),
            heals@.len() == allies.len(),
            need@.len() == allies.len(),
            forall|k: int|
                0 <= k < heals@.len() ==> #[trigger] heals@[k] == if k < j {
                    (HealTarget { need: need@[k], ..allies[k] })
                } else {
                    allies[k]
                },
        decreases heals@.len() - j,
    {
        let t: HealTarget = heals[j];
        heals[j] = HealTarget { need: need[j], ..t };
        j = j + 1;
    }
    assert(heals@ =~= tended(allies, need@));
    best
}

// ---------------------------------------------------------------------------------------------
// Where to go.
// ---------------------------------------------------------------------------------------------

/// What shapes the choice of a tile besides what can be done from it. Each weight is a multiple of
/// what a unit of strength is worth.
#[derive(Clone, Copy, Debug, PartialEq, Eq, Structural)]
pub struct KernelParams {
    /// The pull towards the objective, per tile of the way.
    pub approach_coef: i64,
    /// What holds a member on a tile that it can fire from.
    pub incumbency_coef: i64,
    /// The pull towards the middle of the squad, per tile beyond `cohesion_k`.
    pub discohesion_coef: i64,
    pub cohesion_k: u32,
    /// What keeps a member from crowding another.
    pub spacing_coef: i64,
}

impl Default for KernelParams {
    fn default() -> (p: Self)
        ensures
            p == (KernelParams {
                approach_coef: 2,
                incumbency_coef: 3,
                discohesion_coef: 10,
                cohesion_k: 3,
                spacing_coef: 1,
            }),
    {
        KernelParams {
            approach_coef: 2,
            incumbency_coef: 3,
            discohesion_coef: 10,
            cohesion_k: 3,
            spacing_coef: 1,
        }
    }
}

/// Members closer than this crowd each other.
pub const SPACING_R: u32 = 1;

/// What it costs to stand where the member dies.
pub const LETHAL: i64 = 1_000_000_000_000_000;

/// The ticks that a member has to survive.
pub const SURVIVAL_HORIZON: i64 = 3;

/// The way that a tile without a known distance counts for.
pub const FARTHEST: u32 = 10_000;

/// Stands for a tile in a map of distances.
pub open spec fn key_of(x: int, y: int) -> u16 {
    (x * 50 + y) as u16
}

/// Stands for the tile at column `x` and row `y` of a room in a map of distances.
pub fn tile_key(x: u8, y: u8) -> (key: u16)
    requires
        x < 50,
        y < 50,
    ensures
        key == key_of(x as int, y as int),
        key == x * 50 + y,
{
    x as u16 * 50 + y as u16
}

/// What the members of a squad choose their tiles by.
pub struct Scene<'a> {
    pub centroid: Position,
    pub g_us: i64,
    /// What a unit of strength is worth, on average of both sides.
    pub unit: i64,
    pub threat_field: &'a ThreatField,
    /// What the squad can heal per tick.
    pub squad_heal: u32,
    pub matrix: &'a LocalCostMatrix,
    pub dist_to_target: &'a HashMap<u16, u32>,
    pub params: &'a KernelParams,
}

impl<'a> Scene<'a> {
    /// The middle of the squad is on a tile, and the threat is known for each.
    pub open spec fn wf(&self) -> bool {
        self.centroid.wf() && self.threat_field.wf()
    }

    /// A creep can step on the tile.
    pub open spec fn is_open(&self, x: int, y: int) -> bool {
        &&& 0 <= x < 50
        &&& 0 <= y < 50
        &&& crate::geometry::tile_costs(*self.matrix)[(x, y)] != u8::MAX
    }

    /// The damage at a tile that the squad cannot heal.
    pub open spec fn net_damage(&self, tile: Position) -> int {
        crate::fixed::max_of(self.threat_field.raw(tile) - self.squad_heal, 0)
    }

    /// The tiles from here to the objective.
    pub open spec fn way(&self, tile: Position) -> int {
        let key = key_of(tile.x as int, tile.y as int);
        if self.dist_to_target@.contains_key(key) {
            crate::fixed::min_of(self.dist_to_target@[key] as int, FARTHEST as int)
        } else {
            FARTHEST as int
        }
    }

    /// The damage kills the member within the horizon.
    pub open spec fn is_lethal(&self, m: EvMember, tile: Position) -> bool {
        &&& m.hits > 0
        &&& self.net_damage(tile) > 0
        &&& self.net_damage(tile) * SURVIVAL_HORIZON > m.hits
    }

    /// What the tile is worth to the member, survival apart: what it can do from there, less the damage
    /// that it takes, the way that is left, its distance from the squad and the crowd, and more where
    /// it already fires from there.
    pub open spec fn appeal(
        &self,
        m: EvMember,
        tile: Position,
        dmg: Seq<DamageTarget>,
        heals: Seq<HealTarget>,
        claimed: Seq<Position>,
    ) -> int {
        let p = *self.params;
        let acting = crate::fixed::nearest_i64(
            best_outcome(m, tile, dmg, heals, self.g_us as int).value - crate::fixed::nearest_i64(
                self.g_us * self.net_damage(tile),
            ),
        );
        let nearing = crate::fixed::nearest_i64(
            acting - weighed(self.unit as int, p.approach_coef as int, self.way(tile)),
        );
        let apart = crate::geometry::chebyshev(self.centroid, tile) - p.cohesion_k;
        let keeping = if apart > 0 {
            crate::fixed::nearest_i64(
                nearing - weighed(self.unit as int, p.discohesion_coef as int, apart),
            )
        } else {
            nearing
        };
        let spreading = if is_crowded(tile, claimed) {
            crate::fixed::nearest_i64(
                keeping - crate::fixed::nearest_i64(self.unit * p.spacing_coef),
            )
        } else {
            keeping
        };
        if tile == m.pos && can_fire(m, tile, dmg) {
            crate::fixed::nearest_i64(
                spreading + crate::fixed::nearest_i64(self.unit * p.incumbency_coef),
            )
        } else {
            spreading
        }
    }

    /// What the tile is worth to the member.
    pub open spec fn worth(
        &self,
        m: EvMember,
        tile: Position,
        dmg: Seq<DamageTarget>,
        heals: Seq<HealTarget>,
        claimed: Seq<Position>,
    ) -> int {
        let appeal = self.appeal(m, tile, dmg, heals, claimed);
        if self.is_lethal(m, tile) {
            crate::fixed::nearest_i64(appeal - LETHAL)
        } else {
            appeal
        }
    }

    /// The tile of the squad's room that is `i`th around the member, column by column.
    pub open spec fn around(&self, m: EvMember, i: int) -> Position {
        Position {
            room: self.centroid.room,
            x: (m.pos.x + i / 3 - 1) as u8,
            y: (m.pos.y + i % 3 - 1) as u8,
        }
    }

    /// What each of the nine tiles around the member is worth; nothing is offered for a tile that it
    /// cannot step on.
    pub open spec fn tile_worths(
        &self,
        m: EvMember,
        dmg: Seq<DamageTarget>,
        heals: Seq<HealTarget>,
        claimed: Seq<Position>,
    ) -> Seq<Option<int>> {
        Seq::new(
            9,
            |i: int|
                if self.is_open(m.pos.x + i / 3 - 1, m.pos.y + i % 3 - 1) {
                    Some(self.worth(m, self.around(m, i), dmg, heals, claimed))
                } else {
                    None
                },
        )
    }

    /// The tile that the member goes to: of those that are worth most, the one in the lowest column,
    /// and there in the lowest row.
    pub open spec fn goal(
        &self,
        m: EvMember,
        dmg: Seq<DamageTarget>,
        heals: Seq<HealTarget>,
        claimed: Seq<Position>,
    ) -> Option<Position> {
        match best_of(self.tile_worths(m, dmg, heals, claimed)) {
            Some(i) => Some(self.around(m, i)),
            None => None,
        }
    }
}

/// A weight times what a unit of strength is worth, for each step.
pub open spec fn weighed(unit: int, weight: int, steps: int) -> int {
    crate::fixed::nearest_i64(crate::fixed::nearest_i64(unit * weight) * steps)
}

/// Another member has claimed a tile next to this one.
pub open spec fn is_crowded(tile: Position, claimed: Seq<Position>) -> bool {
    exists|k: int|
        0 <= k < claimed.len() && crate::geometry::chebyshev(tile, #[trigger] claimed[k])
            <= SPACING_R && claimed[k] != tile
}

/// The member reaches the target from `tile` with something that does damage.
pub open spec fn reaches(m: EvMember, tile: Position, t: DamageTarget) -> bool {
    let range = crate::geometry::chebyshev(tile, t.pos);
    ||| (m.caps.melee || m.caps.dismantle || m.caps.claim) && range <= 1
    ||| m.caps.ranged && range <= 3
}

/// It reaches one of the targets.
pub open spec fn can_fire(m: EvMember, tile: Position, dmg: Seq<DamageTarget>) -> bool {
    exists|k: int| 0 <= k < dmg.len() && reaches(m, tile, #[trigger] dmg[k])
}

/// Whether the member could damage a target from `tile`.
fn offense_reachable(m: &EvMember, tile: Position, dmg: &Vec<DamageTarget>) -> (yes: bool)
    requires
        tile.wf(),
        all_placed(dmg@),
    ensures
        yes == can_fire(*m, tile, dmg@),
{
    let close = m.caps.melee || m.caps.dismantle || m.caps.claim;
    let mut i: usize = 0;
    while i < dmg.len()
        invariant
            tile.wf(),
            all_placed(dmg@),
            close == (m.caps.melee || m.caps.dismantle || m.caps.claim),
            i <= dmg@.len(),
            forall|k: int| 0 <= k < i ==> !reaches(*m, tile, #[trigger] dmg@[k]),
        decreases dmg@.len() - i,
    {
        let range: u32 = range_between(tile, dmg[i].pos);
        if (close && range <= 1) || (m.caps.ranged && range <= 3) {
            assert(reaches(*m, tile, dmg@[i as int]));
            return true;
        }
        i = i + 1;
    }
    false
}

/// Whether another member has claimed a tile next to this one.
fn crowded(tile: Position, claimed: &Vec<Position>) -> (yes: bool)
    requires
        tile.wf(),
        forall|k: int| 0 <= k < claimed@.len() ==> (#[trigger] claimed@[k]).wf(),
    ensures
        yes == is_crowded(tile, claimed@),
{
    let mut i: usize = 0;
    while i < claimed.len()
        invariant
            tile.wf(),
            forall|k: int| 0 <= k < claimed@.len() ==> (#[trigger] claimed@[k]).wf(),
            i <= claimed@.len(),
            forall|k: int|
                0 <= k < i ==> crate::geometry::chebyshev(tile, #[trigger] claimed@[k]) > SPACING_R
                    || claimed@[k] == tile,
        decreases claimed@.len() - i,
    {
        if range_between(tile, claimed[i]) <= SPACING_R && claimed[i] != tile {
            assert(claimed@[i as int] != tile);
            return true;
        }
        i = i + 1;
    }
    false
}

impl<'a> Scene<'a> {
    /// [`Scene::worth`], computed.
    fn value_of(
        &self,
        m: &EvMember,
        tile: Position,
        dmg: &Vec<DamageTarget>,
        heals: &Vec<HealTarget>,
        claimed: &Vec<Position>,
    ) -> (value: i64)
        requires
            self.wf(),
            tile.wf(),
            all_placed(dmg@),
            all_standing(heals@),
            forall|k: int| 0 <= k < claimed@.len() ==> (#[trigger] claimed@[k]).wf(),
        ensures
            value == self.worth(*m, tile, dmg@, heals@, claimed@),
    {
        broadcast use vstd::std_specs::hash::group_hash_axioms;

        let action: i64 = best_action_value(m, tile, dmg, heals, self.g_us);
        let raw: i64 = self.threat_field.raw_at(tile) as i64 - self.squad_heal as i64;
        let net: i64 = if raw > 0 {
            raw
        } else {
            0
        };
        let key: u16 = tile_key(tile.x, tile.y);
        let known: u32 = match self.dist_to_target.get(&key) {
            Some(d) => *d,
            None => u32::MAX,
        };
        let way: i64 = if known < FARTHEST {
            known as i64
        } else {
            FARTHEST as i64
        };
        let p = self.params;
        let mut value: i64 = minus(action, times(self.g_us, net));
        value = minus(value, times(times(self.unit, p.approach_coef), way));
        let apart: i64 = range_between(self.centroid, tile) as i64 - p.cohesion_k as i64;
        if apart > 0 {
            value = minus(value, times(times(self.unit, p.discohesion_coef), apart));
        }
        if crowded(tile, claimed) {
            value = minus(value, times(self.unit, p.spacing_coef));
        }
        if tile == m.pos && offense_reachable(m, tile, dmg) {
            value = plus(value, times(self.unit, p.incumbency_coef));
        }
        let horizon: i64 = SURVIVAL_HORIZON;
        assert(net * horizon == net * 3);
        if m.hits > 0 && net > 0 && net * horizon > m.hits as i64 {
            value = minus(value, LETHAL);
        }
        value
    }

    /// Chooses the tile that the member goes to: the tile next to it, or its own, that is worth most.
    fn best_tile(
        &self,
        m: &EvMember,
        dmg: &Vec<DamageTarget>,
        heals: &Vec<HealTarget>,
        claimed: &Vec<Position>,
    ) -> (goal: Option<Position>)
        requires
            self.wf(),
            m.wf(),
            all_placed(dmg@),
            all_standing(heals@),
            forall|k: int| 0 <= k < claimed@.len() ==> (#[trigger] claimed@[k]).wf(),
        ensures
            goal == self.goal(*m, dmg@, heals@, claimed@),
            goal is Some ==> goal->0.wf(),
    {
        let ghost worths = self.tile_worths(*m, dmg@, heals@, claimed@);
        let mut values: Vec<Option<i64>> = Vec::new();
        let mut i: usize = 0;
        while i < 9
            invariant
                self.wf(),
                m.wf(),
                all_placed(dmg@),
                all_standing(heals@),
                forall|k: int| 0 <= k < claimed@.len() ==> (#[trigger] claimed@[k]).wf(),
                worths == self.tile_worths(*m, dmg@, heals@, claimed@),
                i <= 9,
                values@.len() == i,
                forall|j: int| 0 <= j < i ==> offers_of(values@)[j] == #[trigger] worths[j],
            decreases 9 - i,
        {
            let ghost before = values@;
            let x: i64 = m.pos.x as i64 + (i / 3) as i64 - 1;
            let y: i64 = m.pos.y as i64 + (i % 3) as i64 - 1;
            let mut offer: Option<i64> = None;
            if 0 <= x && x < 50 && 0 <= y && y < 50 {
                if tile_cost(self.matrix, x as u8, y as u8) != u8::MAX {
                    let tile = Position { room: self.centroid.room, x: x as u8, y: y as u8 };
                    assert(tile == self.around(*m, i as int));
                    offer = Some(self.value_of(m, tile, dmg, heals, claimed));
                }
            }
            values.push(offer);
            assert forall|j: int| 0 <= j < i + 1 implies offers_of(values@)[j] == #[trigger] worths[j] by {
                if j < i {
                    assert(offers_of(values@)[j] == offers_of(before)[j]);
                }
            }
            i = i + 1;
        }
        assert(offers_of(values@) =~= worths);
        proof {
            law_first_of_the_greatest(worths);
        }
        match pick(&values) {
            Some(k) => {
                assert(worths[k as int] is Some);
                let x: i64 = m.pos.x as i64 + (k / 3) as i64 - 1;
                let y: i64 = m.pos.y as i64 + (k % 3) as i64 - 1;
                let tile = Position { room: self.centroid.room, x: x as u8, y: y as u8 };
                assert(tile == self.around(*m, k as int));
                Some(tile)
            },
            None => None,
        }
    }
}

// ---------------------------------------------------------------------------------------------
// The squad.
// ---------------------------------------------------------------------------------------------

/// What the structure that the squad is set on is worth besides what it is.
pub const FOCUS_STRUCT_VALUE: i64 = 600;

/// How many times over that counts.
pub const FOCUS_STRUCT_BONUS: i64 = 4;

/// What razing a structure is worth for what it is.
pub open spec fn kind_value(kind: StructureKind) -> int {
    match kind {
        StructureKind::InvaderCore => 700,
        StructureKind::Tower => 600,
        StructureKind::Spawn => 500,
        StructureKind::Other => 0,
    }
}

/// What razing a structure is worth for what it is.
fn struct_kind_value(kind: StructureKind) -> (v: i64)
    ensures
        v == kind_value(kind),
        0 <= v <= 700,
{
    match kind {
        StructureKind::InvaderCore => 700,
        StructureKind::Tower => 600,
        StructureKind::Spawn => 500,
        StructureKind::Other => 0,
    }
}

/// The structure is what the squad is set on.
pub open spec fn is_focus(s: CombatStructureDto, focus: Option<FocusTarget>) -> bool {
    focus is Some && focus->0.id is None && focus->0.pos == s.pos
}

/// What razing the structure is worth; nothing unless it is the enemy's and stands.
pub open spec fn raze_value(s: CombatStructureDto, focus: Option<FocusTarget>) -> int {
    if s.ownership != Ownership::Hostile || s.hits == 0 {
        0
    } else if is_focus(s, focus) {
        (kind_value(s.structure_type) + FOCUS_STRUCT_VALUE) * FOCUS_STRUCT_BONUS
    } else {
        kind_value(s.structure_type)
    }
}

/// What each hit is worth of something worth `value` units of strength that takes `hits` of them.
pub open spec fn per_hit(value: int, hits: int, g_them: int) -> int {
    crate::fixed::max_of(crate::fixed::nearest_i64(g_them * value) / hits, 1)
}

/// The creep, as a target.
pub open spec fn creep_target(c: KillTarget, g_them: int) -> DamageTarget {
    let hits = crate::fixed::max_of(c.budget as int, 1);
    DamageTarget {
        pos: c.pos,
        id: c.id,
        residual: hits as i64,
        value_per_hit: per_hit(crate::fixed::max_of(c.threat_value as int, 1), hits, g_them) as i64,
        is_structure: false,
        attack_back: (c.attack_parts * ATTACK_POWER) as i64,
    }
}

/// The structure, as a target.
pub open spec fn structure_target(
    s: CombatStructureDto,
    focus: Option<FocusTarget>,
    g_them: int,
) -> DamageTarget {
    DamageTarget {
        pos: s.pos,
        id: None,
        residual: s.hits as i64,
        value_per_hit: per_hit(raze_value(s, focus), s.hits as int, g_them) as i64,
        is_structure: true,
        attack_back: 0,
    }
}

/// The structures that are worth razing, as targets.
pub open spec fn structure_targets(
    structures: Seq<CombatStructureDto>,
    focus: Option<FocusTarget>,
    g_them: int,
) -> Seq<DamageTarget>
    decreases structures.len(),
{
    if structures.len() == 0 {
        Seq::empty()
    } else {
        let rest = structure_targets(structures.drop_last(), focus, g_them);
        if raze_value(structures.last(), focus) > 0 {
            rest.push(structure_target(structures.last(), focus, g_them))
        } else {
            rest
        }
    }
}

/// All that the squad can damage: the creeps that it can kill, then the structures.
pub open spec fn damage_targets(
    creeps: Seq<KillTarget>,
    structures: Seq<CombatStructureDto>,
    focus: Option<FocusTarget>,
    g_them: int,
) -> Seq<DamageTarget> {
    Seq::new(creeps.len(), |i: int| creep_target(creeps[i], g_them)) + structure_targets(
        structures,
        focus,
        g_them,
    )
}

/// The damage that is coming to a member.
pub open spec fn incoming(m: EvMember, field: ThreatField) -> int {
    crate::fixed::max_of(field.raw(m.pos), 0)
}

/// The member, as one to heal: what it lacks and what is coming.
pub open spec fn heal_target(m: EvMember, field: ThreatField) -> HealTarget {
    HealTarget {
        pos: m.pos,
        id: m.id,
        need: (crate::fixed::max_of(m.hits_max - m.hits, 0) + incoming(m, field)) as i64,
        mortal: incoming(m, field) >= m.hits,
    }
}

/// The members that live, as ones to heal.
pub open spec fn heal_targets(members: Seq<EvMember>, field: ThreatField) -> Seq<HealTarget>
    decreases members.len(),
{
    if members.len() == 0 {
        Seq::empty()
    } else {
        let rest = heal_targets(members.drop_last(), field);
        if members.last().hits > 0 {
            rest.push(heal_target(members.last(), field))
        } else {
            rest
        }
    }
}

/// What the squad has decided: what is left to damage and to heal, the tiles that are claimed, and
/// what each member does.
#[verifier::ext_equal]
pub struct Plan {
    pub dmg: Seq<DamageTarget>,
    pub heals: Seq<HealTarget>,
    pub claimed: Seq<Position>,
    pub goals: Seq<Option<Position>>,
    pub orders: Seq<Seq<CombatIntent>>,
}

/// Nothing decided yet.
pub open spec fn no_plan(dmg: Seq<DamageTarget>, heals: Seq<HealTarget>) -> Plan {
    Plan { dmg, heals, claimed: Seq::empty(), goals: Seq::empty(), orders: Seq::empty() }
}

/// The plan, once the member has decided as well: it acts from the tile where it stands, and then goes
/// to the tile that is worth most with what that leaves.
pub open spec fn with_member(scene: Scene, m: EvMember, plan: Plan) -> Plan {
    let out = best_outcome(m, m.pos, plan.dmg, plan.heals, scene.g_us as int);
    let dmg = drained(plan.dmg, out.res);
    let heals = tended(plan.heals, out.need);
    let goal = scene.goal(m, dmg, heals, plan.claimed);
    Plan {
        dmg,
        heals,
        claimed: if goal is Some {
            plan.claimed.push(goal->0)
        } else {
            plan.claimed
        },
        goals: plan.goals.push(goal),
        orders: plan.orders.push(out.intents),
    }
}

/// The plan of the members, one after the other.
pub open spec fn planned(scene: Scene, members: Seq<EvMember>, start: Plan) -> Plan
    decreases members.len(),
{
    if members.len() == 0 {
        start
    } else {
        with_member(scene, members.last(), planned(scene, members.drop_last(), start))
    }
}

/// The creeps as targets.
fn creep_ledger(creeps: &[KillTarget], g_them: i64) -> (dmg: Vec<DamageTarget>)
    requires
        g_them >= 1,
        forall|i: int| 0 <= i < creeps@.len() ==> (#[trigger] creeps@[i]).pos.wf(),
    ensures
        dmg@ == Seq::new(creeps@.len(), |i: int| creep_target(creeps@[i], g_them as int)),
        all_placed(dmg@),
{
    let mut dmg: Vec<DamageTarget> = Vec::new();
    let mut i: usize = 0;
    while i < creeps.len()
        invariant
            g_them >= 1,
            forall|i: int| 0 <= i < creeps@.len() ==> (#[trigger] creeps@[i]).pos.wf(),
            i <= creeps@.len(),
            dmg@ =~= Seq::new(i as nat, |k: int| creep_target(creeps@[k], g_them as int)),
        decreases creeps@.len() - i,
    {
        let c = &creeps[i];
        let hits: i64 = if c.budget > 1 {
            c.budget as i64
        } else {
            1
        };
        let threat: i64 = if c.threat_value > 1 {
            c.threat_value as i64
        } else {
            1
        };
        let power: i64 = ATTACK_POWER as i64;
        assert(c.attack_parts * power == c.attack_parts * 30);
        dmg.push(
            DamageTarget {
                pos: c.pos,
                id: c.id,
                residual: hits,
                value_per_hit: value_per_hit(threat, hits, g_them),
                is_structure: false,
                attack_back: c.attack_parts as i64 * power,
            },
        );
        i = i + 1;
    }
    dmg
}

/// [`per_hit`], computed.
fn value_per_hit(value: i64, hits: i64, g_them: i64) -> (v: i64)
    requires
        1 <= value,
        1 <= hits,
        1 <= g_them,
    ensures
        v == per_hit(value as int, hits as int, g_them as int),
{
    assert(1 <= g_them * value) by (nonlinear_arith)
        requires
            1 <= value,
            1 <= g_them,
    ;
    let each: i64 = times(g_them, value) / hits;
    if each > 1 {
        each
    } else {
        1
    }
}

/// Appends the structures that are targets.
fn push_structures(
    dmg: &mut Vec<DamageTarget>,
    structures: &[CombatStructureDto],
    focus: Option<FocusTarget>,
    g_them: i64,
)
    requires
        g_them >= 1,
        forall|i: int| 0 <= i < structures@.len() ==> (#[trigger] structures@[i]).pos.wf(),
        all_placed(old(dmg)@),
    ensures
        final(dmg)@ == old(dmg)@ + structure_targets(structures@, focus, g_them as int),
        all_placed(final(dmg)@),
{
    let ghost before = dmg@;
    let mut i: usize = 0;
    assert(structures@.take(0) =~= Seq::empty());
    while i < structures.len()
        invariant
            g_them >= 1,
            forall|i: int| 0 <= i < structures@.len() ==> (#[trigger] structures@[i]).pos.wf(),
            i <= structures@.len(),
            dmg@ =~= before + structure_targets(
                structures@.take(i as int),
                focus,
                g_them as int,
            ),
            all_placed(dmg@),
        decreases structures@.len() - i,
    {
        let s = &structures[i];
        proof {
            let seen = structures@.take(i + 1);
            assert(seen.drop_last() =~= structures@.take(i as int));
            assert(seen.last() == structures@[i as int]);
        }
        if s.ownership == Ownership::Hostile && s.hits > 0 {
            let focused = match focus {
                Some(f) => f.id.is_none() && f.pos == s.pos,
                None => false,
            };
            let base: i64 = struct_kind_value(s.structure_type);
            let value: i64 = if focused {
                (base + FOCUS_STRUCT_VALUE) * FOCUS_STRUCT_BONUS
            } else {
                base
            };
            assert(value == raze_value(*s, focus));
            if value > 0 {
                let hits: i64 = s.hits as i64;
                dmg.push(
                    DamageTarget {
                        pos: s.pos,
                        id: None,
                        residual: hits,
                        value_per_hit: value_per_hit(value, hits, g_them),
                        is_structure: true,
                        attack_back: 0,
                    },
                );
            }
        }
        i = i + 1;
    }
    assert(structures@.take(i as int) =~= structures@);
}

/// The members as creeps to heal.
fn heal_ledger(members: &[EvMember], field: &ThreatField) -> (heals: Vec<HealTarget>)
    requires
        field.wf(),
        forall|i: int| 0 <= i < members@.len() ==> (#[trigger] members@[i]).wf(),
    ensures
        heals@ == heal_targets(members@, *field),
        all_standing(heals@),
{
    let mut heals: Vec<HealTarget> = Vec::new();
    let mut i: usize = 0;
    assert(members@.take(0) =~= Seq::empty());
    while i < members.len()
        invariant
            field.wf(),
            forall|i: int| 0 <= i < members@.len() ==> (#[trigger] members@[i]).wf(),
            i <= members@.len(),
            heals@ == heal_targets(members@.take(i as int), *field),
            all_standing(heals@),
        decreases members@.len() - i,
    {
        let m = &members[i];
        proof {
            let seen = members@.take(i + 1);
            assert(seen.drop_last() =~= members@.take(i as int));
            assert(seen.last() == members@[i as int]);
        }
        if m.hits > 0 {
            let raw: i64 = field.raw_at(m.pos) as i64;
            let coming: i64 = if raw > 0 {
                raw
            } else {
                0
            };
            let lack: i64 = if m.hits_max > m.hits {
                m.hits_max as i64 - m.hits as i64
            } else {
                0
            };
            heals.push(
                HealTarget {
                    pos: m.pos,
                    id: m.id,
                    need: lack + coming,
                    mortal: coming >= m.hits as i64,
                },
            );
        }
        i = i + 1;
    }
    assert(members@.take(i as int) =~= members@);
    heals
}

/// What a unit of strength is worth, on average of both sides.
pub open spec fn mean_worth(g_us: int, g_them: int) -> int {
    crate::fixed::max_of((g_us + g_them) / 2, 1)
}

/// What the results say of where the members go.
pub open spec fn goals_of(results: Seq<EvResult>) -> Seq<Option<Position>> {
    Seq::new(results.len(), |i: int| results[i].goal)
}

/// What the results say of what the members do.
pub open spec fn orders_of(results: Seq<EvResult>) -> Seq<Seq<CombatIntent>> {
    Seq::new(results.len(), |i: int| results[i].intents@)
}

/// Decides what each member of the squad does this tick and where it goes.
///
/// Each in turn does from the tile where it stands the set of actions that is worth most, against what
/// the members before it have left to damage and to heal; then it goes to the tile around it that is
/// worth most. `creeps` are the enemy creeps that the squad can kill; `dist_to_target` gives the way
/// from a tile to the objective, under [`tile_key`].
pub fn plan_squad_ev(
    members: &[EvMember],
    creeps: &[KillTarget],
    structures: &[CombatStructureDto],
    focus: Option<FocusTarget>,
    centroid: Position,
    our_strength: u64,
    enemy_strength: u64,
    mu: i64,
    threat_field: &ThreatField,
    squad_heal: u32,
    matrix: &LocalCostMatrix,
    dist_to_target: &HashMap<u16, u32>,
    params: &KernelParams,
) -> (results: Vec<EvResult>)
    requires
        forall|i: int| 0 <= i < members@.len() ==> (#[trigger] members@[i]).wf(),
        forall|i: int| 0 <= i < creeps@.len() ==> (#[trigger] creeps@[i]).pos.wf(),
        forall|i: int| 0 <= i < structures@.len() ==> (#[trigger] structures@[i]).pos.wf(),
        centroid.wf(),
        threat_field.wf(),
    ensures
        ({
            let g_us = worth_of_ours(our_strength as int, enemy_strength as int, mu as int);
            let g_them = worth_of_theirs(our_strength as int, enemy_strength as int, mu as int);
            let scene = Scene {
                centroid,
                g_us: g_us as i64,
                unit: mean_worth(g_us, g_them) as i64,
                threat_field,
                squad_heal,
                matrix,
                dist_to_target,
                params,
            };
            let plan = planned(
                scene,
                members@,
                no_plan(
                    damage_targets(creeps@, structures@, focus, g_them),
                    heal_targets(members@, *threat_field),
                ),
            );
            &&& goals_of(results@) == plan.goals
            &&& orders_of(results@) == plan.orders
        }),
        results@.len() == members@.len(),
{
    let s = sensitivities(our_strength, enemy_strength, mu);
    let half: i64 = (s.g_us + s.g_them) / 2;
    let unit: i64 = if half > 1 {
        half
    } else {
        1
    };
    let scene = Scene {
        centroid,
        g_us: s.g_us,
        unit,
        threat_field,
        squad_heal,
        matrix,
        dist_to_target,
        params,
    };
    let mut dmg = creep_ledger(creeps, s.g_them);
    push_structures(&mut dmg, structures, focus, s.g_them);
    let mut heals = heal_ledger(members, threat_field);
    let ghost start = no_plan(dmg@, heals@);
    let mut claimed: Vec<Position> = Vec::new();
    let mut results: Vec<EvResult> = Vec::new();
    let mut i: usize = 0;
    assert(members@.take(0) =~= Seq::empty());
    while i < members.len()
        invariant
            forall|i: int| 0 <= i < members@.len() ==> (#[trigger] members@[i]).wf(),
            scene.wf(),
            all_placed(dmg@),
            all_standing(heals@),
            forall|k: int| 0 <= k < claimed@.len() ==> (#[trigger] claimed@[k]).wf(),
            i <= members@.len(),
            results@.len() == i,
            ({
                let plan = planned(scene, members@.take(i as int), start);
                &&& plan.dmg == dmg@
                &&& plan.heals == heals@
                &&& plan.claimed == claimed@
                &&& plan.goals == goals_of(results@)
                &&& plan.orders == orders_of(results@)
            }),
        decreases members@.len() - i,
    {
        let m = &members[i];
        proof {
            let seen = members@.take(i + 1);
            assert(seen.drop_last() =~= members@.take(i as int));
            assert(seen.last() == members@[i as int]);
        }
        let (_, intents) = best_action(m, m.pos, &mut dmg, &mut heals, scene.g_us);
        let goal = scene.best_tile(m, &dmg, &heals, &claimed);
        if let Some(tile) = goal {
            claimed.push(tile);
        }
        let ghost before = results@;
        results.push(EvResult { goal, intents });
        assert(goals_of(results@) =~= goals_of(before).push(goal));
        assert(orders_of(results@) =~= orders_of(before).push(intents@));
        i = i + 1;
    }
    assert(members@.take(i as int) =~= members@);
    results
}

/// The damage that the squad can do to one target per tick, striking and shooting: what the choice
/// and the order of the creeps that it can kill go by.
pub fn squad_dps(members: &[EvMember]) -> (dps: u128)
    ensures
        dps == total_dps(members@),
{
    let mut dps: u128 = 0;
    let mut i: usize = 0;
    assert(members@.take(0) =~= Seq::empty());
    while i < members.len()
        invariant
            i <= members@.len(),
            dps == total_dps(members@.take(i as int)),
            dps <= i * 0x2_0000_0000,
        decreases members@.len() - i,
    {
        proof {
            let seen = members@.take(i + 1);
            assert(seen.drop_last() =~= members@.take(i as int));
            assert(seen.last() == members@[i as int]);
        }
        dps = dps + members[i].melee_power as u128 + members[i].ranged_power as u128;
        i = i + 1;
    }
    assert(members@.take(i as int) =~= members@);
    dps
}

/// The damage that the members can do to one target per tick.
pub open spec fn total_dps(members: Seq<EvMember>) -> int
    decreases members.len(),
{
    if members.len() == 0 {
        0
    } else {
        total_dps(members.drop_last()) + members.last().melee_power + members.last().ranged_power
    }
}

// ---------------------------------------------------------------------------------------------
// Laws of the squad's decision.
// ---------------------------------------------------------------------------------------------

/// What is left of each lies between nothing and what there was.
pub open spec fn only_drained(before: Seq<i64>, after: Seq<i64>) -> bool {
    &&& after.len() == before.len()
    &&& forall|i: int| 0 <= i < before.len() ==> 0 <= #[trigger] after[i] <= before[i]
}

/// Nothing of them is below zero.
pub open spec fn none_negative(entries: Seq<i64>) -> bool {
    forall|i: int| 0 <= i < entries.len() ==> #[trigger] entries[i] >= 0
}

/// An action takes from the ledgers no more than they hold.
proof fn lemma_act_drains(
    m: EvMember,
    tile: Position,
    act: Act,
    dmg: Seq<DamageTarget>,
    heals: Seq<HealTarget>,
    g_us: int,
    so_far: Outcome,
)
    requires
        so_far.res.len() == dmg.len(),
        so_far.need.len() == heals.len(),
        none_negative(so_far.res),
        none_negative(so_far.need),
    ensures
        only_drained(so_far.res, with_act(m, tile, act, dmg, heals, g_us, so_far).res),
        only_drained(so_far.need, with_act(m, tile, act, dmg, heals, g_us, so_far).need),
{
    match act {
        Act::Rma => {
            assert forall|i: int| 0 <= i < dmg.len() implies 0 <= #[trigger] swept(
                m,
                tile,
                dmg[i],
                so_far.res[i] as int,
            ) <= so_far.res[i] by {
                let f = falloff(crate::geometry::chebyshev(tile, dmg[i].pos));
                assert(0 <= m.ranged_power * f) by (nonlinear_arith)
                    requires
                        0 <= f,
                ;
            }
        },
        Act::Heal | Act::RangedHeal => {
            law_first_of_the_greatest(mends(m, tile, act, heals, so_far.need, g_us));
            assert(0 <= m.healing(act)) by {
                assert(0 <= m.heal_parts * 12 && 0 <= m.heal_parts * 4);
            }
        },
        _ => {
            law_first_of_the_greatest(strikes(m, tile, act, dmg, so_far.res, g_us));
        },
    }
}

/// A set of actions takes from the ledgers no more than they hold.
proof fn lemma_set_drains(
    m: EvMember,
    tile: Position,
    set: Seq<Act>,
    dmg: Seq<DamageTarget>,
    heals: Seq<HealTarget>,
    g_us: int,
    before: Outcome,
)
    requires
        before.res.len() == dmg.len(),
        before.need.len() == heals.len(),
        none_negative(before.res),
        none_negative(before.need),
    ensures
        only_drained(before.res, with_set(m, tile, set, dmg, heals, g_us, before).res),
        only_drained(before.need, with_set(m, tile, set, dmg, heals, g_us, before).need),
    decreases set.len(),
{
    if set.len() > 0 {
        lemma_set_drains(m, tile, set.drop_last(), dmg, heals, g_us, before);
        let so_far = with_set(m, tile, set.drop_last(), dmg, heals, g_us, before);
        lemma_act_drains(m, tile, set.last(), dmg, heals, g_us, so_far);
    }
}

/// What the targets have left.
pub open spec fn residuals(dmg: Seq<DamageTarget>) -> Seq<i64> {
    Seq::new(dmg.len(), |i: int| dmg[i].residual)
}

/// What the members need.
pub open spec fn needs(heals: Seq<HealTarget>) -> Seq<i64> {
    Seq::new(heals.len(), |i: int| heals[i].need)
}

/// Nothing is counted twice: what the squad deals to a target adds up to no more than there was to
/// remove, and what it heals of a member to no more than that needs.
pub proof fn law_squad_never_overspends(scene: Scene, members: Seq<EvMember>, start: Plan)
    requires
        none_negative(residuals(start.dmg)),
        none_negative(needs(start.heals)),
    ensures
        only_drained(residuals(start.dmg), residuals(planned(scene, members, start).dmg)),
        only_drained(needs(start.heals), needs(planned(scene, members, start).heals)),
    decreases members.len(),
{
    if members.len() > 0 {
        let rest = planned(scene, members.drop_last(), start);
        law_squad_never_overspends(scene, members.drop_last(), start);
        let m = members.last();
        let g_us = scene.g_us as int;
        law_menu_is_legal(m.caps);
        law_first_of_the_greatest(menu_values(m, m.pos, rest.dmg, rest.heals, g_us));
        let fresh = untouched(rest.dmg, rest.heals);
        assert(fresh.res =~= residuals(rest.dmg));
        assert(fresh.need =~= needs(rest.heals));
        lemma_set_drains(
            m,
            m.pos,
            best_set(m, m.pos, rest.dmg, rest.heals, g_us),
            rest.dmg,
            rest.heals,
            g_us,
            fresh,
        );
        let out = best_outcome(m, m.pos, rest.dmg, rest.heals, g_us);
        assert(residuals(drained(rest.dmg, out.res)) =~= out.res);
        assert(needs(tended(rest.heals, out.need)) =~= out.need);
    }
}

/// A member does what the game carries out; nothing else on its menu is worth more, and doing nothing
/// is never better.
pub proof fn law_best_set_is_legal_and_best(
    m: EvMember,
    tile: Position,
    dmg: Seq<DamageTarget>,
    heals: Seq<HealTarget>,
    g_us: int,
    i: int,
)
    requires
        0 <= i < m.caps.menu().len(),
    ensures
        is_legal(best_set(m, tile, dmg, heals, g_us)),
        m.caps.menu().contains(best_set(m, tile, dmg, heals, g_us)),
        best_outcome(m, tile, dmg, heals, g_us).value >= 0,
        best_outcome(m, tile, dmg, heals, g_us).value >= with_set(
            m,
            tile,
            m.caps.menu()[i],
            dmg,
            heals,
            g_us,
            untouched(dmg, heals),
        ).value,
{
    let values = menu_values(m, tile, dmg, heals, g_us);
    law_menu_is_legal(m.caps);
    law_first_of_the_greatest(values);
    assert(values[0] is Some);
    assert(values[i] is Some);
    let b = best_of(values)->0;
    assert(values[b]->0 >= values[0]->0);
    assert(values[b]->0 >= values[i]->0);
}

/// The order can be carried out from the tile.
pub open spec fn is_in_reach(tile: Position, order: CombatIntent) -> bool {
    match order {
        CombatIntent::Attack { target, .. } => crate::geometry::chebyshev(tile, target) <= 1,
        CombatIntent::RangedAttack { target, .. } => crate::geometry::chebyshev(tile, target) <= 3,
        CombatIntent::RangedMassAttack => true,
        CombatIntent::Heal { target, .. } => crate::geometry::chebyshev(tile, target) <= 1,
        CombatIntent::RangedHeal { target, .. } => 2 <= crate::geometry::chebyshev(tile, target) <= 3,
        CombatIntent::Dismantle { target, .. } => crate::geometry::chebyshev(tile, target) <= 1,
    }
}

/// Every order that comes of actions from a tile can be carried out from there.
pub proof fn law_orders_are_in_reach(
    m: EvMember,
    tile: Position,
    set: Seq<Act>,
    dmg: Seq<DamageTarget>,
    heals: Seq<HealTarget>,
    g_us: int,
)
    ensures
        forall|k: int|
            0 <= k < with_set(
                m,
                tile,
                set,
                dmg,
                heals,
                g_us,
                untouched(dmg, heals),
            ).intents.len() ==> is_in_reach(
                tile,
                #[trigger] with_set(
                    m,
                    tile,
                    set,
                    dmg,
                    heals,
                    g_us,
                    untouched(dmg, heals),
                ).intents[k],
            ),
    decreases set.len(),
{
    if set.len() > 0 {
        law_orders_are_in_reach(m, tile, set.drop_last(), dmg, heals, g_us);
        let so_far = with_set(
            m,
            tile,
            set.drop_last(),
            dmg,
            heals,
            g_us,
            untouched(dmg, heals),
        );
        let act = set.last();
        law_first_of_the_greatest(mends(m, tile, act, heals, so_far.need, g_us));
        law_first_of_the_greatest(strikes(m, tile, act, dmg, so_far.res, g_us));
        let after = with_act(m, tile, act, dmg, heals, g_us, so_far);
        assert forall|k: int| 0 <= k < after.intents.len() implies is_in_reach(
            tile,
            #[trigger] after.intents[k],
        ) by {
            if k < so_far.intents.len() {
                assert(after.intents[k] == so_far.intents[k]);
            }
        }
    }
}

/// A member goes to an open tile of the squad's room next to where it stands, or stays; no such tile
/// is worth more, and of those worth the same none lies in a lower column, or in the same column in a
/// lower row. It has nowhere to go only where no such tile is open.
pub proof fn law_goal_is_near_and_best(
    scene: Scene,
    m: EvMember,
    dmg: Seq<DamageTarget>,
    heals: Seq<HealTarget>,
    claimed: Seq<Position>,
    dx: int,
    dy: int,
)
    requires
        m.wf(),
        -1 <= dx <= 1,
        -1 <= dy <= 1,
        scene.is_open(m.pos.x + dx, m.pos.y + dy),
    ensures
        ({
            let goal = scene.goal(m, dmg, heals, claimed);
            let other = Position {
                room: scene.centroid.room,
                x: (m.pos.x + dx) as u8,
                y: (m.pos.y + dy) as u8,
            };
            let best = scene.worth(m, goal->0, dmg, heals, claimed);
            let rival = scene.worth(m, other, dmg, heals, claimed);
            &&& goal is Some
            &&& goal->0.room == scene.centroid.room
            &&& -1 <= goal->0.x - m.pos.x <= 1
            &&& -1 <= goal->0.y - m.pos.y <= 1
            &&& scene.is_open(goal->0.x as int, goal->0.y as int)
            &&& rival <= best
            &&& rival == best ==> goal->0.x < other.x || (goal->0.x == other.x && goal->0.y
                <= other.y)
        }),
{
    let worths = scene.tile_worths(m, dmg, heals, claimed);
    law_first_of_the_greatest(worths);
    let i = (dx + 1) * 3 + (dy + 1);
    assert(i / 3 == dx + 1 && i % 3 == dy + 1);
    assert(worths[i] is Some);
    let b = best_of(worths)->0;
    assert(worths[b] is Some);
    assert(worths[i]->0 <= worths[b]->0);
}

/// Where a member has a tile to go to on which it survives, it does not go to one on which it dies,
/// unless that one were worth more by what dying costs.
pub proof fn law_members_avoid_death(
    scene: Scene,
    m: EvMember,
    dmg: Seq<DamageTarget>,
    heals: Seq<HealTarget>,
    claimed: Seq<Position>,
    dx: int,
    dy: int,
)
    requires
        m.wf(),
        -1 <= dx <= 1,
        -1 <= dy <= 1,
        scene.is_open(m.pos.x + dx, m.pos.y + dy),
    ensures
        ({
            let goal = scene.goal(m, dmg, heals, claimed)->0;
            let safe = Position {
                room: scene.centroid.room,
                x: (m.pos.x + dx) as u8,
                y: (m.pos.y + dy) as u8,
            };
            let tempting = scene.appeal(m, goal, dmg, heals, claimed);
            let sound = scene.appeal(m, safe, dmg, heals, claimed);
            !scene.is_lethal(m, safe) && i64::MIN < sound && tempting - LETHAL < sound
                ==> !scene.is_lethal(m, goal)
        }),
{
    law_goal_is_near_and_best(scene, m, dmg, heals, claimed, dx, dy);
}

/// Each member gets a goal and orders.
pub proof fn law_each_member_is_told(scene: Scene, members: Seq<EvMember>, start: Plan)
    ensures
        planned(scene, members, start).goals.len() == start.goals.len() + members.len(),
        planned(scene, members, start).orders.len() == start.orders.len() + members.len(),
    decreases members.len(),
{
    if members.len() > 0 {
        law_each_member_is_told(scene, members.drop_last(), start);
    }
}

/// A target can be shot exactly where something of it is left and it stands within three tiles, along both
/// axes of the world; the shot is worth what each hit is, for as many as it takes off.
pub proof fn law_shots_reach_three_tiles(
    m: EvMember,
    tile: Position,
    t: DamageTarget,
    left: int,
    g_us: int,
)
    ensures
        ({
            let dx = 50 * (tile.room.x - t.pos.room.x) + tile.x - t.pos.x;
            let dy = 50 * (tile.room.y - t.pos.room.y) + tile.y - t.pos.y;
            let taken = if m.ranged_power <= left {
                m.ranged_power as int
            } else {
                left
            };
            let shot = strike(m, tile, Act::Ranged, t, left, g_us);
            &&& shot is Some <==> left > 0 && -3 <= dx <= 3 && -3 <= dy <= 3
            &&& shot is Some && i64::MIN <= taken * t.value_per_hit <= i64::MAX ==> shot->0 == taken
                * t.value_per_hit
        }),
{
}

/// What stands next to a member, with something left of it, can be struck; of structures, what can be taken
/// apart or is a controller likewise, and of creeps not. The blow is worth what each hit is, for as many as
/// it takes off; striking a creep costs what strikes back, weighed by the worth of our own strength.
pub proof fn law_blows_reach_the_next_tile(
    m: EvMember,
    tile: Position,
    act: Act,
    t: DamageTarget,
    left: int,
    g_us: int,
)
    requires
        act == Act::Melee || act == Act::Dismantle || act == Act::Declaim,
    ensures
        ({
            let dx = 50 * (tile.room.x - t.pos.room.x) + tile.x - t.pos.x;
            let dy = 50 * (tile.room.y - t.pos.room.y) + tile.y - t.pos.y;
            let power = if act == Act::Melee {
                m.melee_power as int
            } else if act == Act::Dismantle {
                m.dismantle_power as int
            } else {
                m.claim_power as int
            };
            let taken = if power <= left {
                power
            } else {
                left
            };
            let (gain, cost) = (taken * t.value_per_hit, g_us * t.attack_back);
            let blow = strike(m, tile, act, t, left, g_us);
            &&& blow is Some <==> {
                &&& left > 0
                &&& -1 <= dx <= 1 && -1 <= dy <= 1
                &&& act == Act::Melee || t.is_structure
            }
            &&& blow is Some && t.is_structure && i64::MIN <= gain <= i64::MAX ==> blow->0 == gain
            &&& blow is Some && !t.is_structure && i64::MIN <= gain <= i64::MAX && i64::MIN <= cost
                <= i64::MAX && i64::MIN <= gain - cost <= i64::MAX ==> blow->0 == gain - cost
        }),
{
}

/// A creep with something to restore can be healed from the next tile or its own, twelve hits for each HEAL,
/// and from two or three tiles away, four for each. It is worth our own strength for each hit that is
/// restored, and four times that where the creep would die.
pub proof fn law_healing_reaches_near_and_far(
    m: EvMember,
    tile: Position,
    t: HealTarget,
    left: int,
    g_us: int,
)
    ensures
        ({
            let dx = 50 * (tile.room.x - t.pos.room.x) + tile.x - t.pos.x;
            let dy = 50 * (tile.room.y - t.pos.room.y) + tile.y - t.pos.y;
            let next = -1 <= dx <= 1 && -1 <= dy <= 1;
            let near = -3 <= dx <= 3 && -3 <= dy <= 3;
            let full = if 12 * m.heal_parts <= left {
                12 * m.heal_parts
            } else {
                left
            };
            let part = if 4 * m.heal_parts <= left {
                4 * m.heal_parts
            } else {
                left
            };
            let weight = if t.mortal {
                4int
            } else {
                1
            };
            let (heal, afar) = (
                mend(m, tile, Act::Heal, t, left, g_us),
                mend(m, tile, Act::RangedHeal, t, left, g_us),
            );
            &&& heal is Some <==> left > 0 && next
            &&& afar is Some <==> left > 0 && near && !next
            &&& heal is Some && i64::MIN <= full * g_us <= i64::MAX && i64::MIN <= full * g_us * weight
                <= i64::MAX ==> heal->0 == full * g_us * weight
            &&& afar is Some && i64::MIN <= part * g_us <= i64::MAX && i64::MIN <= part * g_us * weight
                <= i64::MAX ==> afar->0 == part * g_us * weight
        }),
{
}

/// A mass attack takes the whole power off what stands within one tile, four tenths of it at two and one
/// tenth at three, as far as something is left, and nothing off what is farther away.
pub proof fn law_mass_attack_weakens_with_range(m: EvMember, tile: Position, t: DamageTarget, left: int)
    ensures
        ({
            let dx = 50 * (tile.room.x - t.pos.room.x) + tile.x - t.pos.x;
            let dy = 50 * (tile.room.y - t.pos.room.y) + tile.y - t.pos.y;
            let hits = swept(m, tile, t, left);
            let at_one = -1 <= dx <= 1 && -1 <= dy <= 1;
            let at_two = !at_one && -2 <= dx <= 2 && -2 <= dy <= 2;
            let at_three = !at_one && !at_two && -3 <= dx <= 3 && -3 <= dy <= 3;
            &&& left <= 0 || !(at_one || at_two || at_three) ==> hits == 0
            &&& left > 0 && at_one ==> (hits == m.ranged_power || hits == left) && hits <= m.ranged_power
                && hits <= left
            &&& left > 0 && at_two ==> hits <= left && 10 * hits <= 4 * m.ranged_power && (hits == left
                || 4 * m.ranged_power < 10 * (hits + 1))
            &&& left > 0 && at_three ==> hits <= left && 10 * hits <= m.ranged_power && (hits == left
                || m.ranged_power < 10 * (hits + 1))
        }),
{
}

/// A mass attack counts every target once: one more adds what its hits are worth.
pub proof fn law_mass_attack_adds_up(
    m: EvMember,
    tile: Position,
    dmg: Seq<DamageTarget>,
    res: Seq<i64>,
    n: int,
)
    requires
        0 <= n,
    ensures
        sweep(m, tile, dmg, res, 0) == 0,
        ({
            let more = swept(m, tile, dmg[n], res[n] as int) * dmg[n].value_per_hit;
            let sum = sweep(m, tile, dmg, res, n) + more;
            i64::MIN <= more <= i64::MAX && i64::MIN <= sum <= i64::MAX ==> sweep(
                m,
                tile,
                dmg,
                res,
                n + 1,
            ) == sum
        }),
{
}

/// What acts with a weapon takes the offer that is worth most, the first of such: the worth is added, the
/// hits are gone from that target and from no other, and the order names it.
pub proof fn law_a_weapon_takes_the_best_offer(
    m: EvMember,
    tile: Position,
    act: Act,
    dmg: Seq<DamageTarget>,
    heals: Seq<HealTarget>,
    g_us: int,
    so_far: Outcome,
    k: int,
)
    requires
        act == Act::Melee || act == Act::Ranged || act == Act::Dismantle || act == Act::Declaim,
        so_far.res.len() == dmg.len(),
        0 <= k < dmg.len(),
        strike(m, tile, act, dmg[k], so_far.res[k] as int, g_us) is Some,
        forall|j: int|
            0 <= j < dmg.len() && strike(m, tile, act, #[trigger] dmg[j], so_far.res[j] as int, g_us)
                is Some ==> strike(m, tile, act, dmg[j], so_far.res[j] as int, g_us)->0 <= strike(
                m,
                tile,
                act,
                dmg[k],
                so_far.res[k] as int,
                g_us,
            )->0,
        forall|j: int|
            0 <= j < k && strike(m, tile, act, #[trigger] dmg[j], so_far.res[j] as int, g_us) is Some
                ==> strike(m, tile, act, dmg[j], so_far.res[j] as int, g_us)->0 < strike(
                m,
                tile,
                act,
                dmg[k],
                so_far.res[k] as int,
                g_us,
            )->0,
    ensures
        ({
            let after = with_act(m, tile, act, dmg, heals, g_us, so_far);
            let power = match act {
                Act::Melee => m.melee_power as int,
                Act::Ranged => m.ranged_power as int,
                Act::Dismantle => m.dismantle_power as int,
                _ => m.claim_power as int,
            };
            let worth = strike(m, tile, act, dmg[k], so_far.res[k] as int, g_us)->0;
            let left = if power <= so_far.res[k] {
                so_far.res[k] - power
            } else {
                0
            };
            &&& i64::MIN <= so_far.value + worth <= i64::MAX ==> after.value == so_far.value + worth
            &&& after.need == so_far.need
            &&& after.res.len() == so_far.res.len()
            &&& after.res[k] == left
            &&& forall|j: int|
                0 <= j < dmg.len() && j != k ==> #[trigger] after.res[j] == so_far.res[j]
            &&& after.intents == so_far.intents.push(
                match act {
                    Act::Melee => CombatIntent::Attack { target: dmg[k].pos, id: dmg[k].id },
                    Act::Ranged => CombatIntent::RangedAttack { target: dmg[k].pos, id: dmg[k].id },
                    Act::Dismantle => CombatIntent::Dismantle { target: dmg[k].pos, id: dmg[k].id },
                    _ => CombatIntent::Attack { target: dmg[k].pos, id: None },
                },
            )
        }),
{
    let offers = strikes(m, tile, act, dmg, so_far.res, g_us);
    law_first_of_the_greatest(offers);
    let b = best_of(offers);
    assert(offers[k] is Some);
    assert(b is Some);
    let i = b->0;
    assert(offers[i] == strike(m, tile, act, dmg[i], so_far.res[i] as int, g_us));
    assert(offers[k]->0 <= offers[i]->0);
    if i < k {
        assert(strike(m, tile, act, dmg[i], so_far.res[i] as int, g_us)->0 < offers[k]->0);
    } else if k < i {
        assert(offers[k]->0 < offers[i]->0);
    }
    assert(i == k);
}

/// What heals takes the offer that is worth most, the first of such: the worth is added, the hits are no
/// longer missing from that creep, and from no other, and the order names it.
pub proof fn law_a_healer_takes_the_best_offer(
    m: EvMember,
    tile: Position,
    act: Act,
    dmg: Seq<DamageTarget>,
    heals: Seq<HealTarget>,
    g_us: int,
    so_far: Outcome,
    k: int,
)
    requires
        act == Act::Heal || act == Act::RangedHeal,
        so_far.need.len() == heals.len(),
        0 <= k < heals.len(),
        mend(m, tile, act, heals[k], so_far.need[k] as int, g_us) is Some,
        forall|j: int|
            0 <= j < heals.len() && mend(m, tile, act, #[trigger] heals[j], so_far.need[j] as int, g_us)
                is Some ==> mend(m, tile, act, heals[j], so_far.need[j] as int, g_us)->0 <= mend(
                m,
                tile,
                act,
                heals[k],
                so_far.need[k] as int,
                g_us,
            )->0,
        forall|j: int|
            0 <= j < k && mend(m, tile, act, #[trigger] heals[j], so_far.need[j] as int, g_us) is Some
                ==> mend(m, tile, act, heals[j], so_far.need[j] as int, g_us)->0 < mend(
                m,
                tile,
                act,
                heals[k],
                so_far.need[k] as int,
                g_us,
            )->0,
    ensures
        ({
            let after = with_act(m, tile, act, dmg, heals, g_us, so_far);
            let restored = if act == Act::Heal {
                12 * m.heal_parts
            } else {
                4 * m.heal_parts
            };
            let worth = mend(m, tile, act, heals[k], so_far.need[k] as int, g_us)->0;
            let left = if restored <= so_far.need[k] {
                so_far.need[k] - restored
            } else {
                0
            };
            &&& i64::MIN <= so_far.value + worth <= i64::MAX ==> after.value == so_far.value + worth
            &&& after.res == so_far.res
            &&& after.need.len() == so_far.need.len()
            &&& after.need[k] == left
            &&& forall|j: int|
                0 <= j < heals.len() && j != k ==> #[trigger] after.need[j] == so_far.need[j]
            &&& after.intents == so_far.intents.push(
                if act == Act::Heal {
                    CombatIntent::Heal { target: heals[k].pos, id: heals[k].id }
                } else {
                    CombatIntent::RangedHeal { target: heals[k].pos, id: heals[k].id }
                },
            )
        }),
{
    if act == Act::Heal {
        assert(m.healing(act) == m.heal_parts * 12);
    } else {
        assert(act == Act::RangedHeal);
        assert(m.healing(act) == m.heal_parts * 4);
    }
    let offers = mends(m, tile, act, heals, so_far.need, g_us);
    law_first_of_the_greatest(offers);
    let b = best_of(offers);
    assert(offers[k] is Some);
    assert(b is Some);
    let i = b->0;
    assert(offers[i] == mend(m, tile, act, heals[i], so_far.need[i] as int, g_us));
    assert(offers[k]->0 <= offers[i]->0);
    if i < k {
        assert(mend(m, tile, act, heals[i], so_far.need[i] as int, g_us)->0 < offers[k]->0);
    } else if k < i {
        assert(offers[k]->0 < offers[i]->0);
    }
    assert(i == k);
}

/// What has nothing to act on changes nothing and orders nothing.
pub proof fn law_nothing_in_reach_changes_nothing(
    m: EvMember,
    tile: Position,
    act: Act,
    dmg: Seq<DamageTarget>,
    heals: Seq<HealTarget>,
    g_us: int,
    so_far: Outcome,
)
    requires
        act != Act::Rma,
        act == Act::Heal || act == Act::RangedHeal ==> forall|j: int|
            0 <= j < heals.len() ==> mend(m, tile, act, #[trigger] heals[j], so_far.need[j] as int, g_us)
                is None,
        !(act == Act::Heal || act == Act::RangedHeal) ==> forall|j: int|
            0 <= j < dmg.len() ==> strike(m, tile, act, #[trigger] dmg[j], so_far.res[j] as int, g_us)
                is None,
    ensures
        with_act(m, tile, act, dmg, heals, g_us, so_far) == so_far,
{
    let offers = mends(m, tile, act, heals, so_far.need, g_us);
    law_first_of_the_greatest(offers);
    let blows = strikes(m, tile, act, dmg, so_far.res, g_us);
    law_first_of_the_greatest(blows);
}

/// A mass attack takes its hits off every target at once, and is ordered where it is worth something.
pub proof fn law_mass_attack_hits_all(
    m: EvMember,
    tile: Position,
    dmg: Seq<DamageTarget>,
    heals: Seq<HealTarget>,
    g_us: int,
    so_far: Outcome,
    k: int,
)
    requires
        so_far.res.len() == dmg.len(),
        0 <= k < dmg.len(),
        none_negative(so_far.res),
    ensures
        ({
            let after = with_act(m, tile, Act::Rma, dmg, heals, g_us, so_far);
            let gain = sweep(m, tile, dmg, so_far.res, dmg.len() as int);
            &&& after.res[k] == so_far.res[k] - swept(m, tile, dmg[k], so_far.res[k] as int)
            &&& after.need == so_far.need
            &&& i64::MIN <= so_far.value + gain <= i64::MAX ==> after.value == so_far.value + gain
            &&& gain > 0 ==> after.intents == so_far.intents.push(CombatIntent::RangedMassAttack)
            &&& gain <= 0 ==> after.intents == so_far.intents
        }),
{
}

/// The acts of one set are done in turn, each against what those before it left; an empty set does nothing.
pub proof fn law_acts_are_done_in_turn(
    m: EvMember,
    tile: Position,
    set: Seq<Act>,
    act: Act,
    dmg: Seq<DamageTarget>,
    heals: Seq<HealTarget>,
    g_us: int,
    before: Outcome,
)
    ensures
        with_set(m, tile, Seq::empty(), dmg, heals, g_us, before) == before,
        with_set(m, tile, set.push(act), dmg, heals, g_us, before) == with_act(
            m,
            tile,
            act,
            dmg,
            heals,
            g_us,
            with_set(m, tile, set, dmg, heals, g_us, before),
        ),
        untouched(dmg, heals).value == 0,
        untouched(dmg, heals).intents.len() == 0,
        untouched(dmg, heals).res.len() == dmg.len() && untouched(dmg, heals).need.len() == heals.len(),
        forall|j: int| 0 <= j < dmg.len() ==> #[trigger] untouched(dmg, heals).res[j] == dmg[j].residual,
        forall|j: int| 0 <= j < heals.len() ==> #[trigger] untouched(dmg, heals).need[j] == heals[j].need,
{
    assert(set.push(act).drop_last() =~= set);
}

/// The game knows two lines of acts in which a later one drops an earlier one: striking, taking apart,
/// declaiming, healing from afar and healing; and shooting, shooting all and healing from afar. Acts that
/// share no line go together.
pub proof fn law_conflicts_run_in_two_lines(a: Act, b: Act)
    ensures
        ({
            let hand = |act: Act|
                match act {
                    Act::Melee => 1int,
                    Act::Dismantle => 2,
                    Act::Declaim => 3,
                    Act::RangedHeal => 4,
                    Act::Heal => 5,
                    _ => 0,
                };
            let shot = |act: Act|
                match act {
                    Act::Ranged => 1int,
                    Act::Rma => 2,
                    Act::RangedHeal => 3,
                    _ => 0,
                };
            a.yields_to(b) <==> (0 < hand(a) < hand(b)) || (0 < shot(a) < shot(b))
        }),
{
}

/// A member that can only shoot and has one target left within three tiles shoots it: that is worth more
/// than nothing, and no mass attack is worth more. What the shot takes off is gone.
pub proof fn law_a_shooter_shoots_its_only_target(
    m: EvMember,
    tile: Position,
    dmg: Seq<DamageTarget>,
    heals: Seq<HealTarget>,
    g_us: int,
    k: int,
)
    requires
        m.caps == (ActorCaps {
            melee: false,
            ranged: true,
            heal: false,
            dismantle: false,
            claim: false,
        }),
        m.ranged_power > 0,
        0 <= k < dmg.len(),
        dmg[k].residual > 0,
        dmg[k].value_per_hit > 0,
        ({
            let t = dmg[k];
            let dx = 50 * (tile.room.x - t.pos.room.x) + tile.x - t.pos.x;
            let dy = 50 * (tile.room.y - t.pos.room.y) + tile.y - t.pos.y;
            -3 <= dx <= 3 && -3 <= dy <= 3
        }),
        forall|j: int|
            0 <= j < dmg.len() && j != k ==> (#[trigger] dmg[j]).residual <= 0
                || crate::geometry::chebyshev(tile, dmg[j].pos) > 3,
    ensures
        ({
            let out = best_outcome(m, tile, dmg, heals, g_us);
            &&& out.intents == seq![
                CombatIntent::RangedAttack { target: dmg[k].pos, id: dmg[k].id },
            ]
            &&& out.res[k] == dmg[k].residual - m.ranged_power || (out.res[k] == 0 && dmg[k].residual
                <= m.ranged_power)
            &&& forall|j: int|
                0 <= j < dmg.len() && j != k ==> #[trigger] out.res[j] == dmg[j].residual
            &&& out.value > 0
        }),
{
    let fresh = untouched(dmg, heals);
    let t = dmg[k];
    law_menu_of_a_shooter(m.caps);
    let menu = m.caps.menu();
    let shot = strike(m, tile, Act::Ranged, t, t.residual as int, g_us);
    let taken = crate::fixed::min_of(m.ranged_power as int, t.residual as int);
    assert(taken * t.value_per_hit > 0) by (nonlinear_arith)
        requires
            taken > 0,
            t.value_per_hit > 0,
    ;
    assert(shot is Some && shot->0 > 0);
    assert forall|j: int|
        0 <= j < dmg.len() && strike(
            m,
            tile,
            Act::Ranged,
            #[trigger] dmg[j],
            fresh.res[j] as int,
            g_us,
        ) is Some implies j == k by {}
    law_a_weapon_takes_the_best_offer(m, tile, Act::Ranged, dmg, heals, g_us, fresh, k);
    lemma_sweep_of_one(m, tile, dmg, fresh.res, dmg.len() as int, k);
    let swept_hits = swept(m, tile, t, t.residual as int);
    let range = crate::geometry::chebyshev(tile, t.pos);
    assert(m.ranged_power * falloff(range) / 10 <= m.ranged_power) by {
        assert(m.ranged_power * falloff(range) <= m.ranged_power * 10) by (nonlinear_arith)
            requires
                falloff(range) <= 10,
                m.ranged_power >= 0,
        ;
    }
    assert(swept_hits <= taken);
    assert(swept_hits * t.value_per_hit <= taken * t.value_per_hit) by (nonlinear_arith)
        requires
            swept_hits <= taken,
            t.value_per_hit > 0,
    ;
    let values = menu_values(m, tile, dmg, heals, g_us);
    reveal_with_fuel(with_set, 2);
    assert(menu[1].drop_last() =~= Seq::<Act>::empty());
    assert(menu[2].drop_last() =~= Seq::<Act>::empty());
    assert(values[0] == Some(0int));
    assert(values[1] == shot);
    assert(values[2]->0 <= shot->0);
    law_first_of_the_greatest(values);
    let b = best_of(values)->0;
    assert(values[1]->0 <= values[b]->0);
    assert(b == 1);
    let out = best_outcome(m, tile, dmg, heals, g_us);
    assert(out == with_act(m, tile, Act::Ranged, dmg, heals, g_us, fresh));
    assert(fresh.intents.push(order_on(Act::Ranged, t)) =~= seq![
        CombatIntent::RangedAttack { target: t.pos, id: t.id },
    ]);
}

/// Who can only shoot does nothing, shoots one or shoots all.
pub proof fn law_menu_of_a_shooter(caps: ActorCaps)
    requires
        caps == (ActorCaps {
            melee: false,
            ranged: true,
            heal: false,
            dismantle: false,
            claim: false,
        }),
    ensures
        caps.menu() == seq![Seq::<Act>::empty(), seq![Act::Ranged], seq![Act::Rma]],
{
    let g = caps.grounds();
    let s = caps.shots();
    assert(g =~= seq![Seq::<Act>::empty()]);
    assert(s =~= seq![Seq::<Act>::empty(), seq![Act::Ranged], seq![Act::Rma]]);
    reveal_with_fuel(crossed, 2);
    assert(g.drop_last() =~= Seq::<Seq<Act>>::empty());
    assert(g.last() =~= Seq::<Act>::empty());
    let c = crossed(g, s);
    assert(c.len() == 3);
    assert(c[0] =~= Seq::<Act>::empty());
    assert(c[1] =~= seq![Act::Ranged]);
    assert(c[2] =~= seq![Act::Rma]);
    assert(caps.menu() =~= seq![Seq::<Act>::empty(), seq![Act::Ranged], seq![Act::Rma]]);
}

/// A mass attack on one target is worth what that one's hits are.
proof fn lemma_sweep_of_one(
    m: EvMember,
    tile: Position,
    dmg: Seq<DamageTarget>,
    res: Seq<i64>,
    n: int,
    k: int,
)
    requires
        0 <= n <= dmg.len(),
        res.len() == dmg.len(),
        0 <= k < dmg.len(),
        forall|j: int|
            0 <= j < dmg.len() && j != k ==> #[trigger] res[j] <= 0 || crate::geometry::chebyshev(
                tile,
                dmg[j].pos,
            ) > 3,
    ensures
        sweep(m, tile, dmg, res, n) == if n > k {
            crate::fixed::nearest_i64(
                swept(m, tile, dmg[k], res[k] as int) * dmg[k].value_per_hit,
            )
        } else {
            0
        },
    decreases n,
{
    if n > 0 {
        lemma_sweep_of_one(m, tile, dmg, res, n - 1, k);
        if n - 1 != k {
            assert(res[n - 1] <= 0 || crate::geometry::chebyshev(tile, dmg[n - 1].pos) > 3);
            let v = dmg[n - 1].value_per_hit as int;
            assert(0 * v == 0) by (nonlinear_arith);
        }
    }
}

/// A creep counts with the hits that kill it, one at least; each of them is worth its share of the strength
/// that goes with it, weighed by the worth of theirs, rounded down but never nothing; and it strikes back
/// with thirty for each ATTACK.
pub proof fn law_creep_is_worth_its_strength(c: KillTarget, g_them: int)
    requires
        1 <= g_them <= 1_073_741_824,
    ensures
        ({
            let t = creep_target(c, g_them);
            let strength = if c.threat_value == 0 {
                1
            } else {
                c.threat_value as int
            };
            &&& t.pos == c.pos && t.id == c.id && !t.is_structure
            &&& c.budget > 0 ==> t.residual == c.budget
            &&& c.budget == 0 ==> t.residual == 1
            &&& t.value_per_hit >= 1
            &&& t.value_per_hit == 1 || t.value_per_hit * t.residual <= g_them * strength
            &&& g_them * strength < (t.value_per_hit + 1) * t.residual
            &&& t.attack_back == 30 * c.attack_parts
        }),
{
    let strength = crate::fixed::max_of(c.threat_value as int, 1);
    let hits = crate::fixed::max_of(c.budget as int, 1);
    lemma_value_is_shared(strength, hits, g_them);
}

/// What a value is worth for each hit.
proof fn lemma_value_is_shared(value: int, hits: int, g_them: int)
    requires
        0 <= value <= 0x1_0000_0000,
        1 <= hits,
        1 <= g_them <= 1_073_741_824,
    ensures
        ({
            let each = per_hit(value, hits, g_them);
            &&& 1 <= each <= i64::MAX
            &&& each == 1 || each * hits <= g_them * value
            &&& g_them * value < (each + 1) * hits
        }),
{
    let all = g_them * value;
    assert(0 <= all <= 0x4000_0000_0000_0000) by (nonlinear_arith)
        requires
            0 <= value <= 0x1_0000_0000,
            1 <= g_them <= 0x4000_0000,
            all == g_them * value,
    ;
    let q = all / hits;
    vstd::arithmetic::div_mod::lemma_fundamental_div_mod(all, hits);
    vstd::arithmetic::div_mod::lemma_div_pos_is_pos(all, hits);
    let r = all % hits;
    assert(q * hits <= all < (q + 1) * hits) by (nonlinear_arith)
        requires
            all == hits * q + r,
            0 <= r < hits,
    ;
    assert(q <= all) by (nonlinear_arith)
        requires
            q * hits <= all,
            hits >= 1,
            q >= 0,
    ;
    if q == 0 {
        assert((q + 1) * hits == hits) by (nonlinear_arith)
            requires
                q == 0,
        ;
    }
}

/// Of structures only those of the enemy that stand are targets: a core at 700, a tower at 600 and a spawn
/// at 500; the one that the squad is set on, of whatever kind, at 600 more and four times that. What a
/// structure is worth is shared among its hits, and none strikes back.
pub proof fn law_structures_are_worth_their_kind(
    structures: Seq<CombatStructureDto>,
    s: CombatStructureDto,
    focus: Option<FocusTarget>,
    g_them: int,
)
    requires
        1 <= g_them <= 1_073_741_824,
    ensures
        structure_targets(Seq::empty(), focus, g_them).len() == 0,
        ({
            let plain = match s.structure_type {
                StructureKind::InvaderCore => 700int,
                StructureKind::Tower => 600,
                StructureKind::Spawn => 500,
                StructureKind::Other => 0,
            };
            let set_on = focus is Some && focus->0.id is None && focus->0.pos == s.pos;
            let value = if set_on {
                4 * (plain + 600)
            } else {
                plain
            };
            let before = structure_targets(structures, focus, g_them);
            let after = structure_targets(structures.push(s), focus, g_them);
            let wanted = s.ownership == Ownership::Hostile && s.hits > 0 && value > 0;
            &&& !wanted ==> after == before
            &&& wanted ==> {
                let t = after.last();
                &&& after.len() == before.len() + 1
                &&& after.drop_last() == before
                &&& t.pos == s.pos && t.id is None && t.is_structure && t.attack_back == 0
                &&& t.residual == s.hits
                &&& t.value_per_hit >= 1
                &&& t.value_per_hit == 1 || t.value_per_hit * s.hits <= g_them * value
                &&& g_them * value < (t.value_per_hit + 1) * s.hits
            }
        }),
{
    assert(structures.push(s).drop_last() =~= structures);
    if s.hits > 0 {
        lemma_value_is_shared(raze_value(s, focus), s.hits as int, g_them);
    }
    let after = structure_targets(structures.push(s), focus, g_them);
    if raze_value(s, focus) > 0 {
        assert(after.drop_last() =~= structure_targets(structures, focus, g_them));
    }
}

/// The creeps come first, in their order, and then the structures.
pub proof fn law_creeps_are_listed_first(
    creeps: Seq<KillTarget>,
    structures: Seq<CombatStructureDto>,
    focus: Option<FocusTarget>,
    g_them: int,
    i: int,
)
    ensures
        ({
            let all = damage_targets(creeps, structures, focus, g_them);
            let razed = structure_targets(structures, focus, g_them);
            &&& all.len() == creeps.len() + razed.len()
            &&& 0 <= i < creeps.len() ==> all[i] == creep_target(creeps[i], g_them)
            &&& 0 <= i < razed.len() ==> all[creeps.len() + i] == razed[i]
        }),
{
}

/// A member that lives is healed for what it misses and for what is about to hit it, and would die where that
/// is all that it has; one that does not live is not.
pub proof fn law_members_are_healed_ahead(
    members: Seq<EvMember>,
    m: EvMember,
    field: ThreatField,
)
    ensures
        heal_targets(Seq::empty(), field).len() == 0,
        m.hits == 0 ==> heal_targets(members.push(m), field) == heal_targets(members, field),
        m.hits > 0 ==> {
            let after = heal_targets(members.push(m), field);
            let t = after.last();
            let coming = if field.raw(m.pos) > 0 {
                field.raw(m.pos)
            } else {
                0
            };
            let missing = if m.hits_max > m.hits {
                m.hits_max - m.hits
            } else {
                0
            };
            &&& after.len() == heal_targets(members, field).len() + 1
            &&& after.drop_last() == heal_targets(members, field)
            &&& t.pos == m.pos && t.id == m.id
            &&& t.need == missing + coming
            &&& t.mortal <==> coming >= m.hits
        },
{
    assert(members.push(m).drop_last() =~= members);
    if m.hits > 0 {
        assert(heal_targets(members.push(m), field).drop_last() =~= heal_targets(members, field));
    }
}

/// A tile is worth what the member can do from it, less the damage that the squad cannot heal there, less
/// the way to the objective, less what it lies beyond the squad's reach of its middle, less the crowding;
/// and more where the member stands on it and can fire. Where the damage would take all its hits within
/// three ticks, a thousand million million less. Stated where no sum leaves an `i64`.
pub proof fn law_a_tile_is_worth_what_it_gives_and_costs(
    scene: Scene,
    m: EvMember,
    tile: Position,
    dmg: Seq<DamageTarget>,
    heals: Seq<HealTarget>,
    claimed: Seq<Position>,
)
    requires
        ({
            let most: int = 1_000_000_000_000_000_000;
            let p = *scene.params;
            let unit = scene.unit;
            let apart = crate::geometry::chebyshev(scene.centroid, tile) - p.cohesion_k;
            &&& -most <= best_outcome(m, tile, dmg, heals, scene.g_us as int).value <= most
            &&& -most <= scene.g_us * scene.net_damage(tile) <= most
            &&& -most <= unit * p.approach_coef <= most
            &&& -most <= unit * p.approach_coef * scene.way(tile) <= most
            &&& -most <= unit * p.discohesion_coef <= most
            &&& apart > 0 ==> -most <= unit * p.discohesion_coef * apart <= most
            &&& -most <= unit * p.spacing_coef <= most
            &&& -most <= unit * p.incumbency_coef <= most
        }),
    ensures
        ({
            let p = *scene.params;
            let unit = scene.unit;
            let raw = scene.threat_field.raw(tile);
            let net = if raw > scene.squad_heal {
                raw - scene.squad_heal
            } else {
                0
            };
            let apart = crate::geometry::chebyshev(scene.centroid, tile) - p.cohesion_k;
            let gives = best_outcome(m, tile, dmg, heals, scene.g_us as int).value + if tile == m.pos
                && can_fire(m, tile, dmg) {
                unit * p.incumbency_coef
            } else {
                0
            };
            let costs = scene.g_us * net + unit * p.approach_coef * scene.way(tile) + (if apart > 0 {
                unit * p.discohesion_coef * apart
            } else {
                0
            }) + if is_crowded(tile, claimed) {
                unit * p.spacing_coef
            } else {
                0
            };
            let dies = m.hits > 0 && net > 0 && 3 * net > m.hits;
            scene.worth(m, tile, dmg, heals, claimed) == gives - costs - if dies {
                1_000_000_000_000_000int
            } else {
                0
            }
        }),
{
}

/// The way from a tile is what the map says, ten thousand at most, and that where it says nothing.
pub proof fn law_unknown_ways_are_long(scene: Scene, tile: Position)
    requires
        tile.wf(),
    ensures
        ({
            let key = (tile.x * 50 + tile.y) as u16;
            let known = scene.dist_to_target@;
            &&& !known.contains_key(key) ==> scene.way(tile) == 10_000
            &&& known.contains_key(key) && known[key] <= 10_000 ==> scene.way(tile) == known[key]
            &&& known.contains_key(key) && known[key] > 10_000 ==> scene.way(tile) == 10_000
        }),
{
}

/// A tile is crowded where one that another member claimed lies next to it; sharing the tile itself does not
/// count.
pub proof fn law_crowding_is_next_to_another(tile: Position, claimed: Seq<Position>, p: Position)
    ensures
        !is_crowded(tile, Seq::empty()),
        is_crowded(tile, claimed.push(p)) <==> is_crowded(tile, claimed) || {
            let dx = 50 * (tile.room.x - p.room.x) + tile.x - p.x;
            let dy = 50 * (tile.room.y - p.room.y) + tile.y - p.y;
            -1 <= dx <= 1 && -1 <= dy <= 1 && p != tile
        },
{
    let more = claimed.push(p);
    assert(more[claimed.len() as int] == p);
    if is_crowded(tile, claimed) {
        let k = choose|k: int|
            0 <= k < claimed.len() && crate::geometry::chebyshev(tile, #[trigger] claimed[k])
                <= SPACING_R && claimed[k] != tile;
        assert(more[k] == claimed[k]);
    }
    if is_crowded(tile, more) {
        let k = choose|k: int|
            0 <= k < more.len() && crate::geometry::chebyshev(tile, #[trigger] more[k]) <= SPACING_R
                && more[k] != tile;
        assert(k < claimed.len() ==> claimed[k] == more[k]);
    }
}

/// A member can fire from a tile where a target stands within three tiles and it can shoot, or next to it
/// and it can strike, take apart or declaim.
pub proof fn law_firing_needs_a_target_in_reach(
    m: EvMember,
    tile: Position,
    dmg: Seq<DamageTarget>,
    t: DamageTarget,
)
    ensures
        !can_fire(m, tile, Seq::empty()),
        can_fire(m, tile, dmg.push(t)) <==> can_fire(m, tile, dmg) || {
            let dx = 50 * (tile.room.x - t.pos.room.x) + tile.x - t.pos.x;
            let dy = 50 * (tile.room.y - t.pos.room.y) + tile.y - t.pos.y;
            ||| m.caps.ranged && -3 <= dx <= 3 && -3 <= dy <= 3
            ||| (m.caps.melee || m.caps.dismantle || m.caps.claim) && -1 <= dx <= 1 && -1 <= dy <= 1
        },
{
    let more = dmg.push(t);
    assert(more[dmg.len() as int] == t);
    if can_fire(m, tile, dmg) {
        let k = choose|k: int| 0 <= k < dmg.len() && reaches(m, tile, #[trigger] dmg[k]);
        assert(more[k] == dmg[k]);
    }
    if can_fire(m, tile, more) {
        let k = choose|k: int| 0 <= k < more.len() && reaches(m, tile, #[trigger] more[k]);
        assert(k < dmg.len() ==> dmg[k] == more[k]);
    }
}

/// Each member in turn acts from where it stands, against what those before it left; then it looks for a
/// tile, with what it left itself, among those that the others have claimed.
pub proof fn law_members_act_in_turn(scene: Scene, members: Seq<EvMember>, m: EvMember, start: Plan)
    ensures
        planned(scene, Seq::empty(), start) == start,
        ({
            let before = planned(scene, members, start);
            let after = planned(scene, members.push(m), start);
            let out = best_outcome(m, m.pos, before.dmg, before.heals, scene.g_us as int);
            &&& after.orders == before.orders.push(out.intents)
            &&& after.goals == before.goals.push(scene.goal(m, after.dmg, after.heals, before.claimed))
            &&& after.dmg.len() == before.dmg.len() && after.heals.len() == before.heals.len()
            &&& forall|i: int|
                0 <= i < before.dmg.len() ==> (#[trigger] after.dmg[i]).residual == out.res[i]
                    && after.dmg[i].pos == before.dmg[i].pos && after.dmg[i].value_per_hit
                    == before.dmg[i].value_per_hit && after.dmg[i].id == before.dmg[i].id
                    && after.dmg[i].is_structure == before.dmg[i].is_structure
                    && after.dmg[i].attack_back == before.dmg[i].attack_back
            &&& forall|i: int|
                0 <= i < before.heals.len() ==> (#[trigger] after.heals[i]).need == out.need[i]
                    && after.heals[i].pos == before.heals[i].pos && after.heals[i].mortal
                    == before.heals[i].mortal && after.heals[i].id == before.heals[i].id
            &&& after.goals.last() is Some ==> after.claimed == before.claimed.push(
                after.goals.last()->0,
            )
            &&& after.goals.last() is None ==> after.claimed == before.claimed
        }),
{
    assert(members.push(m).drop_last() =~= members);
}

/// A lone member that can only shoot, and has the enemy's only creep within three tiles, is told to shoot
/// it.
pub proof fn law_a_lone_shooter_is_told_to_shoot(
    scene: Scene,
    m: EvMember,
    c: KillTarget,
    focus: Option<FocusTarget>,
    g_them: int,
)
    requires
        1 <= g_them <= 1_073_741_824,
        m.caps == (ActorCaps {
            melee: false,
            ranged: true,
            heal: false,
            dismantle: false,
            claim: false,
        }),
        m.ranged_power > 0,
        ({
            let dx = 50 * (m.pos.room.x - c.pos.room.x) + m.pos.x - c.pos.x;
            let dy = 50 * (m.pos.room.y - c.pos.room.y) + m.pos.y - c.pos.y;
            -3 <= dx <= 3 && -3 <= dy <= 3
        }),
    ensures
        planned(
            scene,
            seq![m],
            no_plan(
                damage_targets(seq![c], Seq::empty(), focus, g_them),
                heal_targets(seq![m], *scene.threat_field),
            ),
        ).orders == seq![seq![CombatIntent::RangedAttack { target: c.pos, id: c.id }]],
{
    let dmg = damage_targets(seq![c], Seq::empty(), focus, g_them);
    let heals = heal_targets(seq![m], *scene.threat_field);
    law_creeps_are_listed_first(seq![c], Seq::empty(), focus, g_them, 0);
    law_creep_is_worth_its_strength(c, g_them);
    law_a_shooter_shoots_its_only_target(m, m.pos, dmg, heals, scene.g_us as int, 0);
    assert(Seq::<EvMember>::empty().push(m) =~= seq![m]);
    law_members_act_in_turn(scene, Seq::empty(), m, no_plan(dmg, heals));
    let orders = planned(scene, seq![m], no_plan(dmg, heals)).orders;
    assert(orders =~= seq![seq![CombatIntent::RangedAttack { target: c.pos, id: c.id }]]);
}

/// What strength is worth follows the odds: a unit of ours and a unit of theirs are worth as much as the
/// strength of the other side, by the rise of the odds over a hundred of margin, one at least, as long as
/// neither passes the cap.
pub proof fn law_strength_is_worth_the_rise_of_the_odds(ours: int, theirs: int, mu: int)
    requires
        0 <= ours,
        0 <= theirs,
    ensures
        ({
            let (a, b) = (
                if ours < 1 {
                    1
                } else {
                    ours
                },
                if theirs < 1 {
                    1
                } else {
                    theirs
                },
            );
            let rise = odds(mu + 50) - odds(mu - 50);
            let k = if rise < 1 {
                1
            } else {
                rise
            };
            let (g_us, g_them) = (worth_of_ours(ours, theirs, mu), worth_of_theirs(ours, theirs, mu));
            &&& k * a <= 1_073_741_824 && k * b <= 1_073_741_824 ==> g_us == k * b && g_them == k * a
            &&& k * a > 1_073_741_824 && a >= b ==> g_them == 1_073_741_824 && (g_us == 1 || g_us * (k * a)
                <= (k * b) * 1_073_741_824) && (k * b) * 1_073_741_824 < (g_us + 1) * (k * a)
            &&& k * b > 1_073_741_824 && b >= a ==> g_us == 1_073_741_824 && (g_them == 1 || g_them * (k
                * b) <= (k * a) * 1_073_741_824) && (k * a) * 1_073_741_824 < (g_them + 1) * (k * b)
        }),
{
    let (a, b) = (crate::fixed::max_of(ours, 1), crate::fixed::max_of(theirs, 1));
    let k = slope(mu);
    assert((a >= b ==> k * a >= k * b) && (b >= a ==> k * b >= k * a) && k * a >= 1 && k * b >= 1)
        by (nonlinear_arith)
        requires
            k >= 1,
            a >= 1,
            b >= 1,
    ;
    lemma_scaled_down(k * a, k * a);
    lemma_scaled_down(k * b, k * b);
    lemma_scaled_down(k * b, k * a);
    lemma_scaled_down(k * a, k * b);
}

/// Scaling down to the cap rounds down.
proof fn lemma_scaled_down(g: int, larger: int)
    requires
        1 <= g,
        1 <= larger,
    ensures
        ({
            let q = g * 1_073_741_824 / larger;
            &&& q * larger <= g * 1_073_741_824 < (q + 1) * larger
            &&& g == larger ==> q == 1_073_741_824
            &&& q == 0 ==> g * 1_073_741_824 < (1 + 1) * larger
        }),
{
    let n = g * 1_073_741_824;
    let q = n / larger;
    let r = n % larger;
    vstd::arithmetic::div_mod::lemma_fundamental_div_mod(n, larger);
    assert(q * larger <= n < (q + 1) * larger) by (nonlinear_arith)
        requires
            n == larger * q + r,
            0 <= r < larger,
    ;
    if q == 0 {
        assert(n < larger) by (nonlinear_arith)
            requires
                q == 0,
                n < (q + 1) * larger,
        ;
        assert((1 + 1) * larger == larger + larger) by (nonlinear_arith);
    }
    if g == larger {
        assert(q == 1_073_741_824) by (nonlinear_arith)
            requires
                n == larger * 1_073_741_824,
                q * larger <= n < (q + 1) * larger,
                larger >= 1,
        ;
    }
}

/// The damage of a squad is what its members strike and shoot with; and a unit of strength is worth the mean
/// of both sides, rounded down but never nothing.
pub proof fn law_squad_damage_adds_up(members: Seq<EvMember>, m: EvMember, g_us: int, g_them: int)
    ensures
        total_dps(Seq::empty()) == 0,
        total_dps(members.push(m)) == total_dps(members) + m.melee_power + m.ranged_power,
        g_us + g_them >= 2 ==> 2 * mean_worth(g_us, g_them) <= g_us + g_them <= 2 * mean_worth(
            g_us,
            g_them,
        ) + 1,
        g_us + g_them < 2 ==> mean_worth(g_us, g_them) == 1,
{
    assert(members.push(m).drop_last() =~= members);
}

/// Between two of the margins that the curve of the odds is given for, fifty apart, the odds rise evenly, in
/// whole thousandths.
pub proof fn law_odds_rise_evenly_between(mu: int, step: int)
    requires
        0 <= step < 40,
        step * 50 <= mu + 1000 < (step + 1) * 50,
    ensures
        ({
            let (low, high) = (odds(step * 50 - 1000), odds((step + 1) * 50 - 1000));
            let along = mu + 1000 - step * 50;
            let rise = odds(mu) - low;
            50 * rise <= (high - low) * along < 50 * (rise + 1)
        }),
{
    let (t, u) = (step * 50, (step + 1) * 50);
    assert(t / 50 == step && t % 50 == 0);
    assert(u / 50 == step + 1 && u % 50 == 0);
    let along = mu + 1000 - t;
    assert((mu + 1000) / 50 == step && (mu + 1000) % 50 == along);
    let zero = 0int;
    assert((WIN_LUT[step + 1] - WIN_LUT[step]) * zero == 0) by (nonlinear_arith)
        requires
            zero == 0,
    ;
    if step + 1 < 40 {
        assert((WIN_LUT[step + 2] - WIN_LUT[step + 1]) * zero == 0) by (nonlinear_arith)
            requires
                zero == 0,
        ;
    }
}

/// The ratio of winning to losing at a margin of `k` times fifty, in thousand millionths: it grows by the
/// fifth root of Euler's number for each fifty.
pub open spec fn grown(k: int) -> int
    decreases k,
{
    if k <= 0 {
        1_000_000_000
    } else {
        grown(k - 1) * 12_214_028 / 10_000_000
    }
}

/// Whether `w` is the share is settled by the two numbers.
proof fn lemma_is_the_share(w: int, g: int, share: int, ratio: int)
    by (nonlinear_arith)
    requires
        w == share,
        g == ratio,
        (2 * share - 1) * (1_000_000_000 + ratio) <= 2000 * ratio,
        2000 * ratio <= (2 * share + 1) * (1_000_000_000 + ratio),
    ensures
        (2 * w - 1) * (1_000_000_000 + g) <= 2000 * g <= (2 * w + 1) * (1_000_000_000 + g),
{
}

/// The odds follow the logistic curve: at each margin that is a multiple of fifty they are, to the nearest
/// thousandth, the share that the ratio has of itself and one.
#[verifier::spinoff_prover]
#[verifier::rlimit(60)]
pub proof fn law_odds_are_logistic(k: int)
    requires
        0 <= k <= 20,
    ensures
        ({
            let w = odds(k * 50);
            let g = grown(k);
            (2 * w - 1) * (1_000_000_000 + g) <= 2000 * g <= (2 * w + 1) * (1_000_000_000 + g)
        }),
{
    let t = k * 50 + 1000;
    assert(t / 50 == k + 20 && t % 50 == 0);
    let zero = 0int;
    if k < 20 {
        assert((WIN_LUT[k + 21] - WIN_LUT[k + 20]) * zero == 0) by (nonlinear_arith)
            requires
                zero == 0,
        ;
    }
    let i = k + 20;
    assert(odds(k * 50) == WIN_LUT[i]);
    assert(grown(0) == 1_000_000_000);
    assert(grown(1) == 1_221_402_800);
    assert(grown(2) == 1_491_824_799);
    assert(grown(3) == 1_822_118_986);
    assert(grown(4) == 2_225_541_231);
    assert(grown(5) == 2_718_282_291);
    assert(grown(6) == 3_320_117_601);
    assert(grown(7) == 4_055_200_934);
    assert(grown(8) == 4_953_033_775);
    assert(grown(9) == 6_049_649_321);
    assert(grown(10) == 7_389_058_619);
    assert(grown(11) == 9_025_016_886);
    assert(grown(12) == 11_023_180_894);
    assert(grown(13) == 13_463_744_008);
    assert(grown(14) == 16_444_654_629);
    assert(grown(15) == 20_085_547_208);
    assert(grown(16) == 24_532_543_599);
    assert(grown(17) == 29_964_117_442);
    assert(grown(18) == 36_598_256_943);
    assert(grown(19) == 44_701_213_505);
    assert(grown(20) == 54_598_187_338);
    let (w, g) = (odds(k * 50), grown(k));
    if k == 0 {
        assert((2 * 500 - 1) * (1_000_000_000 + 1_000_000_000) <= 2000 * 1_000_000_000 && 2000 * 1_000_000_000 <= (2 * 500 + 1) * (
        1_000_000_000 + 1_000_000_000)) by (nonlinear_arith);
        lemma_is_the_share(w, g, 500, 1_000_000_000);
    } else if k == 1 {
        assert((2 * 550 - 1) * (1_000_000_000 + 1_221_402_800) <= 2000 * 1_221_402_800 && 2000 * 1_221_402_800 <= (2 * 550 + 1) * (
        1_000_000_000 + 1_221_402_800)) by (nonlinear_arith);
        lemma_is_the_share(w, g, 550, 1_221_402_800);
    } else if k == 2 {
        assert((2 * 599 - 1) * (1_000_000_000 + 1_491_824_799) <= 2000 * 1_491_824_799 && 2000 * 1_491_824_799 <= (2 * 599 + 1) * (
        1_000_000_000 + 1_491_824_799)) by (nonlinear_arith);
        lemma_is_the_share(w, g, 599, 1_491_824_799);
    } else if k == 3 {
        assert((2 * 646 - 1) * (1_000_000_000 + 1_822_118_986) <= 2000 * 1_822_118_986 && 2000 * 1_822_118_986 <= (2 * 646 + 1) * (
        1_000_000_000 + 1_822_118_986)) by (nonlinear_arith);
        lemma_is_the_share(w, g, 646, 1_822_118_986);
    } else if k == 4 {
        assert((2 * 690 - 1) * (1_000_000_000 + 2_225_541_231) <= 2000 * 2_225_541_231 && 2000 * 2_225_541_231 <= (2 * 690 + 1) * (
        1_000_000_000 + 2_225_541_231)) by (nonlinear_arith);
        lemma_is_the_share(w, g, 690, 2_225_541_231);
    } else if k == 5 {
        assert((2 * 731 - 1) * (1_000_000_000 + 2_718_282_291) <= 2000 * 2_718_282_291 && 2000 * 2_718_282_291 <= (2 * 731 + 1) * (
        1_000_000_000 + 2_718_282_291)) by (nonlinear_arith);
        lemma_is_the_share(w, g, 731, 2_718_282_291);
    } else if k == 6 {
        assert((2 * 769 - 1) * (1_000_000_000 + 3_320_117_601) <= 2000 * 3_320_117_601 && 2000 * 3_320_117_601 <= (2 * 769 + 1) * (
        1_000_000_000 + 3_320_117_601)) by (nonlinear_arith);
        lemma_is_the_share(w, g, 769, 3_320_117_601);
    } else if k == 7 {
        assert((2 * 802 - 1) * (1_000_000_000 + 4_055_200_934) <= 2000 * 4_055_200_934 && 2000 * 4_055_200_934 <= (2 * 802 + 1) * (
        1_000_000_000 + 4_055_200_934)) by (nonlinear_arith);
        lemma_is_the_share(w, g, 802, 4_055_200_934);
    } else if k == 8 {
        assert((2 * 832 - 1) * (1_000_000_000 + 4_953_033_775) <= 2000 * 4_953_033_775 && 2000 * 4_953_033_775 <= (2 * 832 + 1) * (
        1_000_000_000 + 4_953_033_775)) by (nonlinear_arith);
        lemma_is_the_share(w, g, 832, 4_953_033_775);
    } else if k == 9 {
        assert((2 * 858 - 1) * (1_000_000_000 + 6_049_649_321) <= 2000 * 6_049_649_321 && 2000 * 6_049_649_321 <= (2 * 858 + 1) * (
        1_000_000_000 + 6_049_649_321)) by (nonlinear_arith);
        lemma_is_the_share(w, g, 858, 6_049_649_321);
    } else if k == 10 {
        assert((2 * 881 - 1) * (1_000_000_000 + 7_389_058_619) <= 2000 * 7_389_058_619 && 2000 * 7_389_058_619 <= (2 * 881 + 1) * (
        1_000_000_000 + 7_389_058_619)) by (nonlinear_arith);
        lemma_is_the_share(w, g, 881, 7_389_058_619);
    } else if k == 11 {
        assert((2 * 900 - 1) * (1_000_000_000 + 9_025_016_886) <= 2000 * 9_025_016_886 && 2000 * 9_025_016_886 <= (2 * 900 + 1) * (
        1_000_000_000 + 9_025_016_886)) by (nonlinear_arith);
        lemma_is_the_share(w, g, 900, 9_025_016_886);
    } else if k == 12 {
        assert((2 * 917 - 1) * (1_000_000_000 + 11_023_180_894) <= 2000 * 11_023_180_894 && 2000 * 11_023_180_894 <= (2 * 917 + 1) * (
        1_000_000_000 + 11_023_180_894)) by (nonlinear_arith);
        lemma_is_the_share(w, g, 917, 11_023_180_894);
    } else if k == 13 {
        assert((2 * 931 - 1) * (1_000_000_000 + 13_463_744_008) <= 2000 * 13_463_744_008 && 2000 * 13_463_744_008 <= (2 * 931 + 1) * (
        1_000_000_000 + 13_463_744_008)) by (nonlinear_arith);
        lemma_is_the_share(w, g, 931, 13_463_744_008);
    } else if k == 14 {
        assert((2 * 943 - 1) * (1_000_000_000 + 16_444_654_629) <= 2000 * 16_444_654_629 && 2000 * 16_444_654_629 <= (2 * 943 + 1) * (
        1_000_000_000 + 16_444_654_629)) by (nonlinear_arith);
        lemma_is_the_share(w, g, 943, 16_444_654_629);
    } else if k == 15 {
        assert((2 * 953 - 1) * (1_000_000_000 + 20_085_547_208) <= 2000 * 20_085_547_208 && 2000 * 20_085_547_208 <= (2 * 953 + 1) * (
        1_000_000_000 + 20_085_547_208)) by (nonlinear_arith);
        lemma_is_the_share(w, g, 953, 20_085_547_208);
    } else if k == 16 {
        assert((2 * 961 - 1) * (1_000_000_000 + 24_532_543_599) <= 2000 * 24_532_543_599 && 2000 * 24_532_543_599 <= (2 * 961 + 1) * (
        1_000_000_000 + 24_532_543_599)) by (nonlinear_arith);
        lemma_is_the_share(w, g, 961, 24_532_543_599);
    } else if k == 17 {
        assert((2 * 968 - 1) * (1_000_000_000 + 29_964_117_442) <= 2000 * 29_964_117_442 && 2000 * 29_964_117_442 <= (2 * 968 + 1) * (
        1_000_000_000 + 29_964_117_442)) by (nonlinear_arith);
        lemma_is_the_share(w, g, 968, 29_964_117_442);
    } else if k == 18 {
        assert((2 * 973 - 1) * (1_000_000_000 + 36_598_256_943) <= 2000 * 36_598_256_943 && 2000 * 36_598_256_943 <= (2 * 973 + 1) * (
        1_000_000_000 + 36_598_256_943)) by (nonlinear_arith);
        lemma_is_the_share(w, g, 973, 36_598_256_943);
    } else if k == 19 {
        assert((2 * 978 - 1) * (1_000_000_000 + 44_701_213_505) <= 2000 * 44_701_213_505 && 2000 * 44_701_213_505 <= (2 * 978 + 1) * (
        1_000_000_000 + 44_701_213_505)) by (nonlinear_arith);
        lemma_is_the_share(w, g, 978, 44_701_213_505);
    } else if k == 20 {
        assert((2 * 982 - 1) * (1_000_000_000 + 54_598_187_338) <= 2000 * 54_598_187_338 && 2000 * 54_598_187_338 <= (2 * 982 + 1) * (
        1_000_000_000 + 54_598_187_338)) by (nonlinear_arith);
        lemma_is_the_share(w, g, 982, 54_598_187_338);
    }
}

/// A tile can be stood on where it lies in the room and does not cost the most that a tile can.
pub proof fn law_walls_are_not_stood_on(scene: Scene, x: int, y: int)
    ensures
        scene.is_open(x, y) <==> {
            &&& 0 <= x <= 49 && 0 <= y <= 49
            &&& crate::geometry::tile_costs(*scene.matrix)[(x, y)] != 255
        },
{
}

/// Where a set stands on the menu: by how it heals, then by what it does next to it, then by its shots.
pub open spec fn menu_rank(set: Seq<Act>) -> int {
    (if set.contains(Act::RangedHeal) {
        24int
    } else if set.contains(Act::Heal) {
        12
    } else {
        0
    }) + (if set.contains(Act::Declaim) {
        3int
    } else if set.contains(Act::Dismantle) {
        6
    } else if set.contains(Act::Melee) {
        9
    } else {
        0
    }) + (if set.contains(Act::Ranged) {
        1int
    } else if set.contains(Act::Rma) {
        2
    } else {
        0
    })
}

/// The menu goes from doing nothing up: sets without heal come before those that heal, and those before the
/// one that heals from afar; before one another go declaiming, taking apart and striking, and shooting and
/// shooting all. So no set is on it twice, and of sets that are worth the same the first is taken.
#[verifier::spinoff_prover]
#[verifier::rlimit(60)]
pub proof fn law_menu_is_in_order(caps: ActorCaps, i: int, j: int)
    requires
        0 <= i < j < caps.menu().len(),
    ensures
        menu_rank(caps.menu()[i]) < menu_rank(caps.menu()[j]),
{
    let g = caps.grounds();
    let s = caps.shots();
    let heal = seq![seq![Act::Heal]];
    let free = crossed(g, s);
    let healing = crossed(heal, s);
    let n = s.len() as int;
    lemma_crossed(g, s);
    lemma_crossed(heal, s);
    let b = caps.menu()[j];
    let m = free.len() as int;
    if i < m {
        lemma_rank_of_free(caps, i);
    }
    if j < m {
        lemma_rank_of_free(caps, j);
    }
    if m <= i < m + healing.len() {
        lemma_rank_of_healing(caps, i - m);
    }
    if m <= j < m + healing.len() {
        lemma_rank_of_healing(caps, j - m);
    }
    if caps.heal && j == m + healing.len() {
        assert(b == seq![Act::RangedHeal]);
        assert(b[0] == Act::RangedHeal);
    }
    if j < m {
        lemma_quotients_are_in_order(i, j, n);
        assert(i / n < j / n ==> ground_rank(g[i / n]) < ground_rank(g[j / n]));
    }
}

/// Where the ground act of a set stands.
spec fn ground_rank(set: Seq<Act>) -> int {
    if set.len() == 0 {
        0
    } else if set[0] == Act::Declaim {
        3
    } else if set[0] == Act::Dismantle {
        6
    } else {
        9
    }
}

/// Where a set without heal stands on the menu.
#[verifier::spinoff_prover]
#[verifier::rlimit(60)]
proof fn lemma_rank_of_free(caps: ActorCaps, i: int)
    requires
        0 <= i < crossed(caps.grounds(), caps.shots()).len(),
    ensures
        ({
            let n = caps.shots().len() as int;
            &&& 0 <= i / n < caps.grounds().len()
            &&& 0 <= i % n < n <= 3
            &&& menu_rank(crossed(caps.grounds(), caps.shots())[i]) == ground_rank(caps.grounds()[i / n])
                + i % n
        }),
{
    let (g, s) = (caps.grounds(), caps.shots());
    let n = s.len() as int;
    lemma_crossed(g, s);
    let set = crossed(g, s)[i];
    assert(is_cell(g, s, i, set));
    lemma_rank_of_pair(g[i / n], s[i % n]);
}

/// Where a set with heal stands on the menu.
proof fn lemma_rank_of_healing(caps: ActorCaps, i: int)
    requires
        0 <= i < crossed(seq![seq![Act::Heal]], caps.shots()).len(),
    ensures
        menu_rank(crossed(seq![seq![Act::Heal]], caps.shots())[i]) == 12 + i,
        i < caps.shots().len() <= 3,
{
    let heal = seq![seq![Act::Heal]];
    let s = caps.shots();
    let n = s.len() as int;
    lemma_crossed(heal, s);
    let set = crossed(heal, s)[i];
    assert(is_cell(heal, s, i, set));
    assert(1 * n == n) by (nonlinear_arith);
    assert(i / n == 0 && i % n == i) by (nonlinear_arith)
        requires
            0 <= i < n,
    ;
    lemma_rank_of_pair(heal[0], s[i]);
}

/// What a ground act or heal and a shot rank together.
#[verifier::spinoff_prover]
#[verifier::rlimit(60)]
proof fn lemma_rank_of_pair(first: Seq<Act>, second: Seq<Act>)
    requires
        first.len() <= 1,
        second.len() <= 1,
        first.len() == 1 ==> first[0] == Act::Declaim || first[0] == Act::Dismantle || first[0]
            == Act::Melee || first[0] == Act::Heal,
        second.len() == 1 ==> second[0] == Act::Ranged || second[0] == Act::Rma,
    ensures
        menu_rank(first + second) == (if first.len() == 1 && first[0] == Act::Heal {
            12
        } else {
            ground_rank(first)
        }) + (if second.len() == 0 {
            0int
        } else if second[0] == Act::Ranged {
            1
        } else {
            2
        }),
{
    let set = first + second;
    assert forall|x: Act| set.contains(x) <==> (first.len() == 1 && first[0] == x) || (second.len() == 1
        && second[0] == x) by {
        if first.len() == 1 && first[0] == x {
            assert(set[0] == x);
        }
        if second.len() == 1 && second[0] == x {
            assert(set[first.len() as int] == x);
        }
        if set.contains(x) {
            let k = choose|k: int| 0 <= k < set.len() && set[k] == x;
            assert(k < first.len() ==> k == 0 && first[0] == x);
            assert(k >= first.len() ==> k == first.len() && second[0] == x);
        }
    }
}

/// Division keeps the order.
proof fn lemma_quotients_are_in_order(i: int, j: int, n: int)
    requires
        0 <= i < j,
        n > 0,
    ensures
        i / n < j / n || (i / n == j / n && i % n < j % n),
{
    vstd::arithmetic::div_mod::lemma_div_is_ordered(i, j, n);
    vstd::arithmetic::div_mod::lemma_fundamental_div_mod(i, n);
    vstd::arithmetic::div_mod::lemma_fundamental_div_mod(j, n);
}

}
