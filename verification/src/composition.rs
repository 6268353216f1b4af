//! What a squad looks like when all its members are spawned, and which one to field.
//!
//! [`assemble_force`] turns a [`RequiredForce`] into slots: as many members of each role as its
//! parts need, each a body of that role alone. [`optimize_composition`] searches a fixed set of
//! candidates and takes the one with the best expected value; [`pairing_ev`] values sending a squad
//! that exists to an objective. A probability of winning is read off a curve of what a side brings
//! against what it faces; the curve is the caller's.
use crate::bodies::{build_combat_body, CombatBodySpec, MoveProfile};
use crate::constants::{
    ATTACK_POWER, CREEP_LIFE_TIME, CREEP_SPAWN_TIME, DISMANTLE_POWER, HEAL_POWER, PART_HITS,
    RANGED_ATTACK_POWER,
};
use crate::doctrine::{
    emit_requirement, seen_or_nobody, DoctrineObjective, EnemyCoordination, EnemyForce,
    DEFAULT_FLOOR_PARTS,
};
use crate::fixed::{div_up, to_i64, to_u32, Micro, Milli, Probability, CERTAIN};
use crate::force_sizing::{
    tower_dps_at_assault, win_probability, DefenseProfile, ForceBudget, RequiredForce, TowerThreat,
    COORDINATED_DPS_MARGIN, HOLD_MARGIN,
};
use crate::parts::{part_cost, Part};
use vstd::prelude::*;

verus! {

/// The most members that a squad may have.
pub const MAX_SIZED_MEMBERS: usize = 8;

/// The most parts of one kind that a member carries: with a MOVE for each, fifty parts in all.
pub const MAX_SINGLE_ROLE_PARTS: u32 = 25;

/// The most energy that a member is planned with, so that it can be saved up for while the economy
/// draws on the same store: a force is split over more, smaller members.
pub const PREFERRED_MEMBER_ENERGY: u32 = 3000;

/// HP share below which a squad retreats, unless its objective says otherwise.
pub const DEFAULT_RETREAT_THRESHOLD: Milli = 300;

/// The role of a creep in its squad.
#[derive(Clone, Copy, Debug, PartialEq, Eq, Structural)]
pub enum SquadRole {
    /// Takes the damage, with TOUGH.
    Tank,
    /// Heals, with HEAL.
    Healer,
    /// Shoots, with RANGED_ATTACK.
    RangedDPS,
    /// Strikes, with ATTACK.
    MeleeDPS,
    /// Takes structures apart, with WORK.
    Dismantler,
    /// Carries, with CARRY.
    Hauler,
    /// Takes controllers from their owners, with CLAIM.
    Declaimer,
}

impl Default for SquadRole {
    fn default() -> (role: Self)
        ensures
            role == SquadRole::RangedDPS,
    {
        SquadRole::RangedDPS
    }
}

impl SquadRole {
    /// The part that the role is about.
    pub open spec fn part(&self) -> Part {
        match self {
            SquadRole::Tank => Part::Tough,
            SquadRole::Healer => Part::Heal,
            SquadRole::RangedDPS => Part::RangedAttack,
            SquadRole::MeleeDPS => Part::Attack,
            SquadRole::Dismantler => Part::Work,
            SquadRole::Hauler => Part::Carry,
            SquadRole::Declaimer => Part::Claim,
        }
    }

    /// The name of the role.
    pub open spec fn title(&self) -> Seq<char> {
        match self {
            SquadRole::Tank => "Tank"@,
            SquadRole::Healer => "Healer"@,
            SquadRole::RangedDPS => "RangedDPS"@,
            SquadRole::MeleeDPS => "MeleeDPS"@,
            SquadRole::Dismantler => "Dismantler"@,
            SquadRole::Hauler => "Hauler"@,
            SquadRole::Declaimer => "Declaimer"@,
        }
    }

    /// The name of the role.
    fn name(&self) -> (name: &'static str)
        ensures
            name@ == self.title(),
    {
        match self {
            SquadRole::Tank => "Tank",
            SquadRole::Healer => "Healer",
            SquadRole::RangedDPS => "RangedDPS",
            SquadRole::MeleeDPS => "MeleeDPS",
            SquadRole::Dismantler => "Dismantler",
            SquadRole::Hauler => "Hauler",
            SquadRole::Declaimer => "Declaimer",
        }
    }
}

/// `screeps::ResourceType`: a resource of the game; only handed on.
#[verifier::external_type_specification]
#[verifier::external_body]
pub struct ExResourceType(screeps::ResourceType);

/// How the body of a slot is made: from the part counts that the force needs.
#[derive(Clone, Copy, Debug, PartialEq, Eq, Structural)]
pub enum BodyType {
    Sized(CombatBodySpec),
}

impl BodyType {
    /// The part counts.
    pub open spec fn spec(&self) -> CombatBodySpec {
        self->Sized_0
    }

    /// The parts of the body on plains: a MOVE for each other part.
    pub open spec fn size(&self) -> int {
        2 * self.spec().weight()
    }

    /// The energy of the body on plains.
    pub open spec fn energy(&self) -> int {
        self.spec().energy(self.spec().weight())
    }

    /// The body with the MOVE that `move_profile` asks for, or none where it does not fit one creep
    /// or `max_energy`.
    pub fn build_body(&self, max_energy: u32, move_profile: MoveProfile) -> (r: Option<Vec<Part>>)
        ensures
            r is Some <==> crate::bodies::fits(self.spec(), move_profile, max_energy as int),
            r matches Some(body) ==> body@ == crate::bodies::combat_body(self.spec(), move_profile),
    {
        match self {
            BodyType::Sized(spec) => build_combat_body(spec, move_profile, max_energy),
        }
    }

    /// The energy of the body on plains. A sized body does not depend on the energy at hand.
    #[verifier::spinoff_prover]
    #[verifier::rlimit(80)]
    pub fn estimated_cost(&self, _max_energy: u32) -> (energy: u32)
        requires
            self.energy() <= u32::MAX,
        ensures
            energy == self.energy(),
    {
        match self {
            BodyType::Sized(spec) => {
                let moves: u32 = MoveProfile::Plains.move_parts(spec.non_move_parts());
                spec.tough * part_cost(Part::Tough) + spec.attack * part_cost(Part::Attack)
                    + spec.ranged_attack * part_cost(Part::RangedAttack) + spec.work * part_cost(
                    Part::Work,
                ) + spec.carry * part_cost(Part::Carry) + spec.heal * part_cost(Part::Heal)
                    + spec.claim * part_cost(Part::Claim) + moves * part_cost(Part::Move)
            },
        }
    }

    /// The number of parts of the body on plains.
    pub fn estimated_part_count(&self, _max_energy: u32) -> (parts: u32)
        requires
            self.size() <= u32::MAX,
        ensures
            parts == self.size(),
    {
        match self {
            BodyType::Sized(spec) => spec.non_move_parts() + MoveProfile::Plains.move_parts(
                spec.non_move_parts(),
            ),
        }
    }

    /// How many of the parts of the body on plains are `part`.
    pub fn part_count(&self, _max_energy: u32, part: Part) -> (parts: u32)
        requires
            self.spec().weight() <= u32::MAX,
        ensures
            parts == if part == Part::Move {
                self.spec().weight()
            } else {
                self.spec().parts_of(part)
            },
    {
        match self {
            BodyType::Sized(spec) => match part {
                Part::Tough => spec.tough,
                Part::Attack => spec.attack,
                Part::RangedAttack => spec.ranged_attack,
                Part::Work => spec.work,
                Part::Carry => spec.carry,
                Part::Heal => spec.heal,
                Part::Claim => spec.claim,
                Part::Move => MoveProfile::Plains.move_parts(spec.non_move_parts()),
            },
        }
    }

    /// The boosts of the body: a sized body has none.
    pub fn required_boosts(&self) -> (boosts: Vec<(screeps::ResourceType, u32)>)
        ensures
            boosts@.len() == 0,
    {
        Vec::new()
    }
}

/// One member of a squad.
#[derive(Clone, Copy, Debug, PartialEq, Eq, Structural)]
pub struct SquadSlot {
    pub role: SquadRole,
    pub body_type: BodyType,
}

/// The shape that a squad holds.
#[derive(Clone, Copy, Debug, PartialEq, Eq, Structural)]
pub enum FormationShape {
    Free,
    Line,
    /// The compact box of [`box_footprint`].
    Box2x2,
    Triangle,
    WideLine,
}

impl Default for FormationShape {
    fn default() -> (shape: Self)
        ensures
            shape == FormationShape::Free,
    {
        FormationShape::Free
    }
}

/// How a squad moves.
#[derive(Clone, Copy, Debug, PartialEq, Eq, Structural)]
pub enum FormationMode {
    /// It advances only when all members are in formation.
    Strict,
    /// It advances with the center of its members.
    Loose,
}

impl Default for FormationMode {
    fn default() -> (mode: Self)
        ensures
            mode == FormationMode::Strict,
    {
        FormationMode::Strict
    }
}

/// What a squad looks like when all its members are spawned.
#[derive(Clone, Debug)]
pub struct SquadComposition {
    /// A label to read.
    pub label: String,
    pub slots: Vec<SquadSlot>,
    pub formation_shape: FormationShape,
    pub formation_mode: FormationMode,
    /// The HP share, in thousandths, below which the squad retreats.
    pub retreat_threshold: Milli,
}

// ---------------------------------------------------------------------------------------------
// Formation.
// ---------------------------------------------------------------------------------------------

/// The compact box, as width and height, that holds `n` members: the narrowest whose square would
/// hold them, and then as low as it can be. For no members it is one tile.
pub fn box_footprint(n: usize) -> (r: (u8, u8))
    requires
        n <= 255 * 255,
    ensures
        r.0 >= 1 && r.1 >= 1,
        r.0 * r.0 >= n,
        forall|w: int| 1 <= w < r.0 ==> #[trigger] (w * w) < n,
        r.0 * r.1 >= n,
        n >= 1 ==> r.0 * (r.1 - 1) < n,
        n == 0 ==> r == (1u8, 1u8),
        r.1 <= r.0,
{
    let n: usize = if n > 1 { n } else { 1 };
    let mut width: usize = 1;
    while width * width < n
        invariant
            1 <= width <= 255,
            1 <= n <= 255 * 255,
            forall|w: int| 1 <= w < width ==> #[trigger] (w * w) < n,
            width * width <= 255 * 255,
        decreases 256 - width,
    {
        assert(width < 255) by (nonlinear_arith)
            requires
                width * width < n,
                n <= 255 * 255,
                1 <= width <= 255,
        ;
        assert((width + 1) * (width + 1) <= 255 * 255) by (nonlinear_arith)
            requires
                0 <= width < 255,
        ;
        width = width + 1;
    }
    let height: usize = (n + width - 1) / width;
    proof {
        if width > 1 {
            let w: int = 1;
            assert(w * w < n);
        }
        let (a, w, h) = (n as int, width as int, height as int);
        vstd::arithmetic::div_mod::lemma_fundamental_div_mod(a + w - 1, w);
        let r = (a + w - 1) % w;
        assert(w * h >= a && w * (h - 1) < a) by (nonlinear_arith)
            requires
                a + w - 1 == w * h + r,
                0 <= r < w,
        ;
        assert(1 <= h <= w) by (nonlinear_arith)
            requires
                w * (h - 1) < a,
                w * h >= a,
                a <= w * w,
                a >= 1,
                w >= 1,
        ;
    }
    assert(forall|w: int| 1 <= w < width ==> #[trigger] (w * w) < n);
    (width as u8, height as u8)
}

/// The formation of a squad of `count`: one alone roams, two hold a line, more hold a box.
pub open spec fn formation_of(count: int) -> (FormationShape, FormationMode) {
    if count <= 1 {
        (FormationShape::Free, FormationMode::Loose)
    } else if count == 2 {
        (FormationShape::Line, FormationMode::Strict)
    } else {
        (FormationShape::Box2x2, FormationMode::Strict)
    }
}

/// The formation of a squad of `count` members.
pub fn formation_for(count: usize) -> (f: (FormationShape, FormationMode))
    ensures
        f == formation_of(count as int),
{
    if count <= 1 {
        (FormationShape::Free, FormationMode::Loose)
    } else if count == 2 {
        (FormationShape::Line, FormationMode::Strict)
    } else {
        (FormationShape::Box2x2, FormationMode::Strict)
    }
}

// ---------------------------------------------------------------------------------------------
// Label.
// ---------------------------------------------------------------------------------------------

/// A digit, as text.
pub open spec fn digit(d: int) -> Seq<char> {
    if d == 0 {
        "0"@
    } else if d == 1 {
        "1"@
    } else if d == 2 {
        "2"@
    } else if d == 3 {
        "3"@
    } else if d == 4 {
        "4"@
    } else if d == 5 {
        "5"@
    } else if d == 6 {
        "6"@
    } else if d == 7 {
        "7"@
    } else if d == 8 {
        "8"@
    } else {
        "9"@
    }
}

/// A number, as text.
pub open spec fn decimal(n: nat) -> Seq<char>
    decreases n,
{
    if n < 10 {
        digit(n as int)
    } else {
        decimal(n / 10) + digit((n % 10) as int)
    }
}

/// How many slots from the first on have its role.
pub open spec fn first_run(slots: Seq<SquadSlot>) -> nat
    decreases slots.len(),
{
    if slots.len() == 0 {
        0
    } else if slots.len() == 1 || slots[1].role != slots[0].role {
        1
    } else {
        1 + first_run(slots.skip(1))
    }
}

/// The runs of equal roles, each as its length and role.
pub open spec fn tally(slots: Seq<SquadSlot>) -> Seq<char>
    decreases slots.len(),
{
    if slots.len() == 0 {
        Seq::empty()
    } else {
        proof {
            lemma_run_is_within(slots);
        }
        let n = first_run(slots);
        let run = decimal(n) + "×"@ + slots[0].role.title();
        if n >= slots.len() {
            run
        } else {
            run + " "@ + tally(slots.skip(n as int))
        }
    }
}

/// A run starts with the first slot, and ends with the last at the latest.
pub proof fn lemma_run_is_within(slots: Seq<SquadSlot>)
    requires
        slots.len() > 0,
    ensures
        1 <= first_run(slots) <= slots.len(),
    decreases slots.len(),
{
    if slots.len() > 1 && slots[1].role == slots[0].role {
        lemma_run_is_within(slots.skip(1));
    }
}

/// The label of a squad: its tally.
pub open spec fn label_of(slots: Seq<SquadSlot>) -> Seq<char> {
    "Assembled "@ + tally(slots)
}

/// Appends a digit.
fn push_digit(text: &mut String, d: usize)
    requires
        d < 10,
    ensures
        final(text)@ == old(text)@ + digit(d as int),
{
    let t = match d {
        0 => "0",
        1 => "1",
        2 => "2",
        3 => "3",
        4 => "4",
        5 => "5",
        6 => "6",
        7 => "7",
        8 => "8",
        _ => "9",
    };
    text.append(t);
}

/// Appends a number.
fn push_decimal(text: &mut String, n: usize)
    ensures
        final(text)@ == old(text)@ + decimal(n as nat),
    decreases n,
{
    let ghost before = text@;
    if n >= 10 {
        push_decimal(text, n / 10);
        push_digit(text, n % 10);
        assert(text@ =~= before + decimal(n as nat));
    } else {
        push_digit(text, n);
    }
}

/// A tally of roles in the order of the slots, such as "Assembled 2×Healer 1×RangedDPS".
fn assembled_label(slots: &Vec<SquadSlot>) -> (label: String)
    ensures
        label@ == label_of(slots@),
{
    let mut label = String::from_str("Assembled ");
    let mut i: usize = 0;
    assert(slots@.skip(0) =~= slots@);
    while i < slots.len()
        invariant
            i <= slots@.len(),
            label@ + tally(slots@.skip(i as int)) =~= label_of(slots@),
        decreases slots@.len() - i,
    {
        let ghost rest = slots@.skip(i as int);
        let ghost before = label@;
        let role = slots[i].role;
        let mut n: usize = 1;
        assert(rest.skip(0) =~= rest);
        while n < slots.len() - i && slots[i + n].role == role
            invariant
                0 < n <= slots@.len() - i,
                i < slots@.len(),
                rest == slots@.skip(i as int),
                rest[n - 1].role == role,
                first_run(rest) == n - 1 + first_run(rest.skip(n - 1)),
            decreases slots@.len() - i - n,
        {
            assert(rest[n as int] == slots@[i + n]);
            assert(rest.skip(n - 1).skip(1) =~= rest.skip(n as int));
            n = n + 1;
        }
        proof {
            if i + n < slots.len() {
                assert(rest[n as int] == slots@[i + n]);
            }
            assert(first_run(rest.skip(n - 1)) == 1);
            assert(rest.skip(n as int) =~= slots@.skip(i + n));
        }
        push_decimal(&mut label, n);
        label.append("×");
        label.append(role.name());
        if i + n < slots.len() {
            label.append(" ");
        } else {
            assert(tally(slots@.skip(i + n)) =~= Seq::<char>::empty());
        }
        assert(label@ + tally(slots@.skip(i + n)) =~= before + tally(rest));
        i = i + n;
    }
    assert(tally(slots@.skip(i as int)) =~= Seq::<char>::empty());
    label
}

// ---------------------------------------------------------------------------------------------
// Cost, time and strength.
// ---------------------------------------------------------------------------------------------

/// The energy of all bodies.
pub open spec fn squad_energy(slots: Seq<SquadSlot>) -> int
    decreases slots.len(),
{
    if slots.len() == 0 {
        0
    } else {
        squad_energy(slots.drop_last()) + slots.last().body_type.energy()
    }
}

/// The parts of all bodies.
pub open spec fn squad_size(slots: Seq<SquadSlot>) -> int
    decreases slots.len(),
{
    if slots.len() == 0 {
        0
    } else {
        squad_size(slots.drop_last()) + slots.last().body_type.size()
    }
}

/// What all members heal per tick.
pub open spec fn squad_heal(slots: Seq<SquadSlot>) -> int
    decreases slots.len(),
{
    if slots.len() == 0 {
        0
    } else {
        squad_heal(slots.drop_last()) + slots.last().body_type.spec().heal * HEAL_POWER
    }
}

/// What a body takes off a structure per tick.
pub open spec fn body_damage(spec: CombatBodySpec) -> int {
    spec.work * DISMANTLE_POWER + spec.attack * ATTACK_POWER + spec.ranged_attack
        * RANGED_ATTACK_POWER
}

/// What all members take off a structure per tick.
pub open spec fn squad_damage(slots: Seq<SquadSlot>) -> int
    decreases slots.len(),
{
    if slots.len() == 0 {
        0
    } else {
        squad_damage(slots.drop_last()) + body_damage(slots.last().body_type.spec())
    }
}

/// The hits of the member that has most.
pub open spec fn squad_tank_hits(slots: Seq<SquadSlot>) -> int
    decreases slots.len(),
{
    if slots.len() == 0 {
        0
    } else {
        crate::fixed::max_of(
            squad_tank_hits(slots.drop_last()),
            slots.last().body_type.size() * PART_HITS,
        )
    }
}

/// What a squad does per tick, and the hits of its toughest member.
#[derive(Clone, Copy, Debug, PartialEq, Eq, Structural)]
pub struct SquadCapabilities {
    /// What it heals.
    pub heal_per_tick: u32,
    /// What it takes off structures: WORK, ATTACK and RANGED_ATTACK together.
    pub structure_dps: u32,
    /// The hits of the member that has most.
    pub tank_effective_hp: u32,
}

impl Default for SquadCapabilities {
    fn default() -> (caps: Self)
        ensures
            caps == (SquadCapabilities { heal_per_tick: 0, structure_dps: 0, tank_effective_hp: 0 }),
    {
        SquadCapabilities { heal_per_tick: 0, structure_dps: 0, tank_effective_hp: 0 }
    }
}

/// The strength of a squad.
pub open spec fn strength(slots: Seq<SquadSlot>) -> SquadCapabilities {
    SquadCapabilities {
        heal_per_tick: squad_heal(slots) as u32,
        structure_dps: squad_damage(slots) as u32,
        tank_effective_hp: squad_tank_hits(slots) as u32,
    }
}

/// The numbers of a squad's strength are numbers of 32 bits.
pub open spec fn strength_fits(slots: Seq<SquadSlot>) -> bool {
    &&& squad_heal(slots) <= u32::MAX
    &&& squad_damage(slots) <= u32::MAX
    &&& squad_tank_hits(slots) <= u32::MAX
}

/// Fewer members are no stronger, dearer or larger.
proof fn lemma_prefix_is_weaker(slots: Seq<SquadSlot>, k: int)
    requires
        0 <= k <= slots.len(),
    ensures
        0 <= squad_heal(slots.take(k)) <= squad_heal(slots),
        0 <= squad_damage(slots.take(k)) <= squad_damage(slots),
        0 <= squad_tank_hits(slots.take(k)) <= squad_tank_hits(slots),
        0 <= squad_energy(slots.take(k)) <= squad_energy(slots),
        0 <= squad_size(slots.take(k)) <= squad_size(slots),
    decreases slots.len(),
{
    if k == slots.len() {
        assert(slots.take(k) =~= slots);
        if k > 0 {
            lemma_prefix_is_weaker(slots.drop_last(), k - 1);
            assert(slots.drop_last().take(k - 1) =~= slots.drop_last());
        }
    } else {
        lemma_prefix_is_weaker(slots.drop_last(), k);
        assert(slots.drop_last().take(k) =~= slots.take(k));
    }
}

/// The numbers of `counts`, largest first.
pub open spec fn is_sorted_from(sorted: Seq<u32>, counts: Seq<u32>) -> bool {
    &&& sorted.to_multiset() == counts.to_multiset()
    &&& forall|i: int, j: int| 0 <= i <= j < sorted.len() ==> sorted[i] >= sorted[j]
}

/// The first of the lanes that are free first.
pub open spec fn first_free(lanes: Seq<u32>) -> int
    decreases lanes.len(),
{
    if lanes.len() <= 1 {
        0
    } else {
        let before = first_free(lanes.drop_last());
        if lanes.last() < lanes[before] {
            lanes.len() - 1
        } else {
            before
        }
    }
}

/// The ticks that each of `n` spawns is busy when the bodies are spawned in order, each by the first
/// spawn that is free first.
pub open spec fn lanes_after(counts: Seq<u32>, n: int) -> Seq<u32>
    decreases counts.len(),
{
    if counts.len() == 0 {
        Seq::new(n as nat, |i: int| 0u32)
    } else {
        let lanes = lanes_after(counts.drop_last(), n);
        let lane = first_free(lanes);
        lanes.update(lane, (lanes[lane] + counts.last() * CREEP_SPAWN_TIME) as u32)
    }
}

/// The largest of the numbers.
pub open spec fn largest(s: Seq<u32>) -> int
    decreases s.len(),
{
    if s.len() == 0 {
        0
    } else {
        crate::fixed::max_of(largest(s.drop_last()), s.last() as int)
    }
}

/// The sizes of the bodies.
pub open spec fn body_sizes(slots: Seq<SquadSlot>) -> Seq<u32> {
    Seq::new(slots.len(), |i: int| slots[i].body_type.size() as u32)
}

/// `ticks` is how long spawning takes when the largest bodies go first.
pub open spec fn is_spawn_time(slots: Seq<SquadSlot>, spawns: int, ticks: int) -> bool {
    if spawns == 0 || slots.len() == 0 {
        ticks == u32::MAX
    } else {
        exists|sorted: Seq<u32>| #[trigger]
            is_sorted_from(sorted, body_sizes(slots)) && ticks == largest(
                lanes_after(sorted, spawns),
            )
    }
}

/// The number of the first lane that is free first.
fn earliest(lanes: &Vec<u32>) -> (lane: usize)
    requires
        lanes@.len() > 0,
    ensures
        lane == first_free(lanes@),
        lane < lanes@.len(),
{
    let mut lane: usize = 0;
    let mut i: usize = 1;
    assert(lanes@.take(1).len() == 1);
    while i < lanes.len()
        invariant
            1 <= i <= lanes@.len(),
            lane < i,
            lane == first_free(lanes@.take(i as int)),
        decreases lanes@.len() - i,
    {
        assert(lanes@.take(i + 1).drop_last() =~= lanes@.take(i as int));
        if lanes[i] < lanes[lane] {
            lane = i;
        }
        i = i + 1;
    }
    assert(lanes@.take(i as int) =~= lanes@);
    lane
}

/// Sorts numbers, largest first.
fn sort_descending(counts: &Vec<u32>) -> (sorted: Vec<u32>)
    ensures
        is_sorted_from(sorted@, counts@),
        sorted@.len() == counts@.len(),
{
    let mut sorted: Vec<u32> = Vec::new();
    let mut i: usize = 0;
    proof {
        broadcast use vstd::seq_lib::group_to_multiset_ensures;

        assert(counts@.take(0) =~= Seq::<u32>::empty());
    }
    while i < counts.len()
        invariant
            i <= counts@.len(),
            sorted@.len() == i,
            is_sorted_from(sorted@, counts@.take(i as int)),
        decreases counts@.len() - i,
    {
        let n: u32 = counts[i];
        let mut at: usize = sorted.len();
        while at > 0 && sorted[at - 1] < n
            invariant
                at <= sorted@.len(),
                forall|k: int| at <= k < sorted@.len() ==> #[trigger] sorted@[k] < n,
            decreases at,
        {
            at = at - 1;
        }
        let ghost before = sorted@;
        sorted.insert(at, n);
        proof {
            broadcast use vstd::seq_lib::group_to_multiset_ensures;

            assert(counts@.take(i + 1) =~= counts@.take(i as int).push(n));
            assert(sorted@ == before.insert(at as int, n));
            assert(sorted@.to_multiset() =~= before.to_multiset().insert(n)) by {
                assert(sorted@.remove(at as int) =~= before);
                assert(sorted@[at as int] == n);
                assert(sorted@.contains(n));
                vstd::seq_lib::to_multiset_remove(sorted@, at as int);
            }
            assert forall|a: int, b: int| 0 <= a <= b < sorted@.len() implies sorted@[a]
                >= sorted@[b] by {
                let a0 = if a < at { a } else { a - 1 };
                let b0 = if b < at { b } else { b - 1 };
                if a != at && b != at {
                    assert(before[a0] >= before[b0]);
                } else if a != at {
                    assert(before[a0] >= before[at - 1]);
                } else if b != at {
                    assert(before[b0] < n);
                }
            }
        }
        i = i + 1;
    }
    assert(counts@.take(i as int) =~= counts@);
    sorted
}

impl SquadComposition {
    /// The energy of all bodies on plains.
    #[verifier::spinoff_prover]
    #[verifier::rlimit(40)]
    pub fn estimated_cost(&self, energy_capacity: u32) -> (energy: u32)
        requires
            squad_energy(self.slots@) <= u32::MAX,
        ensures
            energy == squad_energy(self.slots@),
    {
        let mut energy: u32 = 0;
        let mut i: usize = 0;
        while i < self.slots.len()
            invariant
                i <= self.slots@.len(),
                squad_energy(self.slots@) <= u32::MAX,
                energy == squad_energy(self.slots@.take(i as int)),
            decreases self.slots@.len() - i,
        {
            proof {
                assert(self.slots@.take(i + 1).drop_last() =~= self.slots@.take(i as int));
                lemma_prefix_is_weaker(self.slots@, i + 1);
                lemma_prefix_is_weaker(self.slots@, i as int);
                assert(self.slots@.take(i + 1).last() == self.slots@[i as int]);
            }
            energy = energy + self.slots[i].body_type.estimated_cost(energy_capacity);
            i = i + 1;
        }
        assert(self.slots@.take(i as int) =~= self.slots@);
        energy
    }

    /// Ticks that spawning all members takes with `available_spawns` spawns at work, the largest
    /// bodies first; without spawns or members, it never ends.
    pub fn estimated_spawn_time(&self, energy_capacity: u32, available_spawns: u32) -> (ticks: u32)
        requires
            squad_size(self.slots@) * CREEP_SPAWN_TIME <= u32::MAX,
            available_spawns <= usize::MAX,
        ensures
            is_spawn_time(self.slots@, available_spawns as int, ticks as int),
    {
        if available_spawns == 0 || self.slots.len() == 0 {
            return u32::MAX;
        }
        let mut counts: Vec<u32> = Vec::new();
        let mut i: usize = 0;
        while i < self.slots.len()
            invariant
                i <= self.slots@.len(),
                squad_size(self.slots@) * CREEP_SPAWN_TIME <= u32::MAX,
                counts@ =~= body_sizes(self.slots@).take(i as int),
                total(counts@) == squad_size(self.slots@.take(i as int)),
            decreases self.slots@.len() - i,
        {
            proof {
                assert(self.slots@.take(i + 1).drop_last() =~= self.slots@.take(i as int));
                lemma_prefix_is_weaker(self.slots@, i + 1);
                lemma_prefix_is_weaker(self.slots@, i as int);
            }
            let n: u32 = self.slots[i].body_type.estimated_part_count(energy_capacity);
            let ghost before = counts@;
            counts.push(n);
            assert(counts@.drop_last() =~= before);
            i = i + 1;
        }
        assert(counts@ =~= body_sizes(self.slots@));
        assert(self.slots@.take(i as int) =~= self.slots@);
        let sorted = sort_descending(&counts);
        proof {
            lemma_total_of_multiset(sorted@, counts@);
        }
        let mut lanes: Vec<u32> = Vec::new();
        let mut k: u32 = 0;
        while k < available_spawns
            invariant
                k <= available_spawns,
                lanes@ =~= Seq::new(k as nat, |i: int| 0u32),
            decreases available_spawns - k,
        {
            lanes.push(0);
            k = k + 1;
        }
        let mut j: usize = 0;
        assert(sorted@.take(0).len() == 0);
        while j < sorted.len()
            invariant
                j <= sorted@.len(),
                available_spawns > 0,
                lanes@.len() == available_spawns,
                lanes@ == lanes_after(sorted@.take(j as int), available_spawns as int),
                total(sorted@) * CREEP_SPAWN_TIME <= u32::MAX,
                forall|l: int|
                    0 <= l < lanes@.len() ==> #[trigger] lanes@[l] <= total(sorted@.take(j as int))
                        * CREEP_SPAWN_TIME,
            decreases sorted@.len() - j,
        {
            proof {
                assert(sorted@.take(j + 1).drop_last() =~= sorted@.take(j as int));
                lemma_total_of_prefix(sorted@, j + 1);
                lemma_total_of_prefix(sorted@, j as int);
            }
            let lane: usize = earliest(&lanes);
            let busy: u32 = lanes[lane] + sorted[j] * CREEP_SPAWN_TIME;
            lanes.set(lane, busy);
            j = j + 1;
        }
        assert(sorted@.take(j as int) =~= sorted@);
        let mut longest: u32 = 0;
        let mut l: usize = 0;
        while l < lanes.len()
            invariant
                l <= lanes@.len(),
                longest == largest(lanes@.take(l as int)),
            decreases lanes@.len() - l,
        {
            assert(lanes@.take(l + 1).drop_last() =~= lanes@.take(l as int));
            if lanes[l] > longest {
                longest = lanes[l];
            }
            l = l + 1;
        }
        assert(lanes@.take(l as int) =~= lanes@);
        assert(is_sorted_from(sorted@, body_sizes(self.slots@)));
        longest
    }

    /// Ticks of a creep's life that are left for combat after spawning and `travel_ticks` of travel.
    pub fn estimated_combat_time(
        &self,
        travel_ticks: u32,
        energy_capacity: u32,
        available_spawns: u32,
    ) -> (ticks: u32)
        requires
            squad_size(self.slots@) * CREEP_SPAWN_TIME <= u32::MAX,
            available_spawns <= usize::MAX,
        ensures
            exists|spawning: int| #[trigger]
                is_spawn_time(self.slots@, available_spawns as int, spawning) && ticks
                    == crate::fixed::max_of(CREEP_LIFE_TIME - spawning - travel_ticks, 0),
    {
        let spawning: u32 = self.estimated_spawn_time(energy_capacity, available_spawns);
        assert(is_spawn_time(self.slots@, available_spawns as int, spawning as int));
        CREEP_LIFE_TIME.saturating_sub(spawning.saturating_add(travel_ticks))
    }

    /// Whether a squad that travels `travel_ticks` has more than two fifths of a creep's life left
    /// for combat.
    pub fn is_viable_from(
        &self,
        travel_ticks: u32,
        energy_capacity: u32,
        available_spawns: u32,
    ) -> (viable: bool)
        requires
            squad_size(self.slots@) * CREEP_SPAWN_TIME <= u32::MAX,
            available_spawns <= usize::MAX,
        ensures
            exists|spawning: int| #[trigger]
                is_spawn_time(self.slots@, available_spawns as int, spawning) && viable == (5 * (
                CREEP_LIFE_TIME - spawning - travel_ticks) > 2 * CREEP_LIFE_TIME),
    {
        let left: u32 = self.estimated_combat_time(travel_ticks, energy_capacity, available_spawns);
        left as u64 * 5 > CREEP_LIFE_TIME as u64 * 2
    }

    /// The boosts of all members, each compound once.
    pub fn required_boosts(&self) -> (boosts: Vec<(screeps::ResourceType, u32)>)
        ensures
            boosts@.len() == 0,
    {
        let mut boosts: Vec<(screeps::ResourceType, u32)> = Vec::new();
        let mut i: usize = 0;
        while i < self.slots.len()
            invariant
                i <= self.slots@.len(),
                boosts@.len() == 0,
            decreases self.slots@.len() - i,
        {
            let mut wanted = self.slots[i].body_type.required_boosts();
            boosts.append(&mut wanted);
            i = i + 1;
        }
        boosts
    }

    /// The number of members.
    pub fn member_count(&self) -> (n: usize)
        ensures
            n == self.slots@.len(),
    {
        self.slots.len()
    }

    /// What the squad does per tick, and the hits of its toughest member.
    pub fn capabilities(&self, max_energy: u32) -> (caps: SquadCapabilities)
        requires
            strength_fits(self.slots@),
        ensures
            caps == strength(self.slots@),
    {
        let mut heal_per_tick: u32 = 0;
        let mut structure_dps: u32 = 0;
        let mut tank_effective_hp: u32 = 0;
        let mut i: usize = 0;
        while i < self.slots.len()
            invariant
                i <= self.slots@.len(),
                strength_fits(self.slots@),
                heal_per_tick == squad_heal(self.slots@.take(i as int)),
                structure_dps == squad_damage(self.slots@.take(i as int)),
                tank_effective_hp == squad_tank_hits(self.slots@.take(i as int)),
            decreases self.slots@.len() - i,
        {
            proof {
                assert(self.slots@.take(i + 1).drop_last() =~= self.slots@.take(i as int));
                lemma_prefix_is_weaker(self.slots@, i + 1);
                lemma_prefix_is_weaker(self.slots@, i as int);
            }
            let body = self.slots[i].body_type;
            assert(body == self.slots@.take(i + 1).last().body_type);
            heal_per_tick = heal_per_tick + body.part_count(max_energy, Part::Heal) * HEAL_POWER;
            structure_dps = structure_dps + (body.part_count(max_energy, Part::Work)
                * DISMANTLE_POWER + body.part_count(max_energy, Part::Attack) * ATTACK_POWER
                + body.part_count(max_energy, Part::RangedAttack) * RANGED_ATTACK_POWER);
            let hits: u32 = body.estimated_part_count(max_energy) * PART_HITS;
            if hits > tank_effective_hp {
                tank_effective_hp = hits;
            }
            i = i + 1;
        }
        assert(self.slots@.take(i as int) =~= self.slots@);
        SquadCapabilities { heal_per_tick, structure_dps, tank_effective_hp }
    }

    /// What the squad could bring to a target where it has `onsite_budget_ticks`.
    pub fn force_budget(&self, member_energy: u32, onsite_budget_ticks: u32) -> (budget: ForceBudget)
        requires
            strength_fits(self.slots@),
        ensures
            budget.max_heal_per_tick == 1000 * squad_heal(self.slots@),
            budget.max_dismantle_dps == 1000 * squad_damage(self.slots@),
            budget.tank_effective_hp == 1000 * squad_tank_hits(self.slots@),
            budget.onsite_budget_ticks == onsite_budget_ticks,
    {
        let caps = self.capabilities(member_energy);
        proof {
            lemma_prefix_is_weaker(self.slots@, 0);
        }
        ForceBudget {
            max_heal_per_tick: caps.heal_per_tick as i64 * 1000,
            max_dismantle_dps: caps.structure_dps as i64 * 1000,
            tank_effective_hp: caps.tank_effective_hp as i64 * 1000,
            onsite_budget_ticks,
        }
    }
}

/// The sum of the numbers.
pub open spec fn total(s: Seq<u32>) -> int
    decreases s.len(),
{
    if s.len() == 0 {
        0
    } else {
        total(s.drop_last()) + s.last()
    }
}

/// Fewer numbers sum up to no more.
proof fn lemma_total_of_prefix(s: Seq<u32>, k: int)
    requires
        0 <= k <= s.len(),
    ensures
        0 <= total(s.take(k)) <= total(s),
    decreases s.len(),
{
    if k == s.len() {
        assert(s.take(k) =~= s);
        if k > 0 {
            lemma_total_of_prefix(s.drop_last(), k - 1);
            assert(s.drop_last().take(k - 1) =~= s.drop_last());
        }
    } else {
        lemma_total_of_prefix(s.drop_last(), k);
        assert(s.drop_last().take(k) =~= s.take(k));
    }
}

/// A number left out is missing from the sum.
proof fn lemma_total_of_remove(s: Seq<u32>, i: int)
    requires
        0 <= i < s.len(),
    ensures
        total(s) == total(s.remove(i)) + s[i],
    decreases s.len(),
{
    if i == s.len() - 1 {
        assert(s.remove(i) =~= s.drop_last());
    } else {
        lemma_total_of_remove(s.drop_last(), i);
        assert(s.remove(i).drop_last() =~= s.drop_last().remove(i));
    }
}

/// The sum does not depend on the order.
proof fn lemma_total_of_multiset(a: Seq<u32>, b: Seq<u32>)
    requires
        a.to_multiset() == b.to_multiset(),
    ensures
        total(a) == total(b),
    decreases a.len(),
{
    broadcast use vstd::seq_lib::group_to_multiset_ensures;

    assert(a.len() == a.to_multiset().len());
    assert(b.len() == b.to_multiset().len());
    if a.len() > 0 {
        let x = a.last();
        assert(a.to_multiset().count(x) > 0) by {
            assert(a.contains(x));
        }
        assert(b.contains(x));
        let j = choose|j: int| 0 <= j < b.len() && b[j] == x;
        let rest = b.remove(j);
        vstd::seq_lib::to_multiset_remove(b, j);
        vstd::seq_lib::to_multiset_remove(a, a.len() - 1);
        assert(a.remove(a.len() - 1) =~= a.drop_last());
        lemma_total_of_multiset(a.drop_last(), rest);
        lemma_total_of_remove(b, j);
    }
}

// ---------------------------------------------------------------------------------------------
// Assembly.
// ---------------------------------------------------------------------------------------------

impl SquadRole {
    /// A body of `n` parts of the role, and nothing else.
    pub open spec fn body(&self, n: u32) -> CombatBodySpec {
        let none = CombatBodySpec {
            tough: 0,
            attack: 0,
            ranged_attack: 0,
            work: 0,
            carry: 0,
            heal: 0,
            claim: 0,
        };
        match self {
            SquadRole::Tank => CombatBodySpec { tough: n, ..none },
            SquadRole::Healer => CombatBodySpec { heal: n, ..none },
            SquadRole::RangedDPS => CombatBodySpec { ranged_attack: n, ..none },
            SquadRole::MeleeDPS => CombatBodySpec { attack: n, ..none },
            SquadRole::Dismantler => CombatBodySpec { work: n, ..none },
            SquadRole::Hauler => CombatBodySpec { carry: n, ..none },
            SquadRole::Declaimer => CombatBodySpec { claim: n, ..none },
        }
    }

    /// The energy of one part of the role and the MOVE that goes with it.
    pub open spec fn unit_energy(&self) -> int {
        crate::parts::energy_of(self.part()) + 50
    }

    /// The most parts of the role that one member can have within an energy.
    pub open spec fn cap(&self, energy: int) -> int {
        crate::fixed::min_of(energy / self.unit_energy(), MAX_SINGLE_ROLE_PARTS as int)
    }
}

/// The part counts of a member that has `n` parts of its role, and nothing else.
fn single_role_spec(role: SquadRole, n: u32) -> (spec: CombatBodySpec)
    ensures
        spec == role.body(n),
{
    let none = CombatBodySpec {
        tough: 0,
        attack: 0,
        ranged_attack: 0,
        work: 0,
        carry: 0,
        heal: 0,
        claim: 0,
    };
    match role {
        SquadRole::Healer => CombatBodySpec { heal: n, ..none },
        SquadRole::Dismantler => CombatBodySpec { work: n, ..none },
        SquadRole::RangedDPS => CombatBodySpec { ranged_attack: n, ..none },
        SquadRole::MeleeDPS => CombatBodySpec { attack: n, ..none },
        SquadRole::Tank => CombatBodySpec { tough: n, ..none },
        SquadRole::Hauler => CombatBodySpec { carry: n, ..none },
        SquadRole::Declaimer => CombatBodySpec { claim: n, ..none },
    }
}

/// The most parts of its role that one member can have at `probe_energy`: probed with the builder of
/// bodies itself. Zero where not even one part can be afforded.
fn single_role_cap(role: SquadRole, probe_energy: u32) -> (cap: u32)
    ensures
        cap == role.cap(probe_energy as int),
        cap <= MAX_SINGLE_ROLE_PARTS,
{
    let mut n: u32 = MAX_SINGLE_ROLE_PARTS;
    while n > 0
        invariant
            n <= MAX_SINGLE_ROLE_PARTS,
            role.cap(probe_energy as int) <= n,
        decreases n,
    {
        let spec = single_role_spec(role, n);
        let body = build_combat_body(&spec, MoveProfile::Plains, probe_energy);
        proof {
            lemma_role_fits(role, n, probe_energy as int);
        }
        if body.is_some() {
            return n;
        }
        n = n - 1;
    }
    assert(role.cap(probe_energy as int) >= 0) by {
        vstd::arithmetic::div_mod::lemma_div_pos_is_pos(probe_energy as int, role.unit_energy());
    }
    0
}

/// A body of one role fits exactly up to the cap.
proof fn lemma_role_fits(role: SquadRole, n: u32, energy: int)
    requires
        1 <= n <= MAX_SINGLE_ROLE_PARTS,
        energy >= 0,
    ensures
        crate::bodies::fits(role.body(n), MoveProfile::Plains, energy) <==> n <= role.cap(energy),
        role.body(n).weight() == n,
        role.body(n).energy(n as int) == n * role.unit_energy(),
{
    let unit = role.unit_energy();
    assert(role.body(n).energy(n as int) == n * unit) by {
        assert(unit == 60 ==> n * unit == n * 60);
        assert(unit == 300 ==> n * unit == n * 300);
        assert(unit == 200 ==> n * unit == n * 200);
        assert(unit == 130 ==> n * unit == n * 130);
        assert(unit == 150 ==> n * unit == n * 150);
        assert(unit == 100 ==> n * unit == n * 100);
        assert(unit == 650 ==> n * unit == n * 650);
    }
    let q = energy / unit;
    vstd::arithmetic::div_mod::lemma_fundamental_div_mod(energy, unit);
    let r = energy % unit;
    assert(n * unit <= energy <==> n <= q) by (nonlinear_arith)
        requires
            energy == unit * q + r,
            0 <= r < unit,
    ;
}

/// What a force asks of each role, in the order of the slots. RANGED_ATTACK serves against
/// structures and against creeps, and a guarded structure needs enough for both.
pub open spec fn demands_of(req: RequiredForce) -> Seq<(SquadRole, int)> {
    seq![
        (SquadRole::Healer, req.heal_parts as int),
        (SquadRole::Dismantler, req.dismantle_parts as int),
        (SquadRole::RangedDPS, req.immune_struct_parts + req.anti_creep_parts),
        (SquadRole::Tank, req.tough_parts as int),
        (SquadRole::Declaimer, req.claim_parts as int),
    ]
}

/// The energy that a member is planned with.
pub open spec fn probe_of(member_energy: u32) -> int {
    crate::fixed::min_of(member_energy as int, PREFERRED_MEMBER_ENERGY as int)
}

/// The fewest members of a role that carry `parts` between them.
pub open spec fn members_for(role: SquadRole, parts: int, probe: int) -> int {
    crate::fixed::ceil_quotient(parts, role.cap(probe))
}

/// The members of a role that carry `parts` between them, in equal shares.
pub open spec fn role_slots(role: SquadRole, parts: int, probe: int) -> Seq<SquadSlot> {
    if parts <= 0 {
        Seq::empty()
    } else {
        let count = members_for(role, parts, probe);
        let share = crate::fixed::ceil_quotient(parts, count);
        Seq::new(
            count as nat,
            |i: int| SquadSlot { role, body_type: BodyType::Sized(role.body(share as u32)) },
        )
    }
}

/// The members that the first `k` demands ask for.
pub open spec fn slots_for(demands: Seq<(SquadRole, int)>, probe: int, k: int) -> Seq<SquadSlot>
    decreases k,
{
    if k <= 0 {
        Seq::empty()
    } else {
        slots_for(demands, probe, k - 1) + role_slots(demands[k - 1].0, demands[k - 1].1, probe)
    }
}

/// The members of a force.
pub open spec fn force_slots(req: RequiredForce, member_energy: u32) -> Seq<SquadSlot> {
    slots_for(demands_of(req), probe_of(member_energy), 5)
}

/// Each role that the force asks for can be fielded, and the squad is neither empty nor too large.
pub open spec fn is_fieldable(req: RequiredForce, member_energy: u32) -> bool {
    &&& forall|k: int|
        0 <= k < 5 && (#[trigger] demands_of(req)[k]).1 > 0 ==> demands_of(req)[k].0.cap(
            probe_of(member_energy),
        ) >= 1
    &&& 1 <= force_slots(req, member_energy).len() <= MAX_SIZED_MEMBERS
}

/// `squad` is the squad of the force.
pub open spec fn is_squad_of(squad: SquadComposition, req: RequiredForce, member_energy: u32) -> bool {
    let slots = force_slots(req, member_energy);
    &&& squad.slots@ == slots
    &&& squad.label@ == label_of(slots)
    &&& (squad.formation_shape, squad.formation_mode) == formation_of(slots.len() as int)
    &&& squad.retreat_threshold == DEFAULT_RETREAT_THRESHOLD
}

/// The squad that a force asks for: of each role in demand as few members as can carry its parts, in
/// equal shares, each no larger than `member_energy` and [`PREFERRED_MEMBER_ENERGY`] allow. None
/// where nothing is asked for, where a role cannot be fielded at this energy, or where the squad
/// would have more than [`MAX_SIZED_MEMBERS`].
pub fn assemble_force(req: &RequiredForce, member_energy: u32) -> (r: Option<SquadComposition>)
    ensures
        r is Some <==> is_fieldable(*req, member_energy),
        r matches Some(squad) ==> is_squad_of(squad, *req, member_energy),
{
    let probe_energy: u32 = if member_energy < PREFERRED_MEMBER_ENERGY {
        member_energy
    } else {
        PREFERRED_MEMBER_ENERGY
    };
    let demands: [(SquadRole, u64); 5] = [
        (SquadRole::Healer, req.heal_parts as u64),
        (SquadRole::Dismantler, req.dismantle_parts as u64),
        (SquadRole::RangedDPS, req.immune_struct_parts as u64 + req.anti_creep_parts as u64),
        (SquadRole::Tank, req.tough_parts as u64),
        (SquadRole::Declaimer, req.claim_parts as u64),
    ];
    let ghost wanted = demands_of(*req);
    let ghost probe = probe_of(member_energy);
    let mut slots: Vec<SquadSlot> = Vec::new();
    let mut k: usize = 0;
    while k < 5
        invariant
            k <= 5,
            demands@.len() == 5,
            wanted == demands_of(*req),
            probe == probe_of(member_energy),
            probe_energy == probe,
            forall|d: int|
                0 <= d < 5 ==> (#[trigger] demands@[d]).0 == wanted[d].0 && demands@[d].1
                    == wanted[d].1,
            forall|d: int| 0 <= d < 5 ==> 0 <= (#[trigger] wanted[d]).1 <= 2 * u32::MAX,
            forall|d: int|
                0 <= d < k && (#[trigger] wanted[d]).1 > 0 ==> wanted[d].0.cap(probe) >= 1,
            slots@ =~= slots_for(wanted, probe, k as int),
            slots@.len() <= MAX_SIZED_MEMBERS,
        decreases 5 - k,
    {
        let (role, parts) = demands[k];
        assert(wanted[k as int].0 == role && wanted[k as int].1 == parts);
        if parts > 0 {
            let cap: u32 = single_role_cap(role, probe_energy);
            if cap == 0 {
                assert(demands_of(*req)[k as int].1 > 0);
                return None;
            }
            let count: u64 = (parts + cap as u64 - 1) / cap as u64;
            proof {
                assert(count == members_for(role, parts as int, probe));
                crate::fixed::lemma_ceil_covers(parts as int, cap as int, 0);
                assert(count >= 1);
                lemma_more_roles_more_slots(wanted, probe, k + 1, 5);
            }
            if count > (MAX_SIZED_MEMBERS - slots.len()) as u64 {
                return None;
            }
            let share: u64 = (parts + count - 1) / count;
            proof {
                lemma_share_is_within_cap(parts as int, cap as int);
            }
            let spec = single_role_spec(role, share as u32);
            let ghost before = slots@;
            let mut n: u64 = 0;
            while n < count
                invariant
                    n <= count,
                    spec == role.body(share as u32),
                    slots@ =~= before + Seq::new(
                        n as nat,
                        |i: int|
                            SquadSlot { role, body_type: BodyType::Sized(role.body(share as u32)) },
                    ),
                decreases count - n,
            {
                slots.push(SquadSlot { role, body_type: BodyType::Sized(spec) });
                n = n + 1;
            }
            assert(slots@ =~= before + role_slots(role, parts as int, probe));
        }
        k = k + 1;
    }
    if slots.len() == 0 {
        return None;
    }
    let (formation_shape, formation_mode) = formation_for(slots.len());
    Some(
        SquadComposition {
            label: assembled_label(&slots),
            slots,
            formation_shape,
            formation_mode,
            retreat_threshold: DEFAULT_RETREAT_THRESHOLD,
        },
    )
}

/// An equal share is no more than the cap that the number of members was taken from.
proof fn lemma_share_is_within_cap(parts: int, cap: int)
    requires
        parts >= 1,
        cap >= 1,
    ensures
        1 <= crate::fixed::ceil_quotient(parts, crate::fixed::ceil_quotient(parts, cap)) <= cap,
        crate::fixed::ceil_quotient(parts, cap) >= 1,
{
    let count = crate::fixed::ceil_quotient(parts, cap);
    crate::fixed::lemma_ceil_covers(parts, cap, 0);
    crate::fixed::lemma_ceil_covers(parts, cap, count);
    crate::fixed::lemma_ceil_covers(parts, count, cap);
    crate::fixed::lemma_ceil_covers(parts, count, 0);
    assert(cap * count == count * cap) by (nonlinear_arith);
}

/// More roles make no fewer slots.
proof fn lemma_more_roles_more_slots(
    demands: Seq<(SquadRole, int)>,
    probe: int,
    k: int,
    all: int,
)
    requires
        0 <= k <= all,
    ensures
        slots_for(demands, probe, k).len() <= slots_for(demands, probe, all).len(),
    decreases all - k,
{
    if k < all {
        lemma_more_roles_more_slots(demands, probe, k, all - 1);
    }
}

// ---------------------------------------------------------------------------------------------
// Odds.
// ---------------------------------------------------------------------------------------------

/// What a squad is up against.
pub struct Threat {
    /// Thousandths of damage per tick of the towers.
    pub towers: int,
    /// Millionths of damage per tick, towers and creeps together, inflated by the margin.
    pub incoming: int,
    /// Thousandths of hits to be destroyed, those of the creeps inflated by the margin.
    pub hits: int,
}

impl Threat {
    /// Nothing shoots back.
    pub open spec fn is_harmless(&self) -> bool {
        self.towers == 0 && self.incoming == 0
    }
}

/// What a squad is up against at an objective, the enemies inflated by a margin in thousandths.
pub open spec fn threat_of(
    defense: DefenseProfile,
    enemy: Option<EnemyForce>,
    dynamic_margin: Milli,
) -> Threat {
    let towers = crate::fixed::nearest_i64(
        crate::force_sizing::tower_fire(defense.towers@) * 1000,
    );
    let force = crate::doctrine::enemies(enemy);
    Threat {
        towers,
        incoming: (towers + force.dps) * dynamic_margin,
        hits: (defense.objective_hits + defense.breach_hits) * 1000 + force.hits * dynamic_margin,
    }
}

/// Thousandths of hits that a squad can destroy within a window.
pub open spec fn deliverable(caps: SquadCapabilities, window: u32) -> int {
    caps.structure_dps * window * 1000
}

/// The squad destroys all there is within the window.
pub open spec fn is_in_time(caps: SquadCapabilities, threat: Threat, window: u32) -> bool {
    threat.hits <= 0 || (deliverable(caps, window) >= threat.hits && caps.structure_dps > 0)
}

/// `p` is the probability that the squad destroys all there is: where nothing shoots back, it does so
/// or not; else it is what the curve gives.
pub open spec fn is_kill_probability<F: Fn(i128, i128) -> Probability>(
    curve: F,
    caps: SquadCapabilities,
    threat: Threat,
    window: u32,
    p: Probability,
) -> bool {
    if threat.is_harmless() {
        p == if is_in_time(caps, threat, window) {
            CERTAIN
        } else {
            0
        }
    } else {
        crate::force_sizing::is_win_probability(
            curve,
            deliverable(caps, window) as i128,
            threat.hits as i128,
            p,
        )
    }
}

/// `p` is the probability that the squad survives and destroys all there is.
pub open spec fn is_victory_probability<F: Fn(i128, i128) -> Probability>(
    curve: F,
    caps: SquadCapabilities,
    threat: Threat,
    window: u32,
    p: Probability,
) -> bool {
    exists|survive: Probability, kill: Probability|
        {
            &&& #[trigger] crate::force_sizing::is_win_probability(
                curve,
                (caps.heal_per_tick * 1_000_000) as i128,
                threat.incoming as i128,
                survive,
            )
            &&& #[trigger] is_kill_probability(curve, caps, threat, window, kill)
            &&& p == survive * kill / CERTAIN as int
        }
}

/// What a squad is up against, in numbers.
struct Picture {
    towers: i64,
    incoming: i128,
    hits: i128,
}

impl Picture {
    /// The numbers are those of the threat.
    spec fn shows(&self, threat: Threat) -> bool {
        &&& self.towers == threat.towers
        &&& self.incoming == threat.incoming
        &&& self.hits == threat.hits
    }
}

/// What a squad is up against at an objective.
fn picture(defense: &DefenseProfile, enemy: Option<EnemyForce>, dynamic_margin: Milli) -> (r: Picture)
    ensures
        r.shows(threat_of(*defense, enemy, dynamic_margin)),
{
    let force = seen_or_nobody(enemy);
    let towers: i64 = tower_dps_at_assault(&defense.towers);
    let margin: i128 = dynamic_margin as i128;
    let rate: i128 = towers as i128 + force.dps as i128;
    proof {
        lemma_towers_do_no_good(defense.towers@);
    }
    assert(-0xffff_ffff_ffff_ffff * 0x8000_0000_0000_0000 <= rate * margin <= 0xffff_ffff_ffff_fffe
        * 0x7fff_ffff_ffff_ffff) by (nonlinear_arith)
        requires
            -0x8000_0000_0000_0000 <= rate <= 0xffff_ffff_ffff_fffe,
            -0x8000_0000_0000_0000 <= margin <= 0x7fff_ffff_ffff_ffff,
    ;
    let creep_hits: i128 = force.hits as i128;
    assert(-0xffff_ffff * 0x8000_0000_0000_0000 <= creep_hits * margin <= 0xffff_ffff
        * 0x7fff_ffff_ffff_ffff) by (nonlinear_arith)
        requires
            0 <= creep_hits <= 0xffff_ffff,
            -0x8000_0000_0000_0000 <= margin <= 0x7fff_ffff_ffff_ffff,
    ;
    Picture {
        towers,
        incoming: rate * margin,
        hits: (defense.objective_hits as i128 + defense.breach_hits as i128) * 1000 + creep_hits
            * margin,
    }
}

/// The fire of towers is never negative.
proof fn lemma_towers_do_no_good(towers: Seq<TowerThreat>)
    ensures
        crate::force_sizing::tower_fire(towers) >= 0,
    decreases towers.len(),
{
    if towers.len() > 0 {
        lemma_towers_do_no_good(towers.drop_last());
        crate::damage::law_falloff_is_monotone(
            600,
            towers.last().range_to_assault as int,
            crate::fixed::max_of(towers.last().range_to_assault as int, 20),
        );
    }
}

/// The probability that a squad survives and destroys all there is.
fn victory_probability<F: Fn(i128, i128) -> Probability>(
    caps: SquadCapabilities,
    facing: &Picture,
    window: u32,
    curve: &F,
    Ghost(threat): Ghost<Threat>,
) -> (p: Probability)
    requires
        facing.shows(threat),
        forall|a: i128, b: i128| #[trigger] curve.requires((a, b)),
    ensures
        is_victory_probability(*curve, caps, threat, window, p),
        p <= CERTAIN,
{
    let survive: Probability = win_probability(
        caps.heal_per_tick as i128 * 1_000_000,
        facing.incoming,
        curve,
    );
    let dps: i128 = caps.structure_dps as i128;
    let ticks: i128 = window as i128;
    assert(0 <= dps * ticks <= 0xffff_ffff * 0xffff_ffff) by (nonlinear_arith)
        requires
            0 <= dps <= 0xffff_ffff,
            0 <= ticks <= 0xffff_ffff,
    ;
    let deliverable: i128 = dps * ticks * 1000;
    assert(deliverable == crate::composition::deliverable(caps, window));
    let kill: Probability = if facing.towers == 0 && facing.incoming == 0 {
        if facing.hits <= 0 || (deliverable >= facing.hits && caps.structure_dps > 0) {
            CERTAIN
        } else {
            0
        }
    } else {
        win_probability(deliverable, facing.hits, curve)
    };
    assert(is_kill_probability(*curve, caps, threat, window, kill));
    assert(0 <= survive * kill <= 1_000_000_000 * 1_000_000_000) by (nonlinear_arith)
        requires
            0 <= survive <= 1_000_000_000,
            0 <= kill <= 1_000_000_000,
    ;
    let p: Probability = survive * kill / CERTAIN;
    assert(crate::force_sizing::is_win_probability(
        *curve,
        (caps.heal_per_tick * 1_000_000) as i128,
        threat.incoming as i128,
        survive,
    ));
    assert(p == survive * kill / CERTAIN as int);
    p
}

// ---------------------------------------------------------------------------------------------
// The best composition.
// ---------------------------------------------------------------------------------------------

/// How far a force is over-powered, in the order in which it is tried.
pub const OVER_POWER_LADDER: [Micro; 4] = [1_000_000, 1_250_000, 1_500_000, 2_000_000];

/// TOUGH parts for each part that fights, in the order in which it is tried.
pub const TOUGH_LADDER: [Milli; 3] = [0, 100, 200];

/// Expected values closer than this count as equal: a millionth, in trillionths.
pub const EV_TIE: i128 = 1_000_000;

/// The weights and margins of the search for a composition.
#[derive(Clone, Copy, Debug, PartialEq, Eq, Structural)]
pub struct CompositionParams {
    /// Value that a unit of energy costs.
    pub w_energy: Milli,
    /// Value that a member costs.
    pub w_creep: Milli,
    /// The margin by which a keeper is out-healed.
    pub hold_margin: Milli,
    /// The margin by which enemies that fight together are out-powered.
    pub over_power_margin: Milli,
    /// The factor by which the enemies seen are inflated.
    pub dynamic_margin: Milli,
    /// The most energy of a member.
    pub member_energy: u32,
    /// What a gated force has to be worth at least, beyond its cost.
    pub commit_ev_threshold: Milli,
}

impl Default for CompositionParams {
    fn default() -> (params: Self)
        ensures
            params == (CompositionParams {
                w_energy: 1,
                w_creep: 0,
                hold_margin: HOLD_MARGIN,
                over_power_margin: COORDINATED_DPS_MARGIN,
                dynamic_margin: 1000,
                member_energy: PREFERRED_MEMBER_ENERGY,
                commit_ev_threshold: 0,
            }),
    {
        CompositionParams {
            w_energy: 1,
            w_creep: 0,
            hold_margin: HOLD_MARGIN,
            over_power_margin: COORDINATED_DPS_MARGIN,
            dynamic_margin: 1000,
            member_energy: PREFERRED_MEMBER_ENERGY,
            commit_ev_threshold: 0,
        }
    }
}

/// The role that kills at an objective: WORK takes apart what can be; all else is shot.
pub open spec fn killer_of(objective: DoctrineObjective) -> SquadRole {
    if objective == DoctrineObjective::DismantleStructure {
        SquadRole::Dismantler
    } else {
        SquadRole::RangedDPS
    }
}

/// What the largest squad considered brings: three fighters and five healers, each as large as a
/// member can be.
pub open spec fn ceiling_of(
    objective: DoctrineObjective,
    member_energy: u32,
    onsite_window: u32,
) -> ForceBudget {
    let probe = probe_of(member_energy);
    let fighter = killer_of(objective).cap(probe);
    let power = if objective == DoctrineObjective::DismantleStructure {
        DISMANTLE_POWER as int
    } else {
        RANGED_ATTACK_POWER as int
    };
    ForceBudget {
        max_heal_per_tick: (5 * SquadRole::Healer.cap(probe) * HEAL_POWER * 1000) as i64,
        max_dismantle_dps: (3 * fighter * power * 1000) as i64,
        tank_effective_hp: (fighter * 2 * PART_HITS * 1000) as i64,
        onsite_budget_ticks: onsite_window,
    }
}

/// What the largest squad considered brings, which verdicts are given against.
pub fn optimizer_ceiling_budget(
    objective: DoctrineObjective,
    member_energy: u32,
    onsite_window: u32,
) -> (budget: ForceBudget)
    ensures
        budget == ceiling_of(objective, member_energy, onsite_window),
{
    let probe: u32 = if member_energy < PREFERRED_MEMBER_ENERGY {
        member_energy
    } else {
        PREFERRED_MEMBER_ENERGY
    };
    let (fighter, power) = match objective {
        DoctrineObjective::DismantleStructure => (SquadRole::Dismantler, DISMANTLE_POWER as i64),
        _ => (SquadRole::RangedDPS, RANGED_ATTACK_POWER as i64),
    };
    let fighter_cap: i64 = single_role_cap(fighter, probe) as i64;
    let heal_cap: i64 = single_role_cap(SquadRole::Healer, probe) as i64;
    assert(0 <= 3 * fighter_cap * power <= 3 * 25 * 50) by (nonlinear_arith)
        requires
            0 <= fighter_cap <= 25,
            0 <= power <= 50,
    ;
    ForceBudget {
        max_heal_per_tick: 5 * heal_cap * HEAL_POWER as i64 * 1000,
        max_dismantle_dps: 3 * fighter_cap * power * 1000,
        tank_effective_hp: fighter_cap * 2 * PART_HITS as i64 * 1000,
        onsite_budget_ticks: onsite_window,
    }
}

/// The force with the least that is always fielded.
pub open spec fn floored(force: RequiredForce) -> RequiredForce {
    RequiredForce {
        heal_parts: crate::fixed::max_of(
            force.heal_parts as int,
            DEFAULT_FLOOR_PARTS as int,
        ) as u32,
        anti_creep_parts: crate::fixed::max_of(
            force.anti_creep_parts as int,
            DEFAULT_FLOOR_PARTS as int,
        ) as u32,
        ..force
    }
}

/// Raises a force to the least that is always fielded.
pub(crate) fn with_floor(force: RequiredForce) -> (r: RequiredForce)
    ensures
        r == floored(force),
{
    let mut r = force;
    if r.heal_parts < DEFAULT_FLOOR_PARTS {
        r.heal_parts = DEFAULT_FLOOR_PARTS;
    }
    if r.anti_creep_parts < DEFAULT_FLOOR_PARTS {
        r.anti_creep_parts = DEFAULT_FLOOR_PARTS;
    }
    r
}

/// The force of candidate `i`: over-powered by its rung of the first ladder, and with TOUGH by its
/// rung of the second.
pub open spec fn candidate(base: RequiredForce, i: int) -> RequiredForce {
    let force = base.scaled_by(OVER_POWER_LADDER[i / 3] as int);
    let fighters = force.dismantle_parts + force.immune_struct_parts + force.anti_creep_parts;
    let share = TOUGH_LADDER[i % 3];
    if share > 0 && fighters > 0 {
        RequiredForce {
            tough_parts: crate::fixed::nearest_u32(
                crate::fixed::ceil_quotient(share * fighters, 1000),
            ) as u32,
            ..force
        }
    } else {
        force
    }
}

/// The expected value, in trillionths, of a squad that wins `target_value` with probability `p`, less
/// what it costs.
pub open spec fn expected_value(
    p: Probability,
    target_value: Milli,
    energy: int,
    members: int,
    params: CompositionParams,
) -> int {
    p * target_value - (params.w_energy * energy + params.w_creep * members) * CERTAIN
}

/// `ev` is the expected value of the squad with these slots.
pub open spec fn is_ev_of<F: Fn(i128, i128) -> Probability>(
    curve: F,
    slots: Seq<SquadSlot>,
    threat: Threat,
    window: u32,
    target_value: Milli,
    params: CompositionParams,
    ev: int,
) -> bool {
    exists|p: Probability| #[trigger]
        is_victory_probability(curve, strength(slots), threat, window, p) && ev == expected_value(
            p,
            target_value,
            squad_energy(slots),
            slots.len() as int,
            params,
        )
}

/// `evs` are the expected values of the candidates that can be fielded.
pub open spec fn are_evs_of<F: Fn(i128, i128) -> Probability>(
    curve: F,
    base: RequiredForce,
    threat: Threat,
    window: u32,
    target_value: Milli,
    params: CompositionParams,
    evs: Seq<int>,
) -> bool {
    &&& evs.len() == 12
    &&& forall|i: int|
        0 <= i < 12 && is_fieldable(#[trigger] candidate(base, i), params.member_energy)
            ==> is_ev_of(
            curve,
            force_slots(candidate(base, i), params.member_energy),
            threat,
            window,
            target_value,
            params,
            evs[i],
        )
}

/// Candidate `i` is preferred to candidate `j`: by its expected value; at equal value by less
/// over-power, then by less TOUGH, then by fewer members.
pub open spec fn is_preferred(
    base: RequiredForce,
    member_energy: u32,
    evs: Seq<int>,
    i: int,
    j: int,
) -> bool {
    let fewer = force_slots(candidate(base, i), member_energy).len() < force_slots(
        candidate(base, j),
        member_energy,
    ).len();
    ||| evs[i] > evs[j] + EV_TIE
    ||| {
        &&& -EV_TIE <= evs[i] - evs[j] <= EV_TIE
        &&& i / 3 < j / 3 || (i / 3 == j / 3 && (i % 3 < j % 3 || (i % 3 == j % 3 && fewer)))
    }
}

/// The best of the first `n` candidates.
pub open spec fn best_candidate(
    base: RequiredForce,
    member_energy: u32,
    evs: Seq<int>,
    n: int,
) -> Option<int>
    decreases n,
{
    if n <= 0 {
        None
    } else {
        let best = best_candidate(base, member_energy, evs, n - 1);
        if !is_fieldable(candidate(base, n - 1), member_energy) {
            best
        } else {
            match best {
                Some(j) if !is_preferred(base, member_energy, evs, n - 1, j) => best,
                _ => Some(n - 1),
            }
        }
    }
}

/// The force that the search starts from: what the objective asks for; for a force that is always
/// fielded, unless the target is known to be undefended, no less than the floor.
pub open spec fn search_base(
    objective: DoctrineObjective,
    defense: DefenseProfile,
    enemy: Option<EnemyForce>,
    onsite_window: u32,
    coordination: EnemyCoordination,
    importance: Milli,
    honor_verdict: bool,
    confirmed_undefended: bool,
    params: CompositionParams,
) -> RequiredForce {
    let required = crate::doctrine::requirement(
        objective,
        defense,
        enemy,
        ceiling_of(objective, params.member_energy, onsite_window),
        coordination,
        importance,
        params.hold_margin,
        params.over_power_margin,
    ).1;
    if !honor_verdict && !confirmed_undefended {
        floored(required)
    } else {
        required
    }
}

/// `r` is the squad of the best candidate; none where no candidate can be fielded, or where a gated
/// force is not worth more than its threshold.
pub open spec fn is_optimum<F: Fn(i128, i128) -> Probability>(
    curve: F,
    base: RequiredForce,
    threat: Threat,
    window: u32,
    target_value: Milli,
    honor_verdict: bool,
    params: CompositionParams,
    r: Option<SquadComposition>,
) -> bool {
    exists|evs: Seq<int>|
        {
            &&& #[trigger] are_evs_of(curve, base, threat, window, target_value, params, evs)
            &&& match best_candidate(base, params.member_energy, evs, 12) {
                None => r is None,
                Some(i) => if honor_verdict && evs[i] <= params.commit_ev_threshold * CERTAIN {
                    r is None
                } else {
                    r is Some && is_squad_of(r->0, candidate(base, i), params.member_energy)
                },
            }
        }
}

/// The composition with the best expected value: of the force that the objective asks for,
/// over-powered and armored by fixed steps, the candidate whose chance of winning `target_value`,
/// less its cost, is largest. Where `honor_verdict` is set, none unless it is worth more than the
/// threshold. `confirmed_undefended` says that the target is known to be undefended, so that even a
/// force which is always fielded needs no floor.
#[verifier::spinoff_prover]
#[verifier::rlimit(60)]
pub fn optimize_composition<F: Fn(i128, i128) -> Probability>(
    objective: DoctrineObjective,
    defense: &DefenseProfile,
    enemy: Option<EnemyForce>,
    target_value: Milli,
    onsite_window: u32,
    coordination: EnemyCoordination,
    importance: Milli,
    honor_verdict: bool,
    confirmed_undefended: bool,
    params: &CompositionParams,
    curve: &F,
) -> (r: Option<SquadComposition>)
    requires
        forall|a: i128, b: i128| #[trigger] curve.requires((a, b)),
    ensures
        is_optimum(
            *curve,
            search_base(
                objective,
                *defense,
                enemy,
                onsite_window,
                coordination,
                importance,
                honor_verdict,
                confirmed_undefended,
                *params,
            ),
            threat_of(*defense, enemy, params.dynamic_margin),
            onsite_window,
            target_value,
            honor_verdict,
            *params,
            r,
        ),
{
    let member_energy: u32 = params.member_energy;
    let budget = optimizer_ceiling_budget(objective, member_energy, onsite_window);
    let (_verdict, required) = emit_requirement(
        objective,
        defense,
        enemy,
        Some(&budget),
        coordination,
        importance,
        params.hold_margin,
        params.over_power_margin,
    );
    let base = if !honor_verdict && !confirmed_undefended { with_floor(required) } else { required };
    let ghost threat = threat_of(*defense, enemy, params.dynamic_margin);
    let facing = picture(defense, enemy, params.dynamic_margin);
    let mut best: Option<(i128, usize, SquadComposition)> = None;
    let ghost mut evs: Seq<int> = Seq::empty();
    let mut i: usize = 0;
    while i < 12
        invariant
            i <= 12,
            member_energy == params.member_energy,
            facing.shows(threat),
            forall|a: i128, b: i128| #[trigger] curve.requires((a, b)),
            evs.len() == i,
            forall|h: int|
                0 <= h < i && is_fieldable(#[trigger] candidate(base, h), member_energy)
                    ==> is_ev_of(
                    *curve,
                    force_slots(candidate(base, h), member_energy),
                    threat,
                    onsite_window,
                    target_value,
                    *params,
                    evs[h],
                ),
            match best_candidate(base, member_energy, evs, i as int) {
                None => best is None,
                Some(j) => {
                    &&& best is Some
                    &&& 0 <= j < i
                    &&& (best->0).1 == j
                    &&& (best->0).0 == evs[j]
                    &&& is_fieldable(candidate(base, j), member_energy)
                    &&& is_squad_of((best->0).2, candidate(base, j), member_energy)
                },
            },
            best is Some ==> -EV_BOUND <= (best->0).0 <= EV_BOUND,
        decreases 12 - i,
    {
        let ghost evs0 = evs;
        match appraise(&base, i, &facing, onsite_window, target_value, params, curve, Ghost(threat)) {
            None => {
                proof {
                    evs = evs.push(0);
                    lemma_best_of_prefix(base, member_energy, evs0, evs, i as int);
                }
            },
            Some((ev, squad)) => {
                proof {
                    evs = evs.push(ev as int);
                    lemma_best_of_prefix(base, member_energy, evs0, evs, i as int);
                }
                let members: usize = squad.member_count();
                let better: bool = match &best {
                    None => true,
                    Some((best_ev, j, held)) => {
                        let equal: bool = *best_ev - EV_TIE <= ev && ev <= *best_ev + EV_TIE;
                        ev > *best_ev + EV_TIE || (equal && (i / 3 < *j / 3 || (i / 3 == *j / 3
                            && (i % 3 < *j % 3 || (i % 3 == *j % 3 && members
                            < held.member_count())))))
                    },
                };
                if better {
                    best = Some((ev, i, squad));
                }
            },
        }
        assert forall|h: int|
            0 <= h < i + 1 && is_fieldable(
                #[trigger] candidate(base, h),
                member_energy,
            ) implies is_ev_of(
            *curve,
            force_slots(candidate(base, h), member_energy),
            threat,
            onsite_window,
            target_value,
            *params,
            evs[h],
        ) by {
            if h < i {
                assert(evs[h] == evs0[h]);
            }
        }
        i = i + 1;
    }
    assert(are_evs_of(*curve, base, threat, onsite_window, target_value, *params, evs));
    match best {
        None => None,
        Some((ev, _, squad)) => {
            let threshold: i128 = params.commit_ev_threshold as i128;
            let certain: i128 = CERTAIN as i128;
            assert(threshold * certain == threshold * 1_000_000_000);
            if honor_verdict && ev <= threshold * certain {
                None
            } else {
                Some(squad)
            }
        },
    }
}

/// The squad of candidate `i` with its expected value, where it can be fielded.
fn appraise<F: Fn(i128, i128) -> Probability>(
    base: &RequiredForce,
    i: usize,
    facing: &Picture,
    onsite_window: u32,
    target_value: Milli,
    params: &CompositionParams,
    curve: &F,
    Ghost(threat): Ghost<Threat>,
) -> (r: Option<(i128, SquadComposition)>)
    requires
        i < 12,
        facing.shows(threat),
        forall|a: i128, b: i128| #[trigger] curve.requires((a, b)),
    ensures
        r is Some <==> is_fieldable(candidate(*base, i as int), params.member_energy),
        r matches Some((ev, squad)) ==> {
            &&& is_squad_of(squad, candidate(*base, i as int), params.member_energy)
            &&& is_ev_of(
                *curve,
                force_slots(candidate(*base, i as int), params.member_energy),
                threat,
                onsite_window,
                target_value,
                *params,
                ev as int,
            )
            &&& -EV_BOUND <= ev <= EV_BOUND
        },
{
    let force = rung(base, i);
    match assemble_force(&force, params.member_energy) {
        None => None,
        Some(squad) => {
            proof {
                lemma_fielded_is_small(force, params.member_energy);
            }
            let caps = squad.capabilities(params.member_energy);
            let p: Probability = victory_probability(
                caps,
                facing,
                onsite_window,
                curve,
                Ghost(threat),
            );
            let members: usize = squad.member_count();
            let cost: u32 = squad.estimated_cost(params.member_energy);
            let ev: i128 = net_value(p, target_value, cost, members, params);
            Some((ev, squad))
        },
    }
}

/// A bound on expected values.
const EV_BOUND: i128 = 0x2000_0000_0000_0000_0000_0000_0000_0000;

/// The force of candidate `i`.
fn rung(base: &RequiredForce, i: usize) -> (force: RequiredForce)
    requires
        i < 12,
    ensures
        force == candidate(*base, i as int),
{
    let mut force = base.scaled(OVER_POWER_LADDER[i / 3]);
    let share: i128 = TOUGH_LADDER[i % 3] as i128;
    let fighters: i128 = force.dismantle_parts as i128 + force.immune_struct_parts as i128
        + force.anti_creep_parts as i128;
    assert(share == 0 || share == 100 || share == 200);
    if share > 0 && fighters > 0 {
        assert(share * fighters == 100 * fighters || share * fighters == 200 * fighters);
        force.tough_parts = to_u32(div_up(share * fighters, 1000));
    }
    force
}

/// The expected value of a squad, in trillionths.
fn net_value(
    p: Probability,
    target_value: Milli,
    cost: u32,
    members: usize,
    params: &CompositionParams,
) -> (ev: i128)
    requires
        p <= CERTAIN,
        cost <= 24_000,
        members <= 8,
    ensures
        ev == expected_value(p, target_value, cost as int, members as int, *params),
        -EV_BOUND <= ev <= EV_BOUND,
{
    let gain_p: i128 = p as i128;
    let value: i128 = target_value as i128;
    let energy: i128 = cost as i128;
    let heads: i128 = members as i128;
    let w_energy: i128 = params.w_energy as i128;
    let w_creep: i128 = params.w_creep as i128;
    assert(-0x8000_0000_0000_0000 * 1_000_000_000 <= gain_p * value <= 0x8000_0000_0000_0000
        * 1_000_000_000) by (nonlinear_arith)
        requires
            0 <= gain_p <= 1_000_000_000,
            -0x8000_0000_0000_0000 <= value <= 0x8000_0000_0000_0000,
    ;
    assert(-0x8000_0000_0000_0000 * 24_000 <= w_energy * energy <= 0x8000_0000_0000_0000 * 24_000)
        by (nonlinear_arith)
        requires
            0 <= energy <= 24_000,
            -0x8000_0000_0000_0000 <= w_energy <= 0x8000_0000_0000_0000,
    ;
    assert(-0x8000_0000_0000_0000 * 8 <= w_creep * heads <= 0x8000_0000_0000_0000 * 8)
        by (nonlinear_arith)
        requires
            0 <= heads <= 8,
            -0x8000_0000_0000_0000 <= w_creep <= 0x8000_0000_0000_0000,
    ;
    let certain: i128 = CERTAIN as i128;
    let price: i128 = w_energy * energy + w_creep * heads;
    assert(price * certain == price * 1_000_000_000);
    gain_p * value - price * certain
}

/// More values do not change which of the earlier candidates is best.
proof fn lemma_best_of_prefix(
    base: RequiredForce,
    member_energy: u32,
    evs: Seq<int>,
    more: Seq<int>,
    n: int,
)
    requires
        0 <= n <= evs.len() <= more.len(),
        forall|i: int| 0 <= i < n ==> #[trigger] more[i] == evs[i],
    ensures
        best_candidate(base, member_energy, evs, n) == best_candidate(base, member_energy, more, n),
        best_candidate(base, member_energy, evs, n) matches Some(j) ==> 0 <= j < n,
    decreases n,
{
    if n > 0 {
        lemma_best_of_prefix(base, member_energy, evs, more, n - 1);
        assert(more[n - 1] == evs[n - 1]);
        if let Some(j) = best_candidate(base, member_energy, evs, n - 1) {
            assert(more[j] == evs[j]);
        }
    }
}

/// A member within the limits of a planned one.
spec fn is_small(slot: SquadSlot) -> bool {
    &&& slot.body_type.spec().weight() <= MAX_SINGLE_ROLE_PARTS
    &&& slot.body_type.energy() <= PREFERRED_MEMBER_ENERGY
}

/// The numbers of a squad of small members are small.
proof fn lemma_small_members(slots: Seq<SquadSlot>)
    requires
        forall|i: int| 0 <= i < slots.len() ==> is_small(#[trigger] slots[i]),
    ensures
        0 <= squad_heal(slots) <= 300 * slots.len(),
        0 <= squad_damage(slots) <= 1250 * slots.len(),
        0 <= squad_tank_hits(slots) <= 5000,
        0 <= squad_energy(slots) <= 3000 * slots.len(),
        0 <= squad_size(slots) <= 50 * slots.len(),
    decreases slots.len(),
{
    if slots.len() > 0 {
        let rest = slots.drop_last();
        assert forall|i: int| 0 <= i < rest.len() implies is_small(#[trigger] rest[i]) by {
            assert(rest[i] == slots[i]);
        }
        lemma_small_members(rest);
        assert(is_small(slots[slots.len() - 1]));
    }
}

/// The members of the first `k` roles are within the limits.
proof fn lemma_slots_are_small(req: RequiredForce, member_energy: u32, k: int)
    requires
        is_fieldable(req, member_energy),
        0 <= k <= 5,
    ensures
        forall|i: int|
            0 <= i < slots_for(demands_of(req), probe_of(member_energy), k).len() ==> is_small(
                #[trigger] slots_for(demands_of(req), probe_of(member_energy), k)[i],
            ),
    decreases k,
{
    if k > 0 {
        lemma_slots_are_small(req, member_energy, k - 1);
        let probe = probe_of(member_energy);
        let (role, parts) = demands_of(req)[k - 1];
        let before = slots_for(demands_of(req), probe, k - 1);
        let more = role_slots(role, parts, probe);
        if parts > 0 {
            let cap = role.cap(probe);
            assert(cap >= 1);
            lemma_share_is_within_cap(parts, cap);
            let share = crate::fixed::ceil_quotient(parts, members_for(role, parts, probe));
            lemma_role_fits(role, share as u32, probe);
            assert forall|i: int| 0 <= i < more.len() implies is_small(#[trigger] more[i]) by {}
        }
        let all = slots_for(demands_of(req), probe, k);
        assert forall|i: int| 0 <= i < all.len() implies is_small(#[trigger] all[i]) by {
            if i < before.len() {
                assert(all[i] == before[i]);
            } else {
                assert(all[i] == more[i - before.len()]);
            }
        }
    }
}

/// The numbers of a fielded squad are small.
pub proof fn lemma_fielded_is_small(req: RequiredForce, member_energy: u32)
    requires
        is_fieldable(req, member_energy),
    ensures
        strength_fits(force_slots(req, member_energy)),
        squad_energy(force_slots(req, member_energy)) <= 24_000,
        squad_size(force_slots(req, member_energy)) <= 400,
{
    lemma_slots_are_small(req, member_energy, 5);
    lemma_small_members(force_slots(req, member_energy));
}

// ---------------------------------------------------------------------------------------------
// Pairing a squad with an objective.
// ---------------------------------------------------------------------------------------------

/// The weights and margins of pairing a squad with an objective.
#[derive(Clone, Copy, Debug, PartialEq, Eq, Structural)]
pub struct PairingParams {
    /// Value that each room of travel costs.
    pub w_travel: Milli,
    /// The factor by which the enemies seen are inflated.
    pub dynamic_margin: Milli,
}

impl Default for PairingParams {
    fn default() -> (params: Self)
        ensures
            params == (PairingParams { w_travel: 1000, dynamic_margin: 1000 }),
    {
        PairingParams { w_travel: 1000, dynamic_margin: 1000 }
    }
}

/// `p` is the probability that a squad wins an objective; it never does under safe mode.
pub open spec fn is_pairing_p_win<F: Fn(i128, i128) -> Probability>(
    curve: F,
    caps: SquadCapabilities,
    defense: DefenseProfile,
    enemy: Option<EnemyForce>,
    onsite_window: u32,
    params: PairingParams,
    p: Probability,
) -> bool {
    if defense.safe_mode {
        p == 0
    } else {
        is_victory_probability(
            curve,
            caps,
            threat_of(defense, enemy, params.dynamic_margin),
            onsite_window,
            p,
        )
    }
}

/// `ev` is the expected value, in trillionths, of sending a squad to an objective.
pub open spec fn is_pairing_ev<F: Fn(i128, i128) -> Probability>(
    curve: F,
    caps: SquadCapabilities,
    defense: DefenseProfile,
    enemy: Option<EnemyForce>,
    value: Milli,
    onsite_window: u32,
    travel_rooms: u32,
    params: PairingParams,
    ev: int,
) -> bool {
    exists|p: Probability| #[trigger]
        is_pairing_p_win(curve, caps, defense, enemy, onsite_window, params, p) && ev == p * value
            - params.w_travel * travel_rooms * CERTAIN
}

/// The probability that a squad that exists wins an objective: that it survives, and destroys all
/// there is in time.
pub fn pairing_p_win<F: Fn(i128, i128) -> Probability>(
    caps: SquadCapabilities,
    defense: &DefenseProfile,
    enemy: Option<EnemyForce>,
    onsite_window: u32,
    params: &PairingParams,
    curve: &F,
) -> (p: Probability)
    requires
        forall|a: i128, b: i128| #[trigger] curve.requires((a, b)),
    ensures
        is_pairing_p_win(*curve, caps, *defense, enemy, onsite_window, *params, p),
        p <= CERTAIN,
{
    if defense.safe_mode {
        return 0;
    }
    let facing = picture(defense, enemy, params.dynamic_margin);
    let ghost threat = threat_of(*defense, enemy, params.dynamic_margin);
    victory_probability(caps, &facing, onsite_window, curve, Ghost(threat))
}

/// The expected value, in trillionths, of sending a squad that exists to an objective: the chance of
/// winning it, less what each room of travel costs. Its bodies are already paid for.
pub fn pairing_ev<F: Fn(i128, i128) -> Probability>(
    caps: SquadCapabilities,
    defense: &DefenseProfile,
    enemy: Option<EnemyForce>,
    value_e: Milli,
    onsite_window: u32,
    travel_rooms: u32,
    params: &PairingParams,
    curve: &F,
) -> (ev: i128)
    requires
        forall|a: i128, b: i128| #[trigger] curve.requires((a, b)),
    ensures
        is_pairing_ev(
            *curve,
            caps,
            *defense,
            enemy,
            value_e,
            onsite_window,
            travel_rooms,
            *params,
            ev as int,
        ),
{
    let p: Probability = pairing_p_win(caps, defense, enemy, onsite_window, params, curve);
    let chance: i128 = p as i128;
    let value: i128 = value_e as i128;
    let weight: i128 = params.w_travel as i128;
    let rooms: i128 = travel_rooms as i128;
    assert(-0x8000_0000_0000_0000 * 1_000_000_000 <= chance * value <= 0x8000_0000_0000_0000
        * 1_000_000_000) by (nonlinear_arith)
        requires
            0 <= chance <= 1_000_000_000,
            -0x8000_0000_0000_0000 <= value <= 0x8000_0000_0000_0000,
    ;
    assert(-0x8000_0000_0000_0000 * 0xffff_ffff <= weight * rooms <= 0x8000_0000_0000_0000
        * 0xffff_ffff) by (nonlinear_arith)
        requires
            0 <= rooms <= 0xffff_ffff,
            -0x8000_0000_0000_0000 <= weight <= 0x8000_0000_0000_0000,
    ;
    let certain: i128 = CERTAIN as i128;
    let price: i128 = weight * rooms;
    assert(price * certain == price * 1_000_000_000);
    chance * value - price * certain
}

/// Trillionths as thousandths, rounded to the nearest; halves away from zero.
pub open spec fn quantized(ev: int) -> int {
    let half = CERTAIN as int / 2;
    crate::fixed::nearest_i64(
        if ev >= 0 {
            (ev + half) / CERTAIN as int
        } else {
            -((-ev + half) / CERTAIN as int)
        },
    )
}

/// An expected value as a whole number of thousandths, which choices are made by.
pub fn quantize_ev(ev: i128) -> (q: i64)
    ensures
        q == quantized(ev as int),
{
    let certain: i128 = CERTAIN as i128;
    let half: i128 = certain / 2;
    let magnitude: i128 = if ev == i128::MIN {
        i128::MAX
    } else if ev < 0 {
        -ev
    } else {
        ev
    };
    let whole: i128 = magnitude / certain;
    let rest: i128 = magnitude % certain;
    let rounded: i128 = if rest >= half { whole + 1 } else { whole };
    proof {
        let m = magnitude as int;
        let d: int = 1_000_000_000;
        assert((m + d / 2) / d == rounded) by {
            assert(m == d * whole + rest);
            assert(0 <= rest < d);
        }
        if ev == i128::MIN {
            assert((-ev + d / 2) / d == rounded);
        }
    }
    if ev < 0 {
        to_i64(-rounded)
    } else {
        to_i64(rounded)
    }
}

// ---------------------------------------------------------------------------------------------
// Laws.
// ---------------------------------------------------------------------------------------------

/// How many of the parts of all members are `part`.
pub open spec fn fielded_parts(slots: Seq<SquadSlot>, part: Part) -> int
    decreases slots.len(),
{
    if slots.len() == 0 {
        0
    } else {
        fielded_parts(slots.drop_last(), part) + slots.last().body_type.spec().parts_of(part)
    }
}

/// Two lists of members have together what each has.
proof fn lemma_fielded_concat(a: Seq<SquadSlot>, b: Seq<SquadSlot>, part: Part)
    ensures
        fielded_parts(a + b, part) == fielded_parts(a, part) + fielded_parts(b, part),
    decreases b.len(),
{
    if b.len() == 0 {
        assert(a + b =~= a);
    } else {
        assert((a + b).drop_last() =~= a + b.drop_last());
        lemma_fielded_concat(a, b.drop_last(), part);
    }
}

/// Equal members have what one has, as often as there are.
proof fn lemma_fielded_copies(slots: Seq<SquadSlot>, slot: SquadSlot, part: Part)
    requires
        forall|i: int| 0 <= i < slots.len() ==> #[trigger] slots[i] == slot,
    ensures
        fielded_parts(slots, part) == slots.len() * slot.body_type.spec().parts_of(part),
    decreases slots.len(),
{
    let n = slots.len() as int;
    let w = slot.body_type.spec().parts_of(part);
    if n > 0 {
        let rest = slots.drop_last();
        assert forall|i: int| 0 <= i < rest.len() implies #[trigger] rest[i] == slot by {
            assert(rest[i] == slots[i]);
        }
        lemma_fielded_copies(rest, slot, part);
        assert(slots[n - 1] == slot);
        assert(n * w == (n - 1) * w + w) by (nonlinear_arith);
    } else {
        assert(0 * w == 0) by (nonlinear_arith);
    }
}

/// The members of a role carry what is asked of it, and less than one part each beyond it; one
/// member fewer could not carry it.
pub proof fn law_role_carries_its_demand(role: SquadRole, parts: int, probe: int)
    requires
        parts >= 1,
        role.cap(probe) >= 1,
    ensures
        role_slots(role, parts, probe).len() >= 1,
        fielded_parts(role_slots(role, parts, probe), role.part()) >= parts,
        fielded_parts(role_slots(role, parts, probe), role.part()) < parts + role_slots(
            role,
            parts,
            probe,
        ).len(),
        (role_slots(role, parts, probe).len() - 1) * role.cap(probe) < parts,
{
    let cap = role.cap(probe);
    let count = members_for(role, parts, probe);
    let share = crate::fixed::ceil_quotient(parts, count);
    lemma_share_is_within_cap(parts, cap);
    let slots = role_slots(role, parts, probe);
    let slot = SquadSlot { role, body_type: BodyType::Sized(role.body(share as u32)) };
    lemma_fielded_copies(slots, slot, role.part());
    crate::fixed::lemma_ceil_covers(parts, count, share);
    crate::fixed::lemma_ceil_covers(parts, count, share - 1);
    crate::fixed::lemma_ceil_covers(parts, cap, count - 1);
    assert(slot.body_type.spec().parts_of(role.part()) == share);
    assert(share * count == count * share) by (nonlinear_arith);
    assert((share - 1) * count == count * share - count) by (nonlinear_arith);
}

/// Members of other roles have no such part.
proof fn lemma_other_roles_add_nothing(
    demands: Seq<(SquadRole, int)>,
    probe: int,
    part: Part,
    k: int,
)
    requires
        0 <= k <= demands.len(),
        forall|d: int| 0 <= d < k ==> (#[trigger] demands[d]).0.part() != part,
        part != Part::Move,
    ensures
        fielded_parts(slots_for(demands, probe, k), part) == 0,
    decreases k,
{
    if k > 0 {
        lemma_other_roles_add_nothing(demands, probe, part, k - 1);
        let (role, parts) = demands[k - 1];
        let more = role_slots(role, parts, probe);
        lemma_fielded_concat(slots_for(demands, probe, k - 1), more, part);
        assert(fielded_parts(more, part) == 0) by {
            if parts > 0 {
                let count = members_for(role, parts, probe);
                let share = crate::fixed::ceil_quotient(parts, count);
                let slot = SquadSlot { role, body_type: BodyType::Sized(role.body(share as u32)) };
                lemma_fielded_copies(more, slot, part);
                assert(slot.body_type.spec().parts_of(part) == 0);
                let n = more.len() as int;
                assert(n * 0 == 0) by (nonlinear_arith);
            }
        }
    }
}

/// The part of a role is on the members of that role alone.
proof fn lemma_role_parts(demands: Seq<(SquadRole, int)>, probe: int, d: int, k: int)
    requires
        0 <= d < k <= demands.len(),
        forall|e: int|
            0 <= e < demands.len() && e != d ==> (#[trigger] demands[e]).0.part()
                != demands[d].0.part(),
    ensures
        fielded_parts(slots_for(demands, probe, k), demands[d].0.part()) == fielded_parts(
            role_slots(demands[d].0, demands[d].1, probe),
            demands[d].0.part(),
        ),
    decreases k,
{
    let part = demands[d].0.part();
    let (role, parts) = demands[k - 1];
    let more = role_slots(role, parts, probe);
    lemma_fielded_concat(slots_for(demands, probe, k - 1), more, part);
    if k - 1 == d {
        lemma_other_roles_add_nothing(demands, probe, part, k - 1);
    } else {
        lemma_role_parts(demands, probe, d, k - 1);
        assert(role.part() != part);
        assert(fielded_parts(more, part) == 0) by {
            if parts > 0 {
                let count = members_for(role, parts, probe);
                let share = crate::fixed::ceil_quotient(parts, count);
                let slot = SquadSlot { role, body_type: BodyType::Sized(role.body(share as u32)) };
                lemma_fielded_copies(more, slot, part);
                assert(slot.body_type.spec().parts_of(part) == 0);
                let n = more.len() as int;
                assert(n * 0 == 0) by (nonlinear_arith);
            }
        }
    }
}

/// A fielded squad carries all that its force asks for: HEAL, WORK, RANGED_ATTACK against structures
/// and creeps together, TOUGH and CLAIM. It has from one to [`MAX_SIZED_MEMBERS`] members.
pub proof fn law_fielded_squad_meets_its_force(req: RequiredForce, member_energy: u32)
    requires
        is_fieldable(req, member_energy),
    ensures
        fielded_parts(force_slots(req, member_energy), Part::Heal) >= req.heal_parts,
        fielded_parts(force_slots(req, member_energy), Part::Work) >= req.dismantle_parts,
        fielded_parts(force_slots(req, member_energy), Part::RangedAttack)
            >= req.immune_struct_parts + req.anti_creep_parts,
        fielded_parts(force_slots(req, member_energy), Part::Tough) >= req.tough_parts,
        fielded_parts(force_slots(req, member_energy), Part::Claim) >= req.claim_parts,
        1 <= force_slots(req, member_energy).len() <= MAX_SIZED_MEMBERS,
{
    let demands = demands_of(req);
    let probe = probe_of(member_energy);
    assert forall|d: int| 0 <= d < 5 implies fielded_parts(
        force_slots(req, member_energy),
        (#[trigger] demands[d]).0.part(),
    ) >= demands[d].1 by {
        lemma_role_parts(demands, probe, d, 5);
        if demands[d].1 > 0 {
            law_role_carries_its_demand(demands[d].0, demands[d].1, probe);
        }
    }
    assert(demands[0].0.part() == Part::Heal);
    assert(demands[1].0.part() == Part::Work);
    assert(demands[2].0.part() == Part::RangedAttack);
    assert(demands[3].0.part() == Part::Tough);
    assert(demands[4].0.part() == Part::Claim);
}

/// The strength of a squad is that of its parts.
proof fn lemma_strength_of_parts(slots: Seq<SquadSlot>)
    ensures
        squad_heal(slots) == fielded_parts(slots, Part::Heal) * HEAL_POWER,
        squad_damage(slots) == fielded_parts(slots, Part::Work) * DISMANTLE_POWER + fielded_parts(
            slots,
            Part::Attack,
        ) * ATTACK_POWER + fielded_parts(slots, Part::RangedAttack) * RANGED_ATTACK_POWER,
        fielded_parts(slots, Part::Attack) >= 0,
    decreases slots.len(),
{
    if slots.len() > 0 {
        lemma_strength_of_parts(slots.drop_last());
    }
}

/// A fielded squad is as strong as its force asks for: it heals what its HEAL parts do, and takes off
/// structures what its WORK and RANGED_ATTACK parts do.
pub proof fn law_fielded_squad_is_strong_enough(req: RequiredForce, member_energy: u32)
    requires
        is_fieldable(req, member_energy),
    ensures
        strength(force_slots(req, member_energy)).heal_per_tick >= req.heal_parts * HEAL_POWER,
        strength(force_slots(req, member_energy)).structure_dps >= req.dismantle_parts
            * DISMANTLE_POWER + (req.immune_struct_parts + req.anti_creep_parts)
            * RANGED_ATTACK_POWER,
{
    let slots = force_slots(req, member_energy);
    lemma_strength_of_parts(slots);
    lemma_fielded_is_small(req, member_energy);
    lemma_prefix_is_weaker(slots, 0);
    law_fielded_squad_meets_its_force(req, member_energy);
}

/// A force that can be fielded asks for no more parts of a kind than the largest squad has.
pub proof fn lemma_fieldable_is_modest(req: RequiredForce, member_energy: u32)
    requires
        is_fieldable(req, member_energy),
    ensures
        req.heal_parts <= 200,
        req.dismantle_parts <= 200,
        req.immune_struct_parts + req.anti_creep_parts <= 200,
        req.tough_parts <= 200,
{
    let slots = force_slots(req, member_energy);
    lemma_slots_are_small(req, member_energy, 5);
    lemma_parts_of_small_members(slots, Part::Heal);
    lemma_parts_of_small_members(slots, Part::Work);
    lemma_parts_of_small_members(slots, Part::RangedAttack);
    lemma_parts_of_small_members(slots, Part::Tough);
    law_fielded_squad_meets_its_force(req, member_energy);
}

/// Small members have few parts of each kind.
proof fn lemma_parts_of_small_members(slots: Seq<SquadSlot>, part: Part)
    requires
        forall|i: int| 0 <= i < slots.len() ==> is_small(#[trigger] slots[i]),
    ensures
        fielded_parts(slots, part) <= 25 * slots.len(),
    decreases slots.len(),
{
    if slots.len() > 0 {
        let rest = slots.drop_last();
        assert forall|i: int| 0 <= i < rest.len() implies is_small(#[trigger] rest[i]) by {
            assert(rest[i] == slots[i]);
        }
        lemma_parts_of_small_members(rest, part);
        assert(is_small(slots[slots.len() - 1]));
    }
}

/// Over-powered and armored or not, a squad that starts from the floor has no less than the floor of
/// HEAL, and of RANGED_ATTACK.
pub proof fn law_floor_is_kept(force: RequiredForce, member_energy: u32, i: int)
    requires
        0 <= i < 12,
        is_fieldable(candidate(floored(force), i), member_energy),
    ensures
        fielded_parts(force_slots(candidate(floored(force), i), member_energy), Part::Heal)
            >= DEFAULT_FLOOR_PARTS,
        fielded_parts(force_slots(candidate(floored(force), i), member_energy), Part::RangedAttack)
            >= DEFAULT_FLOOR_PARTS,
{
    let base = floored(force);
    let factor = OVER_POWER_LADDER[i / 3] as int;
    crate::force_sizing::law_scaling_only_adds(base.heal_parts, factor);
    crate::force_sizing::law_scaling_only_adds(base.anti_creep_parts, factor);
    law_fielded_squad_meets_its_force(candidate(base, i), member_energy);
}

/// Every member of a fielded squad can be built on plains with the energy that members are planned
/// with.
pub proof fn law_members_can_be_built(req: RequiredForce, member_energy: u32, i: int)
    requires
        is_fieldable(req, member_energy),
        0 <= i < force_slots(req, member_energy).len(),
    ensures
        crate::bodies::fits(
            force_slots(req, member_energy)[i].body_type.spec(),
            MoveProfile::Plains,
            probe_of(member_energy),
        ),
{
    lemma_member_fits(req, member_energy, i, 5);
}

/// Each member of the first `k` roles can be built.
proof fn lemma_member_fits(req: RequiredForce, member_energy: u32, i: int, k: int)
    requires
        is_fieldable(req, member_energy),
        0 <= k <= 5,
        0 <= i < slots_for(demands_of(req), probe_of(member_energy), k).len(),
    ensures
        crate::bodies::fits(
            slots_for(demands_of(req), probe_of(member_energy), k)[i].body_type.spec(),
            MoveProfile::Plains,
            probe_of(member_energy),
        ),
    decreases k,
{
    if k > 0 {
        let probe = probe_of(member_energy);
        let (role, parts) = demands_of(req)[k - 1];
        let before = slots_for(demands_of(req), probe, k - 1);
        if i < before.len() {
            lemma_member_fits(req, member_energy, i, k - 1);
        } else {
            lemma_share_is_within_cap(parts, role.cap(probe));
            let share = crate::fixed::ceil_quotient(parts, members_for(role, parts, probe));
            lemma_role_fits(role, share as u32, probe);
        }
    }
}

/// A larger force never has fewer members.
pub proof fn law_more_force_never_fewer_members(
    less: RequiredForce,
    more: RequiredForce,
    member_energy: u32,
)
    requires
        less.heal_parts <= more.heal_parts,
        less.dismantle_parts <= more.dismantle_parts,
        less.immune_struct_parts <= more.immune_struct_parts,
        less.anti_creep_parts <= more.anti_creep_parts,
        less.tough_parts <= more.tough_parts,
        less.claim_parts <= more.claim_parts,
        is_fieldable(less, member_energy),
        is_fieldable(more, member_energy),
    ensures
        force_slots(less, member_energy).len() <= force_slots(more, member_energy).len(),
{
    lemma_members_grow(less, more, member_energy, 5);
}

/// The first `k` roles of a larger force have no fewer members.
proof fn lemma_members_grow(less: RequiredForce, more: RequiredForce, member_energy: u32, k: int)
    requires
        forall|d: int| 0 <= d < 5 ==> (#[trigger] demands_of(less)[d]).1 <= demands_of(more)[d].1,
        is_fieldable(more, member_energy),
        0 <= k <= 5,
    ensures
        slots_for(demands_of(less), probe_of(member_energy), k).len() <= slots_for(
            demands_of(more),
            probe_of(member_energy),
            k,
        ).len(),
    decreases k,
{
    if k > 0 {
        lemma_members_grow(less, more, member_energy, k - 1);
        let probe = probe_of(member_energy);
        let a = demands_of(less)[k - 1].1;
        let (role, b) = demands_of(more)[k - 1];
        assert(a <= b);
        if a > 0 {
            let cap = role.cap(probe);
            assert(cap >= 1);
            let n = crate::fixed::ceil_quotient(b, cap);
            crate::fixed::lemma_ceil_covers(b, cap, n);
            crate::fixed::lemma_ceil_covers(a, cap, n);
            crate::fixed::lemma_ceil_covers(a, cap, 0);
        }
    }
}

/// The best of the candidates can be fielded, and no candidate that can be fielded is worth more than
/// it by more than a tie.
pub proof fn law_no_candidate_beats_the_best(
    base: RequiredForce,
    member_energy: u32,
    evs: Seq<int>,
    n: int,
    i: int,
)
    requires
        evs.len() == 12,
        0 <= i < n <= 12,
        is_fieldable(candidate(base, i), member_energy),
    ensures
        best_candidate(base, member_energy, evs, n) is Some,
        best_candidate(base, member_energy, evs, n) matches Some(j) ==> {
            &&& 0 <= j < n
            &&& is_fieldable(candidate(base, j), member_energy)
            &&& evs[i] <= evs[j] + EV_TIE
        },
    decreases n,
{
    lemma_best_is_fieldable(base, member_energy, evs, n - 1);
    if i < n - 1 {
        law_no_candidate_beats_the_best(base, member_energy, evs, n - 1, i);
    }
}

/// The best candidate, where there is one, can be fielded.
pub proof fn lemma_best_is_fieldable(base: RequiredForce, member_energy: u32, evs: Seq<int>, n: int)
    requires
        n <= 12,
    ensures
        best_candidate(base, member_energy, evs, n) matches Some(j) ==> {
            &&& 0 <= j < n
            &&& is_fieldable(candidate(base, j), member_energy)
        },
    decreases n,
{
    if n > 0 {
        lemma_best_is_fieldable(base, member_energy, evs, n - 1);
    }
}

/// Where nothing shoots back, the outcome does not depend on the curve: the squad is sure to win if
/// it is in time, and sure not to if it is not.
pub proof fn law_harmless_target_is_decided<F: Fn(i128, i128) -> Probability>(
    curve: F,
    caps: SquadCapabilities,
    threat: Threat,
    window: u32,
    p: Probability,
)
    requires
        threat.is_harmless(),
        is_victory_probability(curve, caps, threat, window, p),
    ensures
        p == if is_in_time(caps, threat, window) {
            CERTAIN
        } else {
            0
        },
{
    let (survive, kill) = choose|survive: Probability, kill: Probability|
        {
            &&& #[trigger] crate::force_sizing::is_win_probability(
                curve,
                (caps.heal_per_tick * 1_000_000) as i128,
                threat.incoming as i128,
                survive,
            )
            &&& #[trigger] is_kill_probability(curve, caps, threat, window, kill)
            &&& p == survive * kill / CERTAIN as int
        };
    assert(survive == 1_000_000_000);
    assert(survive * kill == 1_000_000_000 * kill);
}

/// A pairing that is worth more is never quantized to less.
pub proof fn law_quantizing_keeps_the_order(a: int, b: int)
    requires
        a <= b,
    ensures
        quantized(a) <= quantized(b),
{
}

/// What a squad has to survive is the fire of the towers and the damage of the creeps together, and what it
/// has to destroy the structures' hits and the creeps'; of the creeps, each point weighs by the margin. So
/// creeps that do damage are never harmless, towers or not.
pub proof fn law_creeps_and_towers_threaten_together(
    defense: DefenseProfile,
    creeps: EnemyForce,
    others: EnemyForce,
    margin: Milli,
)
    requires
        crate::force_sizing::tower_fire(defense.towers@) * 1000 <= i64::MAX,
    ensures
        ({
            let fire = crate::force_sizing::tower_fire(defense.towers@) * 1000;
            let t = threat_of(defense, Some(creeps), margin);
            let u = threat_of(defense, Some(others), margin);
            let alone = threat_of(defense, None, margin);
            &&& t.incoming == alone.incoming + creeps.dps * margin
            &&& alone.incoming == fire * margin
            &&& t.towers == fire && alone.towers == fire
            &&& u.incoming - t.incoming == (others.dps - creeps.dps) * margin
            &&& t.hits == alone.hits + creeps.hits * margin
            &&& alone.hits == (defense.objective_hits + defense.breach_hits) * 1000
            &&& u.hits - t.hits == (others.hits - creeps.hits) * margin
            &&& creeps.dps > 0 && margin > 0 ==> !t.is_harmless()
            &&& alone.is_harmless() <==> fire == 0
        }),
{
    let fire = crate::force_sizing::tower_fire(defense.towers@) * 1000;
    crate::force_sizing::law_fire_is_not_negative(defense.towers@);
    let (a, b, m) = (creeps.dps as int, others.dps as int, margin as int);
    assert((fire + a) * m == fire * m + a * m) by (nonlinear_arith);
    assert((fire + b) * m == fire * m + b * m) by (nonlinear_arith);
    assert((b - a) * m == b * m - a * m) by (nonlinear_arith);
    let (h, k) = (creeps.hits as int, others.hits as int);
    assert((k - h) * m == k * m - h * m) by (nonlinear_arith);
    assert((fire + 0) * m == fire * m);
    assert(0 * m == 0) by (nonlinear_arith);
    if a > 0 && m > 0 {
        assert(fire * m >= 0 && a * m > 0) by (nonlinear_arith)
            requires
                fire >= 0,
                a > 0,
                m > 0,
        ;
    }
}

/// A squad wins where it survives and kills: it survives as the curve of its heal against all the incoming
/// damage says, and it kills, where anything shoots back, as the curve of the damage that it can do in the
/// time on site against all the hits says.
pub proof fn law_winning_is_surviving_and_killing<F: Fn(i128, i128) -> Probability>(
    curve: F,
    caps: SquadCapabilities,
    defense: DefenseProfile,
    enemy: Option<EnemyForce>,
    window: u32,
    params: PairingParams,
    p: Probability,
    incoming: i128,
    hits: i128,
)
    requires
        !defense.safe_mode,
        is_pairing_p_win(curve, caps, defense, enemy, window, params, p),
        crate::force_sizing::tower_fire(defense.towers@) * 1000 <= i64::MAX,
        incoming == (crate::force_sizing::tower_fire(defense.towers@) * 1000 + if enemy is Some {
            enemy->0.dps as int
        } else {
            0
        }) * params.dynamic_margin,
        hits == (defense.objective_hits + defense.breach_hits) * 1000 + if enemy is Some {
            enemy->0.hits * params.dynamic_margin
        } else {
            0
        },
        incoming > 0,
    ensures
        exists|survive: Probability, kill: Probability|
            {
                &&& #[trigger] crate::force_sizing::is_win_probability(
                    curve,
                    (caps.heal_per_tick * 1_000_000) as i128,
                    incoming,
                    survive,
                )
                &&& #[trigger] crate::force_sizing::is_win_probability(
                    curve,
                    (caps.structure_dps * window * 1000) as i128,
                    hits,
                    kill,
                )
                &&& p == survive * kill / 1_000_000_000
            },
{
    let m = params.dynamic_margin as int;
    assert(0 * m == 0) by (nonlinear_arith);
    let threat = threat_of(defense, enemy, params.dynamic_margin);
    crate::force_sizing::law_fire_is_not_negative(defense.towers@);
    assert(threat.incoming == incoming);
    assert(threat.hits == hits);
    let (survive, kill) = choose|survive: Probability, kill: Probability|
        {
            &&& #[trigger] crate::force_sizing::is_win_probability(
                curve,
                (caps.heal_per_tick * 1_000_000) as i128,
                threat.incoming as i128,
                survive,
            )
            &&& #[trigger] is_kill_probability(curve, caps, threat, window, kill)
            &&& p == survive * kill / CERTAIN as int
        };
    assert(crate::force_sizing::is_win_probability(
        curve,
        (caps.heal_per_tick * 1_000_000) as i128,
        incoming,
        survive,
    ));
    assert(crate::force_sizing::is_win_probability(
        curve,
        (caps.structure_dps * window * 1000) as i128,
        hits,
        kill,
    ));
}

/// Where nothing shoots back, a squad is sure to win exactly where there is nothing to destroy, or where it
/// does damage and what it can do in the time on site is enough; and sure not to where it is not. Under safe
/// mode it never wins.
pub proof fn law_undefended_is_won_in_time<F: Fn(i128, i128) -> Probability>(
    curve: F,
    caps: SquadCapabilities,
    defense: DefenseProfile,
    window: u32,
    params: PairingParams,
    p: Probability,
)
    requires
        is_pairing_p_win(curve, caps, defense, None, window, params, p),
        crate::force_sizing::tower_fire(defense.towers@) == 0,
    ensures
        defense.safe_mode ==> p == 0,
        ({
            let hits = defense.objective_hits + defense.breach_hits;
            let done = caps.structure_dps * window;
            &&& !defense.safe_mode && done >= hits && (hits == 0 || caps.structure_dps > 0) ==> p
                == 1_000_000_000
            &&& done < hits ==> p == 0
        }),
{
    let m = params.dynamic_margin as int;
    assert((0 + 0) * m == 0) by (nonlinear_arith);
    if !defense.safe_mode {
        law_harmless_target_is_decided(
            curve,
            caps,
            threat_of(defense, None, params.dynamic_margin),
            window,
            p,
        );
    }
}

/// Each room of travel costs its price and nothing else changes; what cannot be won is worth the travel
/// alone; and else the worth is the value, weighed by the chance to win, less the travel.
pub proof fn law_travel_costs_by_the_room<F: Fn(i128, i128) -> Probability>(
    curve: F,
    caps: SquadCapabilities,
    defense: DefenseProfile,
    enemy: Option<EnemyForce>,
    value: Milli,
    window: u32,
    near: u32,
    far: u32,
    params: PairingParams,
    ev: int,
)
    requires
        is_pairing_ev(curve, caps, defense, enemy, value, window, near, params, ev),
    ensures
        is_pairing_ev(
            curve,
            caps,
            defense,
            enemy,
            value,
            window,
            far,
            params,
            ev - params.w_travel * (far - near) * 1_000_000_000,
        ),
        defense.safe_mode ==> ev == -(params.w_travel * near * 1_000_000_000),
        value == 0 ==> ev == -(params.w_travel * near * 1_000_000_000),
        exists|p: Probability| #[trigger]
            is_pairing_p_win(curve, caps, defense, enemy, window, params, p) && ev
                + params.w_travel * near * 1_000_000_000 == p * value,
{
    let p = choose|p: Probability| #[trigger]
        is_pairing_p_win(curve, caps, defense, enemy, window, params, p) && ev == p * value
            - params.w_travel * near * CERTAIN;
    let (w, a, b) = (params.w_travel as int, near as int, far as int);
    assert(w * (b - a) == w * b - w * a) by (nonlinear_arith);
    let later = ev - w * (b - a) * 1_000_000_000;
    assert(later == p * value - w * b * CERTAIN);
    assert(is_pairing_p_win(curve, caps, defense, enemy, window, params, p));
    let v = value as int;
    assert(0 * v == 0) by (nonlinear_arith);
    assert(p * 0 == 0) by (nonlinear_arith);
}

/// Each member adds to a squad what its parts do and cost: HEAL twelve hits, WORK fifty, ATTACK thirty and
/// RANGED_ATTACK ten, a hundred hits of its own for each part, moves included, of which it has one for each
/// other part; and the squad can soak what its largest member holds.
pub proof fn law_each_member_adds_its_parts(slots: Seq<SquadSlot>, slot: SquadSlot)
    ensures
        squad_heal(Seq::empty()) == 0 && squad_damage(Seq::empty()) == 0,
        squad_tank_hits(Seq::empty()) == 0 && squad_energy(Seq::empty()) == 0 && squad_size(Seq::empty())
            == 0,
        ({
            let more = slots.push(slot);
            let b = slot.body_type.spec();
            let parts = b.tough + b.attack + b.ranged_attack + b.work + b.carry + b.heal + b.claim;
            let hits = 200 * parts;
            &&& squad_heal(more) == squad_heal(slots) + 12 * b.heal
            &&& squad_damage(more) == squad_damage(slots) + 50 * b.work + 30 * b.attack + 10
                * b.ranged_attack
            &&& squad_tank_hits(more) >= squad_tank_hits(slots) && squad_tank_hits(more) >= hits
            &&& squad_tank_hits(more) == squad_tank_hits(slots) || squad_tank_hits(more) == hits
            &&& squad_size(more) == squad_size(slots) + 2 * parts
            &&& squad_energy(more) == squad_energy(slots) + 60 * b.tough + 130 * b.attack + 200
                * b.ranged_attack + 150 * b.work + 100 * b.carry + 300 * b.heal + 650 * b.claim
        }),
        strength_fits(slots) ==> {
            let s = strength(slots);
            &&& s.heal_per_tick == squad_heal(slots)
            &&& s.structure_dps == squad_damage(slots)
            &&& s.tank_effective_hp == squad_tank_hits(slots)
        },
{
    assert(slots.push(slot).drop_last() =~= slots);
    lemma_sums_are_counted(slots);
}

/// No sum over the members is negative.
proof fn lemma_sums_are_counted(slots: Seq<SquadSlot>)
    ensures
        0 <= squad_heal(slots),
        0 <= squad_damage(slots),
        0 <= squad_tank_hits(slots),
    decreases slots.len(),
{
    if slots.len() > 0 {
        lemma_sums_are_counted(slots.drop_last());
    }
}

/// The spawn that is free first is one that nobody undercuts, the first of such.
pub proof fn law_first_free_is_least(lanes: Seq<u32>)
    requires
        lanes.len() >= 1,
    ensures
        0 <= first_free(lanes) < lanes.len(),
        forall|j: int| 0 <= j < lanes.len() ==> lanes[first_free(lanes)] <= #[trigger] lanes[j],
        forall|j: int| 0 <= j < first_free(lanes) ==> lanes[first_free(lanes)] < #[trigger] lanes[j],
    decreases lanes.len(),
{
    if lanes.len() > 1 {
        let rest = lanes.drop_last();
        law_first_free_is_least(rest);
        assert(forall|j: int| 0 <= j < rest.len() ==> rest[j] == #[trigger] lanes[j]);
        assert(lanes.last() == lanes[lanes.len() - 1]);
    }
}

/// Each body goes to the spawn that is free first, which it keeps busy for three ticks a part; and a squad
/// is there when the last spawn is done.
pub proof fn law_bodies_queue_where_it_is_free(counts: Seq<u32>, parts: u32, n: int, lane: int)
    requires
        n >= 1,
        0 <= lane < n,
        forall|j: int|
            0 <= j < n ==> lanes_after(counts, n)[lane] <= #[trigger] lanes_after(counts, n)[j],
        forall|j: int|
            0 <= j < lane ==> lanes_after(counts, n)[lane] < #[trigger] lanes_after(counts, n)[j],
        lanes_after(counts, n)[lane] + 3 * parts <= u32::MAX,
    ensures
        lanes_after(counts, n).len() == n,
        lanes_after(counts.push(parts), n).len() == n,
        lanes_after(counts.push(parts), n)[lane] == lanes_after(counts, n)[lane] + 3 * parts,
        forall|j: int|
            0 <= j < n && j != lane ==> #[trigger] lanes_after(counts.push(parts), n)[j] == lanes_after(
                counts,
                n,
            )[j],
        forall|j: int| 0 <= j < n ==> #[trigger] lanes_after(Seq::empty(), n)[j] == 0,
{
    lemma_lanes_are_kept(counts, n);
    assert(counts.push(parts).drop_last() =~= counts);
    let lanes = lanes_after(counts, n);
    law_first_free_is_least(lanes);
    let first = first_free(lanes);
    if first < lane {
        assert(lanes[lane] < lanes[first]);
    } else if lane < first {
        assert(lanes[first] < lanes[lane]);
    }
    assert(first == lane);
}

/// There is a lane for each spawn.
proof fn lemma_lanes_are_kept(counts: Seq<u32>, n: int)
    requires
        n >= 1,
    ensures
        lanes_after(counts, n).len() == n,
    decreases counts.len(),
{
    if counts.len() > 0 {
        lemma_lanes_are_kept(counts.drop_last(), n);
        law_first_free_is_least(lanes_after(counts.drop_last(), n));
    }
}

/// The largest of some numbers is one of them, and none is larger.
pub proof fn law_largest_is_largest(s: Seq<u32>)
    requires
        s.len() >= 1,
    ensures
        forall|i: int| 0 <= i < s.len() ==> #[trigger] s[i] <= largest(s),
        exists|i: int| 0 <= i < s.len() && #[trigger] s[i] == largest(s),
    decreases s.len(),
{
    let rest = s.drop_last();
    assert(s.last() == s[s.len() - 1]);
    assert(forall|i: int| 0 <= i < rest.len() ==> rest[i] == #[trigger] s[i]);
    if s.len() > 1 {
        law_largest_is_largest(rest);
        let i = choose|i: int| 0 <= i < rest.len() && #[trigger] rest[i] == largest(rest);
        assert(s[i] == largest(rest));
    } else {
        assert(largest(rest) == 0);
    }
}

/// A member of a role has as many parts as its energy buys, each with a move, and twenty-five at most.
pub proof fn law_member_buys_what_it_can(role: SquadRole, energy: int, n: u32)
    requires
        0 <= energy,
    ensures
        ({
            let unit = match role {
                SquadRole::Tank => 60int,
                SquadRole::Healer => 300,
                SquadRole::RangedDPS => 200,
                SquadRole::MeleeDPS => 130,
                SquadRole::Dismantler => 150,
                SquadRole::Hauler => 100,
                SquadRole::Declaimer => 650,
            };
            let cap = role.cap(energy);
            &&& 0 <= cap <= 25
            &&& cap * unit <= energy
            &&& cap == 25 || energy < (cap + 1) * unit
        }),
        role.body(n).weight() == n,
        role.body(n).parts_of(role.part()) == n,
{
    let unit = role.unit_energy();
    vstd::arithmetic::div_mod::lemma_fundamental_div_mod(energy, unit);
    vstd::arithmetic::div_mod::lemma_div_pos_is_pos(energy, unit);
    let q = energy / unit;
    let cap = role.cap(energy);
    assert(q * unit <= energy < (q + 1) * unit) by (nonlinear_arith)
        requires
            energy == unit * q + energy % unit,
            0 <= energy % unit < unit,
    ;
    assert(cap * unit <= q * unit) by (nonlinear_arith)
        requires
            cap <= q,
            unit >= 0,
    ;
}

/// Of each role come the fewest members that carry what is asked for, and they share it evenly: each the
/// least that is enough. Members of one role stand together, healers first, then those that dismantle, that
/// shoot, that take damage and that claim.
pub proof fn law_fewest_members_share_evenly(role: SquadRole, parts: int, probe: int, i: int)
    requires
        1 <= parts,
        role.cap(probe) >= 1,
        0 <= i < role_slots(role, parts, probe).len(),
    ensures
        ({
            let slots = role_slots(role, parts, probe);
            let share = slots[i].body_type.spec().parts_of(role.part());
            &&& (slots.len() - 1) * role.cap(probe) < parts <= slots.len() * role.cap(probe)
            &&& (share - 1) * slots.len() < parts <= share * slots.len()
            &&& slots[i].role == role
            &&& slots[i].body_type.spec().weight() == share
        }),
{
    let cap = role.cap(probe);
    let count = members_for(role, parts, probe);
    lemma_share_is_within_cap(parts, cap);
    crate::fixed::law_ceiling_is_least(parts, cap);
    crate::fixed::law_ceiling_is_least(parts, count);
    crate::fixed::lemma_ceil_covers(parts, cap, 0);
}

/// What a force asks for goes to one role each, shots against structures and creeps to the same; nothing is
/// fielded where a role that is asked for cannot be had, nor more than eight members, nor nobody.
pub proof fn law_force_is_fielded_by_role(req: RequiredForce, member_energy: u32)
    ensures
        ({
            let probe = if member_energy < 3000 {
                member_energy as int
            } else {
                3000
            };
            let slots = force_slots(req, member_energy);
            &&& slots == role_slots(SquadRole::Healer, req.heal_parts as int, probe) + role_slots(
                SquadRole::Dismantler,
                req.dismantle_parts as int,
                probe,
            ) + role_slots(
                SquadRole::RangedDPS,
                req.immune_struct_parts + req.anti_creep_parts,
                probe,
            ) + role_slots(SquadRole::Tank, req.tough_parts as int, probe) + role_slots(
                SquadRole::Declaimer,
                req.claim_parts as int,
                probe,
            )
            &&& is_fieldable(req, member_energy) <==> {
                &&& 1 <= slots.len() <= 8
                &&& req.heal_parts > 0 ==> probe >= 300
                &&& req.dismantle_parts > 0 ==> probe >= 150
                &&& req.immune_struct_parts + req.anti_creep_parts > 0 ==> probe >= 200
                &&& req.tough_parts > 0 ==> probe >= 60
                &&& req.claim_parts > 0 ==> probe >= 650
            }
        }),
{
    let probe = probe_of(member_energy);
    let demands = demands_of(req);
    reveal_with_fuel(slots_for, 6);
    assert(demands[0] == (SquadRole::Healer, req.heal_parts as int));
    assert(demands[1] == (SquadRole::Dismantler, req.dismantle_parts as int));
    assert(demands[2] == (SquadRole::RangedDPS, req.immune_struct_parts + req.anti_creep_parts));
    assert(demands[3] == (SquadRole::Tank, req.tough_parts as int));
    assert(demands[4] == (SquadRole::Declaimer, req.claim_parts as int));
    law_member_buys_what_it_can(SquadRole::Healer, probe, 0);
    law_member_buys_what_it_can(SquadRole::Dismantler, probe, 0);
    law_member_buys_what_it_can(SquadRole::RangedDPS, probe, 0);
    law_member_buys_what_it_can(SquadRole::Tank, probe, 0);
    law_member_buys_what_it_can(SquadRole::Declaimer, probe, 0);
    assert(force_slots(req, member_energy) =~= role_slots(
        SquadRole::Healer,
        req.heal_parts as int,
        probe,
    ) + role_slots(SquadRole::Dismantler, req.dismantle_parts as int, probe) + role_slots(
        SquadRole::RangedDPS,
        req.immune_struct_parts + req.anti_creep_parts,
        probe,
    ) + role_slots(SquadRole::Tank, req.tough_parts as int, probe) + role_slots(
        SquadRole::Declaimer,
        req.claim_parts as int,
        probe,
    ));
}

/// A single creep goes free, two go in line and more in a box, those in formation strictly.
pub proof fn law_formation_grows_with_the_squad(count: int)
    ensures
        formation_of(count).0 == FormationShape::Free <==> count <= 1,
        formation_of(count).0 == FormationShape::Line <==> count == 2,
        formation_of(count).0 == FormationShape::Box2x2 <==> count >= 3,
        formation_of(count).1 == FormationMode::Strict <==> count >= 2,
{
}

/// The most that one squad can bring is five healers and three members that kill, each as strong as its
/// energy buys, `healer` and `killer` parts; the hits that it can lose are those of one that kills.
pub proof fn law_ceiling_is_five_and_three(
    objective: DoctrineObjective,
    member_energy: u32,
    window: u32,
    healer: int,
    killer: int,
)
    requires
        ({
            let probe = if member_energy < 3000 {
                member_energy as int
            } else {
                3000
            };
            let unit = if objective == DoctrineObjective::DismantleStructure {
                150int
            } else {
                200
            };
            &&& 0 <= healer <= 25 && healer * 300 <= probe && (healer == 25 || probe < (healer + 1) * 300)
            &&& 0 <= killer <= 25 && killer * unit <= probe && (killer == 25 || probe < (killer + 1) * unit)
        }),
    ensures
        ({
            let most = ceiling_of(objective, member_energy, window);
            let power = if objective == DoctrineObjective::DismantleStructure {
                50int
            } else {
                10
            };
            &&& most.max_heal_per_tick == 5 * healer * 12_000
            &&& most.max_dismantle_dps == 3 * killer * power * 1000
            &&& most.tank_effective_hp == killer * 200_000
            &&& most.onsite_budget_ticks == window
        }),
{
    let probe = probe_of(member_energy);
    law_member_buys_what_it_can(SquadRole::Healer, probe, 0);
    law_member_buys_what_it_can(killer_of(objective), probe, 0);
    assert(SquadRole::Healer.cap(probe) == healer);
    assert(killer_of(objective).cap(probe) == killer);
    if objective == DoctrineObjective::DismantleStructure {
        assert(3 * killer * 50 * 1000 == killer * 150_000) by (nonlinear_arith);
    } else {
        assert(3 * killer * 10 * 1000 == killer * 30_000) by (nonlinear_arith);
    }
}

/// The search tries a base as it is, and a quarter, a half and a whole more of it; each without more TOUGH,
/// and with a tenth and a fifth of the parts that kill.
pub proof fn law_search_tries_every_rung(base: RequiredForce, i: int)
    requires
        0 <= i < 12,
        candidate(base, i).heal_parts < u32::MAX,
        candidate(base, i).dismantle_parts < u32::MAX,
        candidate(base, i).immune_struct_parts < u32::MAX,
        candidate(base, i).anti_creep_parts < u32::MAX,
        candidate(base, i).tough_parts < u32::MAX,
        candidate(base, i).claim_parts < u32::MAX,
    ensures
        ({
            let force = candidate(base, i);
            let percent = if i < 3 {
                100int
            } else if i < 6 {
                125
            } else if i < 9 {
                150
            } else {
                200
            };
            let killers = force.dismantle_parts + force.immune_struct_parts + force.anti_creep_parts;
            &&& (force.heal_parts - 1) * 100 < base.heal_parts * percent <= force.heal_parts * 100
            &&& (force.dismantle_parts - 1) * 100 < base.dismantle_parts * percent <= force.dismantle_parts
                * 100
            &&& (force.immune_struct_parts - 1) * 100 < base.immune_struct_parts * percent
                <= force.immune_struct_parts * 100
            &&& (force.anti_creep_parts - 1) * 100 < base.anti_creep_parts * percent
                <= force.anti_creep_parts * 100
            &&& (force.claim_parts - 1) * 100 < base.claim_parts * percent <= force.claim_parts * 100
            &&& i % 3 == 0 || killers == 0 ==> (force.tough_parts - 1) * 100 < base.tough_parts * percent
                <= force.tough_parts * 100
            &&& i % 3 == 1 && killers > 0 ==> (force.tough_parts - 1) * 10 < killers <= force.tough_parts
                * 10
            &&& i % 3 == 2 && killers > 0 ==> (force.tough_parts - 1) * 10 < 2 * killers
                <= force.tough_parts * 10
        }),
        candidate(base, 0) == base,
{
    let factor = OVER_POWER_LADDER[i / 3] as int;
    let force = base.scaled_by(factor);
    crate::force_sizing::law_scaling_only_adds(base.heal_parts, 1_000_000);
    crate::force_sizing::law_scaling_only_adds(base.dismantle_parts, 1_000_000);
    crate::force_sizing::law_scaling_only_adds(base.immune_struct_parts, 1_000_000);
    crate::force_sizing::law_scaling_only_adds(base.anti_creep_parts, 1_000_000);
    crate::force_sizing::law_scaling_only_adds(base.tough_parts, 1_000_000);
    crate::force_sizing::law_scaling_only_adds(base.claim_parts, 1_000_000);
    let percent = if i < 3 {
        100int
    } else if i < 6 {
        125
    } else if i < 9 {
        150
    } else {
        200
    };
    assert(i < 3 ==> i / 3 == 0);
    assert(3 <= i < 6 ==> i / 3 == 1);
    assert(6 <= i < 9 ==> i / 3 == 2);
    assert(9 <= i ==> i / 3 == 3);
    assert(factor == percent * 10_000);
    lemma_rung(base.heal_parts, factor, percent);
    lemma_rung(base.dismantle_parts, factor, percent);
    lemma_rung(base.immune_struct_parts, factor, percent);
    lemma_rung(base.anti_creep_parts, factor, percent);
    lemma_rung(base.claim_parts, factor, percent);
    if force.tough_parts < u32::MAX {
        lemma_rung(base.tough_parts, factor, percent);
    }
    let killers = force.dismantle_parts + force.immune_struct_parts + force.anti_creep_parts;
    crate::fixed::law_ceiling_is_least(100 * killers, 1000);
    crate::fixed::law_ceiling_is_least(200 * killers, 1000);
    crate::fixed::lemma_ceil_covers(100 * killers, 1000, -1);
    crate::fixed::lemma_ceil_covers(200 * killers, 1000, -1);
    assert(TOUGH_LADDER[0] == 0 && TOUGH_LADDER[1] == 100 && TOUGH_LADDER[2] == 200);
    assert(i % 3 == 0 ==> TOUGH_LADDER[i % 3] == 0);
    assert(i % 3 == 1 ==> TOUGH_LADDER[i % 3] == 100);
    assert(i % 3 == 2 ==> TOUGH_LADDER[i % 3] == 200);
}

/// A rung asks for the least parts that are that many percent.
proof fn lemma_rung(parts: u32, factor: int, percent: int)
    requires
        factor == percent * 10_000,
        percent >= 100,
        crate::force_sizing::scaled_parts(parts as int, factor) < u32::MAX,
    ensures
        ({
            let n = crate::force_sizing::scaled_parts(parts as int, factor);
            (n - 1) * 100 < parts * percent <= n * 100
        }),
{
    crate::force_sizing::law_scaling_is_least(parts, factor);
    assert(parts * factor == (parts * percent) * 10_000) by (nonlinear_arith)
        requires
            factor == percent * 10_000,
    ;
}

/// A composition is worth the value of the target, weighed by the chance to win, less the price of its
/// energy and of its members: one more of either costs exactly its price.
pub proof fn law_composition_costs_its_price(
    p: Probability,
    value: Milli,
    energy: int,
    members: int,
    more: int,
    params: CompositionParams,
)
    ensures
        expected_value(p, value, 0, 0, params) == p * value,
        expected_value(p, value, energy + more, members, params) == expected_value(
            p,
            value,
            energy,
            members,
            params,
        ) - params.w_energy * more * 1_000_000_000,
        expected_value(p, value, energy, members + more, params) == expected_value(
            p,
            value,
            energy,
            members,
            params,
        ) - params.w_creep * more * 1_000_000_000,
{
    let (w, c) = (params.w_energy as int, params.w_creep as int);
    assert(w * (energy + more) == w * energy + w * more) by (nonlinear_arith);
    assert(c * (members + more) == c * members + c * more) by (nonlinear_arith);
    assert(w * 0 == 0 && c * 0 == 0) by (nonlinear_arith);
}

/// Where the verdict binds, what is fielded is worth more than the threshold; where it does not, something
/// is fielded whenever some candidate can be; and what is fielded is one of the candidates.
pub proof fn law_only_what_is_worth_it_is_fielded<F: Fn(i128, i128) -> Probability>(
    curve: F,
    base: RequiredForce,
    threat: Threat,
    window: u32,
    value: Milli,
    honor_verdict: bool,
    params: CompositionParams,
    r: Option<SquadComposition>,
    i: int,
)
    requires
        is_optimum(curve, base, threat, window, value, honor_verdict, params, r),
        0 <= i < 12,
    ensures
        honor_verdict && r is Some ==> exists|ev: int|
            ev > params.commit_ev_threshold * 1_000_000_000 && #[trigger] is_ev_of(
                curve,
                r->0.slots@,
                threat,
                window,
                value,
                params,
                ev,
            ),
        !honor_verdict && is_fieldable(candidate(base, i), params.member_energy) ==> r is Some,
        r is Some ==> exists|j: int|
            0 <= j < 12 && is_fieldable(#[trigger] candidate(base, j), params.member_energy)
                && is_squad_of(r->0, candidate(base, j), params.member_energy),
        r is None && is_fieldable(candidate(base, i), params.member_energy) ==> exists|ev: int|
            ev <= params.commit_ev_threshold * 1_000_000_000 + 1_000_000 && #[trigger] is_ev_of(
                curve,
                force_slots(candidate(base, i), params.member_energy),
                threat,
                window,
                value,
                params,
                ev,
            ),
{
    let evs = choose|evs: Seq<int>|
        {
            &&& #[trigger] are_evs_of(curve, base, threat, window, value, params, evs)
            &&& match best_candidate(base, params.member_energy, evs, 12) {
                None => r is None,
                Some(i) => if honor_verdict && evs[i] <= params.commit_ev_threshold * CERTAIN {
                    r is None
                } else {
                    r is Some && is_squad_of(r->0, candidate(base, i), params.member_energy)
                },
            }
        };
    lemma_best_is_fieldable(base, params.member_energy, evs, 12);
    if is_fieldable(candidate(base, i), params.member_energy) {
        law_no_candidate_beats_the_best(base, params.member_energy, evs, 12, i);
    }
    match best_candidate(base, params.member_energy, evs, 12) {
        Some(j) => {
            assert(is_fieldable(candidate(base, j), params.member_energy));
            assert(is_ev_of(
                curve,
                force_slots(candidate(base, j), params.member_energy),
                threat,
                window,
                value,
                params,
                evs[j],
            ));
        },
        None => {},
    }
}

/// Among candidates that are worth the same but for a tie of a thousandth of a value point, the least force
/// is taken: the first that can be fielded, where none after it is worth more by more than a tie.
pub proof fn law_ties_go_to_the_least_force(
    base: RequiredForce,
    member_energy: u32,
    evs: Seq<int>,
    first: int,
    n: int,
)
    requires
        0 <= first < n <= 12,
        is_fieldable(candidate(base, first), member_energy),
        forall|i: int|
            0 <= i < first ==> !is_fieldable(#[trigger] candidate(base, i), member_energy),
        forall|i: int|
            first < i < n && is_fieldable(#[trigger] candidate(base, i), member_energy) ==> evs[i]
                <= evs[first] + 1_000_000,
    ensures
        best_candidate(base, member_energy, evs, n) == Some(first),
    decreases n,
{
    if n - 1 > first {
        law_ties_go_to_the_least_force(base, member_energy, evs, first, n - 1);
        assert(is_fieldable(candidate(base, n - 1), member_energy) ==> evs[n - 1] <= evs[first]
            + 1_000_000);
    } else {
        lemma_none_is_best(base, member_energy, evs, first);
    }
}

/// Where none can be fielded there is no best.
proof fn lemma_none_is_best(base: RequiredForce, member_energy: u32, evs: Seq<int>, n: int)
    requires
        forall|i: int| 0 <= i < n ==> !is_fieldable(#[trigger] candidate(base, i), member_energy),
    ensures
        best_candidate(base, member_energy, evs, n) is None,
    decreases n,
{
    if n > 0 {
        lemma_none_is_best(base, member_energy, evs, n - 1);
        assert(!is_fieldable(candidate(base, n - 1), member_energy));
    }
}

/// A force that must go whatever the verdict has four HEAL and four RANGED_ATTACK at least, unless there is
/// known to be no defense; any other is as the verdict asks.
pub proof fn law_ungated_search_starts_from_the_floor(
    objective: DoctrineObjective,
    defense: DefenseProfile,
    enemy: Option<EnemyForce>,
    window: u32,
    coordination: EnemyCoordination,
    importance: Milli,
    honor_verdict: bool,
    undefended: bool,
    params: CompositionParams,
)
    ensures
        ({
            let asked = crate::doctrine::requirement(
                objective,
                defense,
                enemy,
                ceiling_of(objective, params.member_energy, window),
                coordination,
                importance,
                params.hold_margin,
                params.over_power_margin,
            ).1;
            let base = search_base(
                objective,
                defense,
                enemy,
                window,
                coordination,
                importance,
                honor_verdict,
                undefended,
                params,
            );
            &&& honor_verdict || undefended ==> base == asked
            &&& !honor_verdict && !undefended ==> {
                &&& base.heal_parts >= 4 && base.anti_creep_parts >= 4
                &&& base.heal_parts >= asked.heal_parts && base.anti_creep_parts >= asked.anti_creep_parts
                &&& base.heal_parts == 4 || base.heal_parts == asked.heal_parts
                &&& base.anti_creep_parts == 4 || base.anti_creep_parts == asked.anti_creep_parts
            }
            &&& base.dismantle_parts == asked.dismantle_parts
            &&& base.immune_struct_parts == asked.immune_struct_parts
            &&& base.tough_parts == asked.tough_parts
            &&& base.claim_parts == asked.claim_parts
        }),
{
}

/// Quantizing goes to the nearest number of thousandths, from halfway away from zero.
pub proof fn law_quantizing_goes_to_the_nearest(ev: int)
    requires
        i64::MIN < quantized(ev) < i64::MAX,
    ensures
        ({
            let off = quantized(ev) * 1_000_000_000 - ev;
            &&& -500_000_000 <= off <= 500_000_000
            &&& ev >= 0 ==> off > -500_000_000
            &&& ev <= 0 ==> off < 500_000_000
        }),
{
}

/// The bodies are queued from the largest to the smallest, each of them once.
pub proof fn law_larger_bodies_are_queued_first(sorted: Seq<u32>, counts: Seq<u32>, i: int)
    requires
        is_sorted_from(sorted, counts),
        0 <= i < counts.len(),
    ensures
        sorted.len() == counts.len(),
        forall|a: int, b: int| 0 <= a < b < sorted.len() ==> sorted[a] >= sorted[b],
        sorted.contains(counts[i]),
        total(sorted) == total(counts),
{
    broadcast use vstd::seq_lib::group_to_multiset_ensures;

    lemma_total_of_multiset(sorted, counts);
    assert(sorted.len() == sorted.to_multiset().len());
    assert(counts.len() == counts.to_multiset().len());
    assert(counts.contains(counts[i]));
    assert(counts.to_multiset().count(counts[i]) > 0);
}

/// A number that is replaced changes the sum by the difference.
proof fn lemma_total_of_update(s: Seq<u32>, i: int, v: u32)
    requires
        0 <= i < s.len(),
    ensures
        total(s.update(i, v)) == total(s) - s[i] + v,
    decreases s.len(),
{
    if i == s.len() - 1 {
        assert(s.update(i, v).drop_last() =~= s.drop_last());
    } else {
        lemma_total_of_update(s.drop_last(), i, v);
        assert(s.update(i, v).drop_last() =~= s.drop_last().update(i, v));
    }
}

/// No number is larger than the sum, and the sum no larger than the largest taken so often.
proof fn lemma_total_and_largest(s: Seq<u32>)
    requires
        s.len() >= 1,
    ensures
        largest(s) <= total(s) <= s.len() * largest(s),
        0 <= largest(s),
    decreases s.len(),
{
    let rest = s.drop_last();
    if s.len() > 1 {
        lemma_total_and_largest(rest);
        let (n, a, b) = (rest.len() as int, largest(rest), largest(s));
        assert(n * a <= n * b) by (nonlinear_arith)
            requires
                n >= 0,
                a <= b,
        ;
        assert((n + 1) * b == n * b + b) by (nonlinear_arith);
    } else {
        assert(total(rest) == 0 && largest(rest) == 0);
        let b = largest(s);
        assert(1 * b == b) by (nonlinear_arith);
    }
}

/// The spawns are busy for three ticks a part, all together, and one of them as long as each body takes.
proof fn lemma_lanes_sum_up(counts: Seq<u32>, n: int)
    requires
        n >= 1,
        3 * total(counts) <= u32::MAX,
    ensures
        lanes_after(counts, n).len() == n,
        total(lanes_after(counts, n)) == 3 * total(counts),
        forall|i: int| 0 <= i < counts.len() ==> 3 * (#[trigger] counts[i]) <= largest(
            lanes_after(counts, n),
        ),
    decreases counts.len(),
{
    lemma_lanes_are_kept(counts, n);
    if counts.len() == 0 {
        lemma_total_of_zeros(lanes_after(counts, n));
    } else {
        let rest = counts.drop_last();
        lemma_total_of_prefix(counts, rest.len() as int);
        assert(counts.take(rest.len() as int) =~= rest);
        lemma_lanes_sum_up(rest, n);
        let lanes = lanes_after(rest, n);
        law_first_free_is_least(lanes);
        let lane = first_free(lanes);
        lemma_total_and_largest(lanes);
        law_largest_is_largest(lanes);
        assert(lanes[lane] <= 3 * total(rest));
        let after = lanes_after(counts, n);
        lemma_total_of_update(lanes, lane, (lanes[lane] + counts.last() * CREEP_SPAWN_TIME) as u32);
        law_largest_is_largest(after);
        assert(after[lane] <= largest(after));
        let top = choose|i: int| 0 <= i < lanes.len() && #[trigger] lanes[i] == largest(lanes);
        assert(lanes[top] <= after[top] <= largest(after));
        assert forall|i: int| 0 <= i < counts.len() implies 3 * (#[trigger] counts[i]) <= largest(
            after,
        ) by {
            if i < rest.len() {
                assert(rest[i] == counts[i]);
            }
        }
    }
}

/// Nothing sums up to nothing.
proof fn lemma_total_of_zeros(s: Seq<u32>)
    requires
        forall|i: int| 0 <= i < s.len() ==> #[trigger] s[i] == 0,
    ensures
        total(s) == 0,
    decreases s.len(),
{
    if s.len() > 0 {
        lemma_total_of_zeros(s.drop_last());
        assert(s.last() == s[s.len() - 1]);
    }
}

/// The parts of a squad are those of its bodies.
proof fn lemma_sizes_sum_up(slots: Seq<SquadSlot>)
    requires
        squad_size(slots) <= u32::MAX,
    ensures
        total(body_sizes(slots)) == squad_size(slots),
        0 <= squad_size(slots),
        forall|i: int|
            0 <= i < slots.len() ==> #[trigger] body_sizes(slots)[i] == slots[i].body_type.size(),
    decreases slots.len(),
{
    if slots.len() > 0 {
        let rest = slots.drop_last();
        lemma_size_is_counted(rest);
        lemma_sizes_sum_up(rest);
        assert(body_sizes(slots).drop_last() =~= body_sizes(rest));
        assert forall|i: int| 0 <= i < slots.len() implies #[trigger] body_sizes(slots)[i]
            == slots[i].body_type.size() by {
            if i < rest.len() {
                assert(body_sizes(rest)[i] == rest[i].body_type.size());
                assert(rest[i] == slots[i]);
            }
        }
    }
}

/// No squad has less than no parts.
proof fn lemma_size_is_counted(slots: Seq<SquadSlot>)
    ensures
        0 <= squad_size(slots),
    decreases slots.len(),
{
    if slots.len() > 0 {
        lemma_size_is_counted(slots.drop_last());
    }
}

/// Spawning takes three ticks a part: one spawn takes that for all parts, several share it but need at least
/// that for the largest body and for their share of all; and without spawns or members it never ends.
pub proof fn law_spawning_takes_three_ticks_a_part(
    slots: Seq<SquadSlot>,
    spawns: int,
    ticks: int,
    i: int,
)
    requires
        is_spawn_time(slots, spawns, ticks),
        3 * squad_size(slots) <= u32::MAX,
        0 <= spawns,
        0 <= i < slots.len(),
    ensures
        spawns == 0 ==> ticks == u32::MAX,
        spawns == 1 ==> ticks == 3 * squad_size(slots),
        spawns >= 1 ==> {
            &&& ticks <= 3 * squad_size(slots)
            &&& 3 * squad_size(slots) <= spawns * ticks
            &&& 3 * slots[i].body_type.size() <= ticks
        },
        is_spawn_time(Seq::empty(), spawns, u32::MAX as int),
{
    if spawns >= 1 {
        let sorted = choose|sorted: Seq<u32>| #[trigger]
            is_sorted_from(sorted, body_sizes(slots)) && ticks == largest(lanes_after(sorted, spawns));
        lemma_sizes_sum_up(slots);
        law_larger_bodies_are_queued_first(sorted, body_sizes(slots), i);
        lemma_lanes_sum_up(sorted, spawns);
        lemma_total_and_largest(lanes_after(sorted, spawns));
        let size = body_sizes(slots)[i];
        let k = choose|k: int| 0 <= k < sorted.len() && sorted[k] == size;
        assert(3 * sorted[k] <= ticks);
        assert(1 * ticks == ticks) by (nonlinear_arith);
    }
}

/// Numbers are written with their decimal digits, the first of them not a zero unless it is alone.
pub proof fn law_numbers_are_written_in_decimal(n: nat, d: int)
    requires
        0 <= d < 10,
    ensures
        digit(d).len() == 1,
        digit(d)[0] as int == '0' as int + d,
        decimal(d as nat) == digit(d),
        n >= 1 ==> decimal((10 * n + d) as nat) == decimal(n) + digit(d),
{
    reveal_strlit("0");
    reveal_strlit("1");
    reveal_strlit("2");
    reveal_strlit("3");
    reveal_strlit("4");
    reveal_strlit("5");
    reveal_strlit("6");
    reveal_strlit("7");
    reveal_strlit("8");
    reveal_strlit("9");
    let whole = (10 * n + d) as nat;
    assert(whole / 10 == n && whole % 10 == d);
}

/// A label tells each run of members of one role by their number and the role, and then the rest.
pub proof fn law_label_tells_the_runs(slots: Seq<SquadSlot>, n: nat)
    requires
        1 <= n <= slots.len(),
        forall|i: int| 0 <= i < n ==> (#[trigger] slots[i]).role == slots[0].role,
        n < slots.len() ==> slots[n as int].role != slots[0].role,
    ensures
        tally(slots) == decimal(n) + "×"@ + (match slots[0].role {
            SquadRole::Tank => "Tank"@,
            SquadRole::Healer => "Healer"@,
            SquadRole::RangedDPS => "RangedDPS"@,
            SquadRole::MeleeDPS => "MeleeDPS"@,
            SquadRole::Dismantler => "Dismantler"@,
            SquadRole::Hauler => "Hauler"@,
            SquadRole::Declaimer => "Declaimer"@,
        }) + if n == slots.len() {
            Seq::empty()
        } else {
            " "@ + tally(slots.skip(n as int))
        },
        label_of(slots) == "Assembled "@ + tally(slots),
{
    lemma_run_is(slots, n);
    let run = decimal(n) + "×"@ + slots[0].role.title();
    if n == slots.len() {
        assert(run + Seq::<char>::empty() =~= run);
    } else {
        assert(run + " "@ + tally(slots.skip(n as int)) =~= run + (" "@ + tally(
            slots.skip(n as int),
        )));
    }
}

/// A run is as long as the role stays the same.
proof fn lemma_run_is(slots: Seq<SquadSlot>, n: nat)
    requires
        1 <= n <= slots.len(),
        forall|i: int| 0 <= i < n ==> (#[trigger] slots[i]).role == slots[0].role,
        n < slots.len() ==> slots[n as int].role != slots[0].role,
    ensures
        first_run(slots) == n,
    decreases n,
{
    if n > 1 {
        let rest = slots.skip(1);
        assert forall|i: int| 0 <= i < n - 1 implies (#[trigger] rest[i]).role == rest[0].role by {
            assert(rest[i] == slots[i + 1]);
            assert(rest[0] == slots[1]);
        }
        assert(slots[1].role == slots[0].role);
        lemma_run_is(rest, (n - 1) as nat);
    }
}

/// A squad for a force is its members, with a label that tells them, in the formation of their number, and
/// retreats below three tenths of its hits.
pub proof fn law_squad_is_as_assembled(squad: SquadComposition, req: RequiredForce, member_energy: u32)
    requires
        is_squad_of(squad, req, member_energy),
    ensures
        squad.slots@ == force_slots(req, member_energy),
        squad.label@ == "Assembled "@ + tally(squad.slots@),
        squad.formation_shape == FormationShape::Free <==> squad.slots@.len() <= 1,
        squad.formation_shape == FormationShape::Line <==> squad.slots@.len() == 2,
        squad.formation_shape == FormationShape::Box2x2 <==> squad.slots@.len() >= 3,
        squad.formation_mode == FormationMode::Strict <==> squad.slots@.len() >= 2,
        squad.retreat_threshold == 300,
{
    law_formation_grows_with_the_squad(squad.slots@.len() as int);
}

}
