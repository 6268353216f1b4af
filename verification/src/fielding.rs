//! Which creeps to spawn for a squad.
use crate::bodies::MoveProfile;
use crate::composition::{SquadComposition, SquadSlot};
use crate::fixed::Milli;
use crate::parts::body_cost;
use vstd::prelude::*;

verus! {

/// A creep to spawn.
#[derive(Clone, Copy, Debug, PartialEq, Eq, Structural)]
pub struct QueuedSpawn {
    /// How urgent it is, in thousandths.
    pub priority: Milli,
    /// The energy of its body.
    pub body_cost: u32,
    /// The parts of its body.
    pub part_count: u32,
    /// The slot that it fills.
    pub id: u64,
}

/// A living member fills the slot; what is not listed is not filled.
pub open spec fn is_filled(filled: Seq<bool>, i: int) -> bool {
    i < filled.len() && filled[i]
}

/// The slot waits for a creep that can be built.
pub open spec fn is_wanted(
    slots: Seq<SquadSlot>,
    filled: Seq<bool>,
    energy: int,
    profile: MoveProfile,
    i: int,
) -> bool {
    !is_filled(filled, i) && crate::bodies::fits(slots[i].body_type.spec(), profile, energy)
}

/// The creep for the slot.
pub open spec fn spawn_for(
    slots: Seq<SquadSlot>,
    priority: Milli,
    profile: MoveProfile,
    i: int,
) -> QueuedSpawn {
    let body = crate::bodies::combat_body(slots[i].body_type.spec(), profile);
    QueuedSpawn {
        priority,
        body_cost: crate::parts::body_energy(body) as u32,
        part_count: body.len() as u32,
        id: i as u64,
    }
}

/// The creeps for the first `n` slots.
pub open spec fn spawns_for(
    slots: Seq<SquadSlot>,
    filled: Seq<bool>,
    energy: int,
    priority: Milli,
    profile: MoveProfile,
    n: int,
) -> Seq<QueuedSpawn>
    decreases n,
{
    if n <= 0 {
        Seq::empty()
    } else {
        let rest = spawns_for(slots, filled, energy, priority, profile, n - 1);
        if is_wanted(slots, filled, energy, profile, n - 1) {
            rest.push(spawn_for(slots, priority, profile, n - 1))
        } else {
            rest
        }
    }
}

/// The creeps to spawn for the slots of a squad that no member fills. They are built with what the best
/// home holds, but no more than `per_member_cap`; a slot whose body that cannot pay for is passed over.
pub fn slots_to_spawn(
    composition: &SquadComposition,
    filled: &[bool],
    best_capacity: u32,
    per_member_cap: u32,
    priority: Milli,
    move_profile: MoveProfile,
) -> (spawns: Vec<QueuedSpawn>)
    ensures
        spawns@ == spawns_for(
            composition.slots@,
            filled@,
            crate::fixed::min_of(best_capacity as int, per_member_cap as int),
            priority,
            move_profile,
            composition.slots@.len() as int,
        ),
{
    let energy: u32 = if best_capacity < per_member_cap {
        best_capacity
    } else {
        per_member_cap
    };
    let slots = &composition.slots;
    let mut spawns: Vec<QueuedSpawn> = Vec::new();
    let mut i: usize = 0;
    while i < slots.len()
        invariant
            i <= slots@.len(),
            spawns@ == spawns_for(
                slots@,
                filled@,
                energy as int,
                priority,
                move_profile,
                i as int,
            ),
        decreases slots@.len() - i,
    {
        let taken = i < filled.len() && filled[i];
        if !taken {
            if let Some(body) = slots[i].body_type.build_body(energy, move_profile) {
                proof {
                    crate::bodies::law_built_body_holds_its_spec(
                        slots@[i as int].body_type.spec(),
                        move_profile,
                        energy as int,
                        crate::parts::Part::Move,
                    );
                }
                let cost: u128 = body_cost(&body);
                spawns.push(
                    QueuedSpawn {
                        priority,
                        body_cost: cost as u32,
                        part_count: body.len() as u32,
                        id: i as u64,
                    },
                );
            }
        }
        i = i + 1;
    }
    spawns
}

/// The creep is for one of the first `n` slots that no member fills, can be paid for with `energy`, and
/// has at most fifty parts.
pub open spec fn is_sound(
    filled: Seq<bool>,
    energy: int,
    priority: Milli,
    n: int,
    spawn: QueuedSpawn,
) -> bool {
    &&& spawn.id < n
    &&& !is_filled(filled, spawn.id as int)
    &&& spawn.body_cost <= energy
    &&& 1 <= spawn.part_count <= crate::constants::MAX_CREEP_SIZE
    &&& spawn.priority == priority
}

/// Each creep is for a slot that no member fills, costs no more than a home can pay and a member may
/// cost, and has at most fifty parts; the slots come in order, none twice.
pub proof fn law_spawns_fill_open_slots(
    slots: Seq<SquadSlot>,
    filled: Seq<bool>,
    energy: int,
    priority: Milli,
    profile: MoveProfile,
    n: int,
)
    requires
        0 <= n <= slots.len() <= u64::MAX,
        0 <= energy <= u32::MAX,
    ensures
        forall|k: int|
            0 <= k < spawns_for(slots, filled, energy, priority, profile, n).len() ==> is_sound(
                filled,
                energy,
                priority,
                n,
                #[trigger] spawns_for(slots, filled, energy, priority, profile, n)[k],
            ),
        forall|k: int, l: int|
            0 <= k < l < spawns_for(slots, filled, energy, priority, profile, n).len()
                ==> (#[trigger] spawns_for(slots, filled, energy, priority, profile, n)[k]).id < (
            #[trigger] spawns_for(slots, filled, energy, priority, profile, n)[l]).id,
    decreases n,
{
    if n > 0 {
        law_spawns_fill_open_slots(slots, filled, energy, priority, profile, n - 1);
        let rest = spawns_for(slots, filled, energy, priority, profile, n - 1);
        let spawns = spawns_for(slots, filled, energy, priority, profile, n);
        if is_wanted(slots, filled, energy, profile, n - 1) {
            let body = crate::bodies::combat_body(slots[n - 1].body_type.spec(), profile);
            crate::bodies::law_built_body_holds_its_spec(
                slots[n - 1].body_type.spec(),
                profile,
                energy,
                crate::parts::Part::Move,
            );
            crate::parts::lemma_energy_is_positive(body);
            assert(is_sound(
                filled,
                energy,
                priority,
                n,
                spawn_for(slots, priority, profile, n - 1),
            ));
        }
        assert forall|k: int| 0 <= k < spawns.len() implies is_sound(
            filled,
            energy,
            priority,
            n,
            #[trigger] spawns[k],
        ) by {
            if k < rest.len() {
                assert(spawns[k] == rest[k]);
                assert(is_sound(filled, energy, priority, n - 1, rest[k]));
            }
        }
        assert forall|k: int, l: int| 0 <= k < l < spawns.len() implies (#[trigger] spawns[k]).id < (
        #[trigger] spawns[l]).id by {
            assert(spawns[k] == rest[k]);
            assert(is_sound(filled, energy, priority, n - 1, rest[k]));
            if l < rest.len() {
                assert(spawns[l] == rest[l]);
            }
        }
    }
}

/// Every slot that waits for a creep that can be built gets one.
pub proof fn law_no_slot_is_forgotten(
    slots: Seq<SquadSlot>,
    filled: Seq<bool>,
    energy: int,
    priority: Milli,
    profile: MoveProfile,
    n: int,
    i: int,
)
    requires
        0 <= i < n <= slots.len(),
        is_wanted(slots, filled, energy, profile, i),
    ensures
        spawns_for(slots, filled, energy, priority, profile, n).contains(
            spawn_for(slots, priority, profile, i),
        ),
    decreases n,
{
    let all = spawns_for(slots, filled, energy, priority, profile, n);
    let rest = spawns_for(slots, filled, energy, priority, profile, n - 1);
    let wanted = spawn_for(slots, priority, profile, i);
    if i == n - 1 {
        assert(all[all.len() - 1] == wanted);
    } else {
        law_no_slot_is_forgotten(slots, filled, energy, priority, profile, n - 1, i);
        let k = choose|k: int| 0 <= k < rest.len() && rest[k] == wanted;
        assert(all[k] == wanted);
    }
}

/// Each slot that is open, and whose body can be built with the energy at hand, is queued once, in order,
/// with the priority given and what its body costs and is; a slot that no entry says is filled is open, and
/// one that is filled or cannot be built is left out.
pub proof fn law_open_slots_are_queued_as_they_are(
    slots: Seq<SquadSlot>,
    filled: Seq<bool>,
    energy: int,
    priority: Milli,
    profile: MoveProfile,
    n: int,
)
    requires
        0 <= n < slots.len() <= u64::MAX,
        0 <= energy <= u32::MAX,
    ensures
        spawns_for(slots, filled, energy, priority, profile, 0).len() == 0,
        ({
            let before = spawns_for(slots, filled, energy, priority, profile, n);
            let after = spawns_for(slots, filled, energy, priority, profile, n + 1);
            let spec = slots[n].body_type.spec();
            let moves = profile.moves_for(spec.weight());
            let open = n >= filled.len() || !filled[n];
            let wanted = open && crate::bodies::fits(spec, profile, energy);
            &&& !wanted ==> after == before
            &&& wanted ==> {
                let spawn = after.last();
                &&& after.len() == before.len() + 1
                &&& after.drop_last() == before
                &&& spawn.id == n
                &&& spawn.priority == priority
                &&& spawn.part_count == spec.weight() + moves
                &&& spawn.body_cost == 10 * spec.tough + 80 * spec.attack + 150 * spec.ranged_attack + 100
                    * spec.work + 50 * spec.carry + 250 * spec.heal + 600 * spec.claim + 50 * moves
            }
        }),
{
    let spec = slots[n].body_type.spec();
    let before = spawns_for(slots, filled, energy, priority, profile, n);
    if is_wanted(slots, filled, energy, profile, n) {
        crate::bodies::law_built_body_holds_its_spec(
            spec,
            profile,
            energy,
            crate::parts::Part::Move,
        );
        crate::parts::lemma_energy_is_positive(crate::bodies::combat_body(spec, profile));
        assert(before.push(spawn_for(slots, priority, profile, n)).drop_last() =~= before);
    }
}

}
