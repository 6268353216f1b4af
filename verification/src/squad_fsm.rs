//! The states of a squad member, and when it changes from one to another.
use vstd::prelude::*;

verus! {

/// What a member is doing.
#[derive(Clone, Copy, Debug, PartialEq, Eq, Structural)]
pub enum SquadFsmState {
    /// On its way to the target room.
    MoveToRoom,
    /// Fighting off an ambush on the way.
    CombatResponse,
    /// Fighting in the target room.
    Engaged,
    /// Getting away.
    Retreating,
}

/// What a change of state depends on.
#[derive(Clone, Copy, Debug, PartialEq, Eq, Structural)]
pub struct SquadFsmSnapshot {
    /// The member is in the target room.
    pub in_target_room: bool,
    /// An enemy is near.
    pub hostiles_nearby: bool,
    /// The member's hits.
    pub hits: u32,
    /// The hits that it has at full health.
    pub hits_max: u32,
    /// It has fought off the ambush for long enough.
    pub combat_response_timed_out: bool,
    /// The squad retreats.
    pub squad_retreating: bool,
    /// The squad has gathered.
    pub squad_ready_to_engage: bool,
    /// The squad wants to fight.
    pub squad_wants_engage: bool,
}

impl SquadFsmSnapshot {
    /// Less than `n` of `d` parts of its health is left.
    pub open spec fn is_below(&self, n: int, d: int) -> bool {
        self.hits * d < self.hits_max * n
    }

    /// More than `n` of `d` parts of its health is left.
    pub open spec fn is_above(&self, n: int, d: int) -> bool {
        self.hits * d > self.hits_max * n
    }

    /// It has recovered: it is above four fifths, or above three where the squad wants to fight.
    pub open spec fn has_recovered(&self) -> bool {
        self.is_above(4, 5) || (self.squad_wants_engage && self.is_above(3, 5))
    }
}

/// The state that the member changes to, if it changes.
pub open spec fn transition(state: SquadFsmState, s: SquadFsmSnapshot) -> Option<SquadFsmState> {
    match state {
        SquadFsmState::MoveToRoom => if !s.in_target_room && s.hostiles_nearby {
            Some(SquadFsmState::CombatResponse)
        } else if s.squad_retreating {
            Some(SquadFsmState::Retreating)
        } else if s.in_target_room && s.squad_ready_to_engage {
            Some(SquadFsmState::Engaged)
        } else {
            None
        },
        SquadFsmState::CombatResponse => if s.squad_retreating || s.is_below(2, 5) {
            Some(SquadFsmState::Retreating)
        } else if s.in_target_room {
            Some(SquadFsmState::Engaged)
        } else if !s.hostiles_nearby || s.combat_response_timed_out {
            Some(SquadFsmState::MoveToRoom)
        } else {
            None
        },
        SquadFsmState::Engaged => if s.squad_retreating || s.is_below(1, 2) {
            Some(SquadFsmState::Retreating)
        } else if !s.in_target_room {
            Some(SquadFsmState::MoveToRoom)
        } else {
            None
        },
        SquadFsmState::Retreating => if !s.squad_retreating && s.has_recovered() {
            Some(SquadFsmState::Engaged)
        } else {
            None
        },
    }
}

/// The state that a member changes to, or none where it stays as it is.
///
/// On the way, an ambush comes before the call to retreat; a member fights in the target room only once
/// the squad has gathered. It retreats below two fifths of its health from an ambush, and below half
/// from the fight. It comes back once it has recovered, but never while the squad retreats.
pub fn next_state(state: SquadFsmState, s: &SquadFsmSnapshot) -> (next: Option<SquadFsmState>)
    ensures
        next == transition(state, *s),
{
    let hits: u64 = s.hits as u64;
    let full: u64 = s.hits_max as u64;
    match state {
        SquadFsmState::MoveToRoom => {
            if !s.in_target_room && s.hostiles_nearby {
                return Some(SquadFsmState::CombatResponse);
            }
            if s.squad_retreating {
                return Some(SquadFsmState::Retreating);
            }
            if s.in_target_room && s.squad_ready_to_engage {
                return Some(SquadFsmState::Engaged);
            }
            None
        },
        SquadFsmState::CombatResponse => {
            if s.squad_retreating || hits * 5 < full * 2 {
                return Some(SquadFsmState::Retreating);
            }
            if s.in_target_room {
                return Some(SquadFsmState::Engaged);
            }
            if !s.hostiles_nearby || s.combat_response_timed_out {
                return Some(SquadFsmState::MoveToRoom);
            }
            None
        },
        SquadFsmState::Engaged => {
            if s.squad_retreating || hits * 2 < full * 1 {
                return Some(SquadFsmState::Retreating);
            }
            if !s.in_target_room {
                return Some(SquadFsmState::MoveToRoom);
            }
            None
        },
        SquadFsmState::Retreating => {
            if !s.squad_retreating && (hits * 5 > full * 4 || (s.squad_wants_engage && hits * 5 > full
                * 3)) {
                return Some(SquadFsmState::Engaged);
            }
            None
        },
    }
}

/// A member does not go back and forth between fighting and retreating: what makes it retreat from the
/// fight keeps it away, and what brings it back does not make it retreat at once.
pub proof fn law_no_wavering(s: SquadFsmSnapshot)
    ensures
        transition(SquadFsmState::Engaged, s) == Some(SquadFsmState::Retreating) ==> transition(
            SquadFsmState::Retreating,
            s,
        ) is None,
        transition(SquadFsmState::Retreating, s) == Some(SquadFsmState::Engaged) ==> transition(
            SquadFsmState::Engaged,
            s,
        ) != Some(SquadFsmState::Retreating),
{
}

/// While the squad retreats, no member starts to fight in the target room or leaves off retreating.
pub proof fn law_retreat_is_kept(state: SquadFsmState, s: SquadFsmSnapshot)
    requires
        s.squad_retreating,
    ensures
        transition(state, s) != Some(SquadFsmState::Engaged),
        transition(SquadFsmState::Retreating, s) is None,
{
}

/// A member on its way enters the fight only in the target room, and only with the squad.
pub proof fn law_no_lone_fight(s: SquadFsmSnapshot)
    ensures
        transition(SquadFsmState::MoveToRoom, s) == Some(SquadFsmState::Engaged)
            ==> s.in_target_room && s.squad_ready_to_engage,
{
}

/// A change is always to another state.
pub proof fn law_change_is_change(state: SquadFsmState, s: SquadFsmSnapshot)
    ensures
        transition(state, s) != Some(state),
{
}

/// On its way a member turns to an ambush before all else; it retreats with the squad, and in the target
/// room it fights once the squad has gathered.
pub proof fn law_the_way_there(s: SquadFsmSnapshot)
    ensures
        ({
            let next = transition(SquadFsmState::MoveToRoom, s);
            let ambush = s.hostiles_nearby && !s.in_target_room;
            &&& next == Some(SquadFsmState::CombatResponse) <==> ambush
            &&& next == Some(SquadFsmState::Retreating) <==> !ambush && s.squad_retreating
            &&& next == Some(SquadFsmState::Engaged) <==> !ambush && !s.squad_retreating
                && s.in_target_room && s.squad_ready_to_engage
        }),
{
}

/// In an ambush a member retreats with the squad or below two fifths of its hits; else it fights on in the
/// target room, and moves on when the enemy is gone or enough time has passed.
pub proof fn law_an_ambush_ends(s: SquadFsmSnapshot)
    ensures
        ({
            let next = transition(SquadFsmState::CombatResponse, s);
            let hurt = s.squad_retreating || 5 * s.hits < 2 * s.hits_max;
            &&& next == Some(SquadFsmState::Retreating) <==> hurt
            &&& next == Some(SquadFsmState::Engaged) <==> !hurt && s.in_target_room
            &&& next == Some(SquadFsmState::MoveToRoom) <==> !hurt && !s.in_target_room && (
            !s.hostiles_nearby || s.combat_response_timed_out)
        }),
{
}

/// In a fight a member retreats with the squad or below half of its hits, and goes back where it was driven
/// out of the room. From a retreat that the squad has ended it comes back above four fifths of its hits, or
/// above three fifths where the squad wants to fight.
pub proof fn law_a_fight_is_left_and_rejoined(s: SquadFsmSnapshot)
    ensures
        ({
            let next = transition(SquadFsmState::Engaged, s);
            let hurt = s.squad_retreating || 2 * s.hits < s.hits_max;
            &&& next == Some(SquadFsmState::Retreating) <==> hurt
            &&& next == Some(SquadFsmState::MoveToRoom) <==> !hurt && !s.in_target_room
        }),
        transition(SquadFsmState::Retreating, s) == Some(SquadFsmState::Engaged) <==> !s.squad_retreating
            && (5 * s.hits > 4 * s.hits_max || (s.squad_wants_engage && 5 * s.hits > 3 * s.hits_max)),
        transition(SquadFsmState::Retreating, s) is None || transition(SquadFsmState::Retreating, s)
            == Some(SquadFsmState::Engaged),
{
}

}
