//! When a squad is kept and when it is retired.
use vstd::prelude::*;

verus! {

/// A squad and its objective, as they stand this tick.
#[derive(Clone, Copy, Debug, PartialEq, Eq, Structural)]
pub struct ReconcileSnapshot {
    /// The objective is no longer asked for.
    pub objective_gone: bool,
    /// Another squad covers the objective already.
    pub duplicate: bool,
    /// The objective is to defend a room of ours, which is never given up.
    pub is_defend: bool,
    /// The squad's lease has run out.
    pub deadline_lapsed: bool,
    /// The squad had members, and all are dead.
    pub wiped: bool,
    /// The squad closes in on a target or fights it.
    pub has_focus: bool,
    /// The squad has fought at least once.
    pub engaged_once: bool,
    /// A member stands in the room of the objective.
    pub in_target_room: bool,
    /// A member lives.
    pub has_members: bool,
    /// The squad has not fought yet and waits for members.
    pub forming: bool,
    /// A member has joined since the squad was last looked at.
    pub forming_progress: bool,
}

/// Why a squad is retired.
#[derive(Clone, Copy, Debug, PartialEq, Eq, Structural)]
pub enum RetireReason {
    ObjectiveGone,
    Duplicate,
    Wiped,
    /// It fought and cleared the target.
    Resolved,
    /// Its lease ran out before it was done.
    GaveUp,
}

/// What becomes of a squad.
#[derive(Clone, Copy, Debug, PartialEq, Eq, Structural)]
pub enum ReconcileAction {
    /// It stays, with a new lease.
    KeepRefreshLease,
    /// It stays.
    Keep,
    /// It goes. `withdraw` takes the objective back, so that nobody is sent there again;
    /// `mark_unwinnable` keeps others from the room for a while.
    Retire { reason: RetireReason, withdraw: bool, mark_unwinnable: bool },
}

impl ReconcileSnapshot {
    /// It fought, stands in the room, and has no target left: the objective is cleared.
    pub open spec fn is_resolved(&self) -> bool {
        self.engaged_once && self.in_target_room && !self.has_focus && self.has_members
    }

    /// It is gathering, and a member has just joined.
    pub open spec fn is_progressing(&self) -> bool {
        self.forming && self.forming_progress && self.has_members
    }

    /// Its lease has run out without a target, a success or a new member.
    pub open spec fn has_given_up(&self) -> bool {
        self.deadline_lapsed && !self.has_focus && !self.is_resolved() && !self.is_progressing()
    }

    /// It is retired.
    pub open spec fn is_over(&self) -> bool {
        self.objective_gone || self.duplicate || self.wiped || self.is_resolved()
            || self.has_given_up()
    }

    /// Why it is retired, where it is: the first of these that holds.
    pub open spec fn reason(&self) -> RetireReason {
        if self.is_resolved() {
            RetireReason::Resolved
        } else if self.objective_gone {
            RetireReason::ObjectiveGone
        } else if self.wiped {
            RetireReason::Wiped
        } else if self.has_given_up() {
            RetireReason::GaveUp
        } else {
            RetireReason::Duplicate
        }
    }

    /// The room beat the squad: others are kept from it, unless it is ours.
    pub open spec fn is_defeat(&self) -> bool {
        (self.wiped || self.has_given_up()) && !self.objective_gone && !self.is_defend
    }

    /// What becomes of the squad.
    pub open spec fn fate(&self) -> ReconcileAction {
        if self.is_over() {
            ReconcileAction::Retire {
                reason: self.reason(),
                withdraw: self.is_resolved(),
                mark_unwinnable: self.is_defeat(),
            }
        } else if self.has_focus || self.is_progressing() {
            ReconcileAction::KeepRefreshLease
        } else {
            ReconcileAction::Keep
        }
    }
}

/// Decides what becomes of a squad.
///
/// It is retired where its objective is gone or covered, where it is dead, where it has cleared the
/// target, and where its lease ran out; a target, or while it gathers a new member, renews the lease.
pub fn reconcile(s: ReconcileSnapshot) -> (action: ReconcileAction)
    ensures
        action == s.fate(),
{
    let resolved = s.engaged_once && s.in_target_room && !s.has_focus && s.has_members;
    let progressing = s.forming && s.forming_progress && s.has_members;
    let gave_up = s.deadline_lapsed && !s.has_focus && !resolved && !progressing;
    if s.objective_gone || s.duplicate || s.wiped || resolved || gave_up {
        let reason = if resolved {
            RetireReason::Resolved
        } else if s.objective_gone {
            RetireReason::ObjectiveGone
        } else if s.wiped {
            RetireReason::Wiped
        } else if gave_up {
            RetireReason::GaveUp
        } else {
            RetireReason::Duplicate
        };
        return ReconcileAction::Retire {
            reason,
            withdraw: resolved,
            mark_unwinnable: (s.wiped || gave_up) && !s.objective_gone && !s.is_defend,
        };
    }
    if s.has_focus || progressing {
        ReconcileAction::KeepRefreshLease
    } else {
        ReconcileAction::Keep
    }
}

/// A squad whose objective stands, that is the only one for it, and that is not dead, is kept while it
/// has a target; it is kept as well while its lease runs, unless it has fought and cleared the target.
pub proof fn law_committed_squad_is_kept(s: ReconcileSnapshot)
    requires
        !s.objective_gone,
        !s.duplicate,
        !s.wiped,
    ensures
        s.has_focus ==> s.fate() == ReconcileAction::KeepRefreshLease,
        !s.deadline_lapsed && !s.engaged_once ==> s.fate() !is Retire,
        !s.deadline_lapsed && !s.in_target_room ==> s.fate() !is Retire,
{
}

/// Only a squad that has fought withdraws its objective, and it does so exactly where that is the
/// reason for which it goes.
pub proof fn law_only_a_fighter_resolves(s: ReconcileSnapshot)
    ensures
        s.fate() matches ReconcileAction::Retire { reason, withdraw, .. } ==> {
            &&& withdraw <==> reason == RetireReason::Resolved
            &&& withdraw ==> s.engaged_once && s.in_target_room && !s.has_focus
        },
{
}

/// A room of ours is never given up, an objective that is gone is no defeat, and a squad that is only
/// one too many goes without withdrawing the objective or keeping others away.
pub proof fn law_defense_is_never_given_up(s: ReconcileSnapshot)
    ensures
        s.fate() matches ReconcileAction::Retire { reason, withdraw, mark_unwinnable } ==> {
            &&& s.is_defend || s.objective_gone ==> !mark_unwinnable
            &&& reason == RetireReason::Duplicate ==> !withdraw && !mark_unwinnable
        },
{
}

/// A squad that gathers outlives its lease only in ticks in which a member joins: without one, and
/// without a target, it gives up.
pub proof fn law_gathering_is_bounded(s: ReconcileSnapshot)
    requires
        s.deadline_lapsed,
        !s.has_focus,
        !s.forming_progress,
    ensures
        s.fate() is Retire,
{
}

/// A squad goes exactly when its objective is gone, another squad has it, all its members are dead, it has
/// fought and stands in the room with nothing left to fight, or its lease has run out while it neither
/// fights nor gathers members.
pub proof fn law_squad_goes_only_when_it_is_over(s: ReconcileSnapshot)
    ensures
        s.fate() is Retire <==> {
            ||| s.objective_gone
            ||| s.duplicate
            ||| s.wiped
            ||| s.engaged_once && s.in_target_room && s.has_members && !s.has_focus
            ||| s.deadline_lapsed && !s.has_focus && !(s.forming && s.forming_progress && s.has_members)
        },
        s.fate() is KeepRefreshLease <==> s.fate() !is Retire && (s.has_focus || (s.forming
            && s.forming_progress && s.has_members)),
{
}

/// Why a squad goes: because it is done, before all else; else because the objective is gone, because it was
/// wiped out, because it gave up, and only at last because another squad has the objective. Only a squad
/// that was wiped out or gave up an objective that still stands, and is no defense, marks it as lost.
pub proof fn law_the_first_reason_counts(s: ReconcileSnapshot)
    requires
        s.fate() is Retire,
    ensures
        ({
            let done = s.engaged_once && s.in_target_room && s.has_members && !s.has_focus;
            let gathers = s.forming && s.forming_progress && s.has_members;
            let spent = s.deadline_lapsed && !s.has_focus && !gathers && !done;
            let (reason, withdraw, lost) = match s.fate() {
                ReconcileAction::Retire { reason, withdraw, mark_unwinnable } => (
                    reason,
                    withdraw,
                    mark_unwinnable,
                ),
                _ => (RetireReason::Duplicate, false, false),
            };
            &&& reason == RetireReason::Resolved <==> done
            &&& reason == RetireReason::ObjectiveGone <==> !done && s.objective_gone
            &&& reason == RetireReason::Wiped <==> !done && !s.objective_gone && s.wiped
            &&& reason == RetireReason::GaveUp <==> !done && !s.objective_gone && !s.wiped && spent
            &&& reason == RetireReason::Duplicate <==> !done && !s.objective_gone && !s.wiped && !spent
            &&& withdraw <==> done
            &&& lost <==> (s.wiped || spent) && !s.objective_gone && !s.is_defend
        }),
{
}

}
