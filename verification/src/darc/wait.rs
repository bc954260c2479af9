//! Waiting until an object can change its kind, or be freed, on all PEs.
//!
//! Both waits have the same shape: first everything that this PE still owes or
//! is owed has to be settled, then this PE tells all others, then all others
//! have to have said the same, then everything has to be settled again.

use vstd::prelude::*;

use crate::darc;
use crate::darc::steps;
use crate::darc::{Counts, DarcInner, DarcMode, Finished};

verus! {

/// How far a wait is.
#[derive(Clone, Copy, Debug, PartialEq, Eq, Structural)]
pub enum Phase {
    /// Requests of the object's own are not answered yet.
    Requests,
    /// References have to go.
    Settle,
    /// This and the PEs behind it may not have said the same yet.
    Agree(usize),
    /// References that came in meanwhile have to go.
    SettleAgain,
    Done,
}

/// What a step of a wait asks for.
#[derive(Debug)]
pub enum Action {
    /// Send these reports, and look again later.
    Wait(Vec<Finished>),
    /// Go on at once.
    Continue,
    /// Write this PE's mode to all PEs, and go on.
    PutMode,
    /// The wait is over.
    Finish,
}

/// What is waited for: the mode that all PEs have to reach, how many references
/// this PE may keep, and whether counts of references from other PEs have to be
/// gone too.
#[derive(Clone, Copy, Debug, PartialEq, Eq, Structural)]
pub struct Goal {
    pub mode: DarcMode,
    pub keep: usize,
    pub no_refs: bool,
}

/// Changing an object's kind, which its last reference on this PE does while
/// `extra_cnt` others are known to be in use.
pub open spec fn change_goal(state: DarcMode, extra_cnt: usize) -> Goal {
    Goal { mode: state, keep: (1 + extra_cnt) as usize, no_refs: true }
}

/// Freeing an object.
pub open spec fn free_goal() -> Goal {
    Goal { mode: DarcMode::Dropped, keep: 0, no_refs: false }
}

/// Whether everything that a goal asks of the counts holds. An object is freed
/// only where it counts as dropped.
pub open spec fn settled(c: Counts, goal: Goal) -> bool {
    &&& c.dist == 0
    &&& goal.mode == DarcMode::Dropped ==> c.mode == DarcMode::Dropped
    &&& c.local <= goal.keep
    &&& goal.no_refs ==> !darc::any_ref(c)
}

/// The phase that follows.
pub open spec fn next_phase<T>(
    inner: DarcInner<T>,
    phase: Phase,
    outstanding_reqs: usize,
    goal: Goal,
) -> Phase {
    match phase {
        Phase::Requests => if outstanding_reqs > 0 {
            Phase::Requests
        } else {
            Phase::Settle
        },
        Phase::Settle => if settled(inner.counts(), goal) {
            Phase::Agree(0)
        } else {
            Phase::Settle
        },
        Phase::Agree(pe) => if pe >= inner.num_pes {
            Phase::SettleAgain
        } else if inner.modes@[pe as int] == goal.mode {
            Phase::Agree((pe + 1) as usize)
        } else {
            phase
        },
        Phase::SettleAgain => if settled(inner.counts(), goal) {
            Phase::Done
        } else {
            Phase::SettleAgain
        },
        Phase::Done => Phase::Done,
    }
}

/// Whether a step that has to wait reports the references from other PEs gone:
/// it does when only the references that may be kept are left.
pub open spec fn reports_while_waiting(c: Counts, phase: Phase, goal: Goal) -> bool {
    phase != Phase::Requests && c.local == goal.keep
}

/// What a step of a wait makes of the counts, which phase follows, and what the
/// step asks for.
pub open spec fn stepped<T>(
    before: DarcInner<T>,
    after: DarcInner<T>,
    phase: Phase,
    outstanding_reqs: usize,
    goal: Goal,
    to: Phase,
    action: Action,
) -> bool {
    let c = before.counts();
    let d = after.counts();
    &&& after.wf()
    &&& after.same_object(before)
    &&& to == next_phase(before, phase, outstanding_reqs, goal)
    &&& if phase == Phase::Done {
        action is Finish && d == c
    } else if to == phase {
        &&& action matches Action::Wait(out)
        &&& if reports_while_waiting(c, phase, goal) {
            out@ == darc::reports(darc::reportable(c)) && d == darc::flushed(c)
        } else {
            out@.len() == 0 && d == c
        }
    } else if phase == Phase::Settle {
        action is PutMode && d == (Counts {
            mode: goal.mode,
            told: c.told || goal.mode == DarcMode::Dropped,
            ..c
        })
    } else if phase == Phase::SettleAgain {
        action is Finish && d == c
    } else {
        action is Continue && d == c
    }
}

/// One step of a wait.
fn step<T>(
    inner: &mut DarcInner<T>,
    phase: Phase,
    outstanding_reqs: usize,
    goal: Goal,
) -> (r: (Phase, Action))
    requires
        old(inner).wf(),
    ensures
        stepped(*old(inner), *final(inner), phase, outstanding_reqs, goal, r.0, r.1),
        final(inner).local_cnt == old(inner).local_cnt,
        final(inner).dist_cnt == old(inner).dist_cnt,
        final(inner).waiting == old(inner).waiting,
        r.1 is PutMode ==> final(inner).modes@ == old(inner).modes@.update(
            old(inner).my_pe as int,
            goal.mode,
        ),
        r.1 !is PutMode ==> final(inner).modes@ == old(inner).modes@,
        r.0 == phase && phase != Phase::Requests && phase != Phase::Done && old(inner).local_cnt
            == goal.keep ==> (r.1 matches Action::Wait(out) && forall|q: int|
            0 <= q < old(inner).num_pes ==> steps::reported(out@, q) + (
            #[trigger] final(inner).ref_cnts@[q]) == old(inner).ref_cnts@[q] && (
            final(inner).ref_cnts@[q] == 0 || old(inner).parent == Some(q as usize))),
        // In all other cases nothing is reported.
        r.1 matches Action::Wait(out) ==> (phase == Phase::Requests || old(inner).local_cnt != goal.keep
            ==> out@.len() == 0 && *final(inner) == *old(inner)),
        r.1 !is Wait ==> final(inner).ref_cnts@ == old(inner).ref_cnts@ && final(inner).parent == old(
            inner,
        ).parent,
{
    let must_wait = match phase {
        Phase::Requests => outstanding_reqs > 0,
        Phase::Settle | Phase::SettleAgain => inner.dist_cnt > 0 || inner.local_cnt > goal.keep || (
        goal.no_refs && inner.any_ref_cnt()) || (goal.mode == DarcMode::Dropped
            && inner.modes[inner.my_pe] != DarcMode::Dropped),
        Phase::Agree(pe) => pe < inner.num_pes && inner.modes[pe] != goal.mode,
        Phase::Done => false,
    };
    if must_wait {
        if phase != Phase::Requests && inner.local_cnt == goal.keep {
            let out = inner.send_finished();
            return (phase, Action::Wait(out));
        }
        return (phase, Action::Wait(Vec::new()));
    }
    match phase {
        Phase::Requests => (Phase::Settle, Action::Continue),
        Phase::Settle => {
            inner.set_mode(goal.mode);
            if goal.mode == DarcMode::Dropped {
                inner.set_told();
            }
            (Phase::Agree(0), Action::PutMode)
        },
        Phase::Agree(pe) => if pe < inner.num_pes {
            (Phase::Agree(pe + 1), Action::Continue)
        } else {
            (Phase::SettleAgain, Action::Continue)
        },
        Phase::SettleAgain => (Phase::Done, Action::Finish),
        Phase::Done => (Phase::Done, Action::Finish),
    }
}

proof fn unpacked<T>(inner: DarcInner<T>)
    requires
        inner.wf(),
    ensures
        !darc::any_ref(inner.counts()) <==> (forall|q: int|
            0 <= q < inner.num_pes ==> #[trigger] inner.ref_cnts@[q] == 0),
{
    let c = inner.counts();
    if !darc::any_ref(c) {
        assert forall|q: int| 0 <= q < inner.num_pes implies #[trigger] inner.ref_cnts@[q]
            == 0 by {
            assert(!(c.refs[q] > 0));
        }
    }
}

/// One step of waiting until an object can become one of kind `state`, while
/// `extra_cnt` references besides the one at hand are in use. When it is over,
/// all PEs of the team have to meet. A PE that holds a report back has to let go
/// of its references first.
pub fn block_on_outstanding<T>(
    inner: &mut DarcInner<T>,
    phase: Phase,
    outstanding_reqs: usize,
    state: DarcMode,
    extra_cnt: usize,
) -> (r: (Phase, Action))
    requires
        old(inner).wf(),
        old(inner).local_cnt > 0,
        state != DarcMode::Dropped,
        extra_cnt < usize::MAX,
    ensures
        stepped(
            *old(inner),
            *final(inner),
            phase,
            outstanding_reqs,
            change_goal(state, extra_cnt),
            r.0,
            r.1,
        ),
        r.1 is PutMode <==> phase == Phase::Settle && r.0 == Phase::Agree(0),
        r.1 is PutMode ==> final(inner).modes@ == old(inner).modes@.update(
            old(inner).my_pe as int,
            state,
        ),
        r.1 !is PutMode ==> final(inner).modes@ == old(inner).modes@,
        r.1 is Finish <==> r.0 == Phase::Done,
        // A wait passes a PE by when that PE is known to have come as far.
        phase matches Phase::Agree(pe) ==> (r.0 == (if pe >= old(inner).num_pes {
            Phase::SettleAgain
        } else if old(inner).modes@[pe as int] == state {
            Phase::Agree((pe + 1) as usize)
        } else {
            phase
        })),
        phase == Phase::Requests ==> (r.0 == Phase::Settle <==> outstanding_reqs == 0) && (r.0
            == Phase::Requests <==> outstanding_reqs > 0),
        final(inner).local_cnt == old(inner).local_cnt,
        final(inner).dist_cnt == old(inner).dist_cnt,
        final(inner).waiting == old(inner).waiting,
        final(inner).told == old(inner).told,
        // A wait goes on as soon as the known references are all that is left.
        phase == Phase::Settle || phase == Phase::SettleAgain ==> (r.0 != phase <==> old(
            inner,
        ).dist_cnt == 0 && old(inner).local_cnt <= 1 + extra_cnt && (forall|q: int|
            0 <= q < old(inner).num_pes ==> #[trigger] old(inner).ref_cnts@[q] == 0)),
        // Until then it reports what came from other PEs gone.
        r.0 == phase && phase != Phase::Requests && phase != Phase::Done && old(inner).local_cnt
            == 1 + extra_cnt ==> (r.1 matches Action::Wait(out) && forall|q: int|
            0 <= q < old(inner).num_pes ==> steps::reported(out@, q) + (
            #[trigger] final(inner).ref_cnts@[q]) == old(inner).ref_cnts@[q] && (
            final(inner).ref_cnts@[q] == 0 || old(inner).parent == Some(q as usize))),
        // In all other cases nothing is reported.
        r.1 matches Action::Wait(out) ==> (phase == Phase::Requests || old(inner).local_cnt != 1 + extra_cnt
            ==> out@.len() == 0 && *final(inner) == *old(inner)),
        r.1 !is Wait ==> final(inner).ref_cnts@ == old(inner).ref_cnts@ && final(inner).parent == old(
            inner,
        ).parent,
{
    proof {
        unpacked(*inner);
    }
    step(
        inner,
        phase,
        outstanding_reqs,
        Goal { mode: state, keep: 1 + extra_cnt, no_refs: true },
    )
}

/// One step of waiting until an object can be freed on this PE, after its last
/// reference here was dropped.
pub fn dropped_wait<T>(
    inner: &mut DarcInner<T>,
    phase: Phase,
    outstanding_reqs: usize,
) -> (r: (Phase, Action))
    requires
        old(inner).wf(),
    ensures
        stepped(*old(inner), *final(inner), phase, outstanding_reqs, free_goal(), r.0, r.1),
        r.1 is PutMode <==> phase == Phase::Settle && r.0 == Phase::Agree(0),
        r.1 is PutMode ==> final(inner).modes@ == old(inner).modes@.update(
            old(inner).my_pe as int,
            DarcMode::Dropped,
        ),
        r.1 !is PutMode ==> final(inner).modes@ == old(inner).modes@,
        r.1 is Finish <==> r.0 == Phase::Done,
        // A wait passes a PE by when that PE is known to have come as far.
        phase matches Phase::Agree(pe) ==> (r.0 == (if pe >= old(inner).num_pes {
            Phase::SettleAgain
        } else if old(inner).modes@[pe as int] == DarcMode::Dropped {
            Phase::Agree((pe + 1) as usize)
        } else {
            phase
        })),
        phase == Phase::Requests ==> (r.0 == Phase::Settle <==> outstanding_reqs == 0) && (r.0
            == Phase::Requests <==> outstanding_reqs > 0),
        final(inner).local_cnt == old(inner).local_cnt,
        final(inner).dist_cnt == old(inner).dist_cnt,
        final(inner).waiting == old(inner).waiting,
        final(inner).told == (old(inner).told || r.1 is PutMode),
        // A wait goes on as soon as nothing is left here, nothing that this PE has
        // sent is left, and the object counts as dropped here.
        phase == Phase::Settle || phase == Phase::SettleAgain ==> (r.0 != phase <==> old(
            inner,
        ).dist_cnt == 0 && old(inner).local_cnt == 0 && old(inner).modes@[old(
            inner,
        ).my_pe as int] == DarcMode::Dropped),
        // Until then it reports what came from other PEs gone.
        r.0 == phase && phase != Phase::Requests && phase != Phase::Done && old(inner).local_cnt
            == 0 ==> (r.1 matches Action::Wait(out) && forall|q: int|
            0 <= q < old(inner).num_pes ==> steps::reported(out@, q) + (
            #[trigger] final(inner).ref_cnts@[q]) == old(inner).ref_cnts@[q] && (
            final(inner).ref_cnts@[q] == 0 || old(inner).parent == Some(q as usize))),
        // In all other cases nothing is reported.
        r.1 matches Action::Wait(out) ==> (phase == Phase::Requests || old(inner).local_cnt != 0
            ==> out@.len() == 0 && *final(inner) == *old(inner)),
        r.1 !is Wait ==> final(inner).ref_cnts@ == old(inner).ref_cnts@ && final(inner).parent == old(
            inner,
        ).parent,
{
    step(
        inner,
        phase,
        outstanding_reqs,
        Goal { mode: DarcMode::Dropped, keep: 0, no_refs: false },
    )
}

/// A wait for a change of kind is over only when nothing that this PE sent is
/// outstanding, only the known references are left on it, and no reference
/// from another PE is.
pub proof fn change_is_safe<T>(
    inner: DarcInner<T>,
    outstanding_reqs: usize,
    state: DarcMode,
    extra_cnt: usize,
)
    requires
        inner.wf(),
        extra_cnt < usize::MAX,
        next_phase(inner, Phase::SettleAgain, outstanding_reqs, change_goal(state, extra_cnt))
            == Phase::Done,
    ensures
        inner.dist_cnt == 0,
        inner.local_cnt <= 1 + extra_cnt,
        forall|q: int| 0 <= q < inner.ref_cnts@.len() ==> #[trigger] inner.ref_cnts@[q] == 0,
{
    assert forall|q: int| 0 <= q < inner.ref_cnts@.len() implies #[trigger] inner.ref_cnts@[q]
        == 0 by {
        assert(!(inner.counts().refs[q] > 0));
    }
}

/// The phases that a wait has been through, with what this PE knew at each.
pub open spec fn is_run<T>(states: Seq<DarcInner<T>>, phases: Seq<Phase>, reqs: Seq<usize>, goal: Goal) -> bool {
    &&& states.len() == phases.len()
    &&& reqs.len() == phases.len()
    &&& phases.len() > 0
    &&& phases[0] == Phase::Requests
    &&& forall|i: int|
        0 <= i < phases.len() - 1 ==> #[trigger] phases[i + 1] == next_phase(
            states[i],
            phases[i],
            reqs[i],
            goal,
        )
    &&& forall|i: int|
        0 <= i < states.len() ==> (#[trigger] states[i]).wf() && states[i].num_pes
            == states[0].num_pes
}

/// A wait that is over has seen every PE say that it has reached the goal's
/// mode.
pub proof fn everyone_agreed<T>(
    states: Seq<DarcInner<T>>,
    phases: Seq<Phase>,
    reqs: Seq<usize>,
    goal: Goal,
    pe: int,
)
    requires
        is_run(states, phases, reqs, goal),
        phases.last() == Phase::Done,
        0 <= pe < states[0].num_pes,
    ensures
        exists|i: int|
            0 <= i < states.len() && (#[trigger] states[i]).modes@[pe] == goal.mode && phases[i]
                == Phase::Agree(pe as usize),
{
    agreed_before(states, phases, reqs, goal, phases.len() - 1, pe);
}

/// How many PEs are known to have agreed in a phase.
pub open spec fn agreed(phase: Phase, num_pes: int) -> int {
    match phase {
        Phase::Requests | Phase::Settle => 0,
        Phase::Agree(pe) => pe as int,
        Phase::SettleAgain | Phase::Done => num_pes,
    }
}

proof fn agreed_before<T>(
    states: Seq<DarcInner<T>>,
    phases: Seq<Phase>,
    reqs: Seq<usize>,
    goal: Goal,
    k: int,
    pe: int,
)
    requires
        is_run(states, phases, reqs, goal),
        0 <= k < phases.len(),
        0 <= pe < agreed(phases[k], states[0].num_pes as int),
        pe < states[0].num_pes,
    ensures
        exists|i: int|
            0 <= i < states.len() && (#[trigger] states[i]).modes@[pe] == goal.mode && phases[i]
                == Phase::Agree(pe as usize),
    decreases k,
{
    if k > 0 {
        assert(phases[(k - 1) + 1] == next_phase(states[k - 1], phases[k - 1], reqs[k - 1], goal));
        assert(states[k - 1].wf());
        if pe < agreed(phases[k - 1], states[0].num_pes as int) {
            agreed_before(states, phases, reqs, goal, k - 1, pe);
        } else {
            assert(phases[k - 1] == Phase::Agree(pe as usize));
            assert(states[k - 1].modes@[pe] == goal.mode);
        }
    }
}

} // verus!
