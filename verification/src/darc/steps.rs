//! How the PEs that share an object take their steps: each step is one event of
//! the system of PEs or several, or changes nothing there.

use vstd::prelude::*;

use crate::darc;
use crate::darc::system;
use crate::darc::system::{Event, System};
use crate::darc::wait;
use crate::darc::wait::Phase;
use crate::darc::{Counts, DarcInner, DarcMode, DropOutcome, Finished};

verus! {

/// What each PE holds of an object, how far each PE's wait for freeing it is,
/// and what is under way between PEs.
pub struct Shares<T> {
    pub inners: Seq<DarcInner<T>>,
    /// The phase of a PE's wait, once its last reference was dropped.
    pub waits: Seq<Option<Phase>>,
    /// `copies[p][q]`: references on the way from `p` to `q`.
    pub copies: Seq<Seq<int>>,
    /// `done[p][q]`: what the reports on the way from `p` to `q` add up to.
    pub done: Seq<Seq<int>>,
    /// The modes that PEs have written on others.
    pub written: Set<(int, DarcMode)>,
    /// Whether a PE has freed the object.
    pub freed: Seq<bool>,
    /// When each PE was engaged last.
    pub since: Seq<int>,
    /// How often PEs have been engaged.
    pub clock: int,
}

/// What a PE can do.
pub enum Action {
    /// `clone_ref`.
    Clone { pe: int },
    /// `serialize_update_cnts`: a reference is sent to some PEs.
    Send { pe: int, to: Seq<int> },
    /// `deserialize_update_cnts` of a reference that comes in.
    Receive { pe: int, from: int },
    /// `drop_ref`.
    Drop { pe: int, outcome: DropOutcome },
    /// `finish`: a report comes in.
    Hear { pe: int, from: int, cnt: int, out: Vec<Finished> },
    /// `note_mode`: what another PE has written comes in.
    NoteMode { pe: int, from: int, mode: DarcMode },
    /// `dropped_wait`: a step of the wait for freeing.
    FreeStep { pe: int, reqs: usize, action: wait::Action },
    /// `block_on_outstanding`: a step of a wait for a change of kind.
    ChangeStep {
        pe: int,
        phase: Phase,
        reqs: usize,
        mode: DarcMode,
        extra_cnt: usize,
        to: Phase,
        action: wait::Action,
    },
}

/// What reports say of references from a PE.
pub open spec fn reported(out: Seq<Finished>, q: int) -> int
    decreases out.len(),
{
    if out.len() == 0 {
        0
    } else {
        reported(out.drop_last(), q) + (if out.last().pe == q {
            out.last().cnt as int
        } else {
            0
        })
    }
}

/// What reports say of references from each PE.
pub open spec fn tally(out: Seq<Finished>, n: nat) -> Seq<int> {
    Seq::new(n, |q: int| reported(out, q))
}

/// References on their way, after a PE has sent one to each of some PEs.
pub open spec fn with_copies(copies: Seq<Seq<int>>, pe: int, to: Seq<int>) -> Seq<Seq<int>>
    decreases to.len(),
{
    if to.len() == 0 {
        copies
    } else {
        let front = with_copies(copies, pe, to.drop_last());
        system::put(front, pe, to.last(), front[pe][to.last()] + 1)
    }
}

impl<T> Shares<T> {
    pub open spec fn n(self) -> nat {
        self.inners.len()
    }

    /// What the PEs come to as a system.
    pub open spec fn system(self) -> System {
        System {
            pes: Seq::new(self.n(), |p: int| self.inners[p].counts()),
            copies: self.copies,
            done: self.done,
            freed: self.freed,
            since: self.since,
            clock: self.clock,
        }
    }

    /// Whether the PEs share one object, and each one's wait knows no more than
    /// what others have written.
    pub open spec fn wf(self) -> bool {
        &&& self.waits.len() == self.n()
        &&& forall|p: int|
            0 <= p < self.n() ==> (#[trigger] self.inners[p]).wf() && self.inners[p].my_pe == p
                && self.inners[p].num_pes == self.n()
        &&& forall|p: int, q: int|
            0 <= p < self.n() && 0 <= q < self.n() && p != q
                && #[trigger] self.inners[p].modes@[q] == DarcMode::Dropped ==> self.told(q)
        &&& forall|q: int, mode: DarcMode| #[trigger]
            self.written.contains((q, mode)) ==> 0 <= q < self.n() && (mode == DarcMode::Dropped
                ==> self.told(q))
        &&& forall|p: int| 0 <= p < self.n() ==> #[trigger] self.wait_ok(p)
    }

    /// Whether a PE has told the others that it dropped the object.
    pub open spec fn told(self, p: int) -> bool {
        self.inners[p].told
    }

    /// Whether a PE's wait is as far as what PEs have told lets it be.
    pub open spec fn wait_ok(self, p: int) -> bool {
        &&& self.waits[p] is Some <==> self.inners[p].waiting
        &&& self.waits[p] is None ==> !self.told(p)
        &&& self.waits[p] matches Some(phase) ==> {
            &&& self.told(p) <==> phase != Phase::Requests && phase != Phase::Settle
            &&& forall|q: int|
                0 <= q < wait::agreed(phase, self.n() as int) && q < self.n()
                    ==> #[trigger] self.told(q)
        }
    }
}

/// Whether every PE has just made the object.
pub open spec fn starts<T>(s: Shares<T>) -> bool {
    &&& s.waits == Seq::new(s.n(), |p: int| None::<Phase>)
    &&& s.since.len() == s.n()
    &&& s.clock == 0
    &&& s.freed == Seq::new(s.n(), |p: int| false)
    &&& s.copies == system::zeros(s.n())
    &&& s.done == system::zeros(s.n())
    &&& s.written == Set::<(int, DarcMode)>::empty()
    &&& forall|p: int|
        0 <= p < s.n() ==> {
            let d = #[trigger] s.inners[p];
            &&& d.wf()
            &&& d.my_pe == p
            &&& d.num_pes == s.n()
            &&& d.counts().mode != DarcMode::Dropped
            &&& d.counts() == darc::fresh(s.n(), d.counts().mode)
            &&& d.modes@ == Seq::new(s.n(), |q: int| d.counts().mode)
        }
}

/// Only one PE's object has changed.
pub open spec fn only_at<T>(s: Shares<T>, t: Shares<T>, pe: int) -> bool {
    &&& 0 <= pe < s.n()
    &&& t.inners == s.inners.update(pe, t.inners[pe])
    &&& t.inners[pe].wf()
}

/// What the PEs' functions make of what they hold.
pub open spec fn acts<T>(s: Shares<T>, t: Shares<T>, a: Action) -> bool {
    match a {
        Action::Clone { pe } => {
            &&& only_at(s, t, pe)
            &&& s.inners[pe].local_cnt > 0
            &&& t.inners[pe].same_object(s.inners[pe])
            &&& t.inners[pe].counts() == darc::cloned_ref(s.inners[pe].counts())
            &&& t == (Shares { inners: t.inners, ..s })
        },
        Action::Send { pe, to } => {
            &&& only_at(s, t, pe)
            &&& forall|i: int| 0 <= i < to.len() ==> 0 <= #[trigger] to[i] < s.n()
            &&& s.inners[pe].local_cnt > 0
            &&& t.inners[pe].same_object(s.inners[pe])
            &&& t.inners[pe].counts() == darc::serialized(s.inners[pe].counts(), to.len() as int)
            &&& t == (Shares {
                inners: t.inners,
                copies: with_copies(s.copies, pe, to),
                ..s
            })
        },
        Action::Receive { pe, from } => {
            let engages = s.inners[pe].told && s.inners[pe].parent is None;
            &&& only_at(s, t, pe)
            &&& 0 <= from < s.n()
            &&& s.copies[from][pe] > 0
            &&& t.inners[pe].same_object(s.inners[pe])
            &&& t.inners[pe].counts() == darc::deserialized(s.inners[pe].counts(), from)
            &&& t == (Shares {
                inners: t.inners,
                copies: system::put(s.copies, from, pe, s.copies[from][pe] - 1),
                since: if engages {
                    s.since.update(pe, s.clock)
                } else {
                    s.since
                },
                clock: if engages {
                    s.clock + 1
                } else {
                    s.clock
                },
                ..s
            })
        },
        Action::Drop { pe, outcome } => {
            let c = s.inners[pe].counts();
            &&& only_at(s, t, pe)
            &&& s.inners[pe].local_cnt > 0
            &&& t.inners[pe].same_object(s.inners[pe])
            &&& t.inners[pe].counts() == darc::dropped_ref(c)
            &&& c.local == 1 ==> outcome.finished@ == darc::reports(
                darc::reportable(darc::without_one(c)),
            )
            &&& c.local > 1 ==> outcome.finished@.len() == 0
            &&& outcome.launch == (c.local == 1 && darc::droppable(c.mode) && !c.waiting)
            &&& t == (Shares {
                inners: t.inners,
                done: system::add_row(s.done, pe, tally(outcome.finished@, s.n())),
                waits: if outcome.launch {
                    s.waits.update(pe, Some(Phase::Requests))
                } else {
                    s.waits
                },
                ..s
            })
        },
        Action::Hear { pe, from, cnt, out } => {
            &&& only_at(s, t, pe)
            &&& 0 <= from < s.n()
            &&& 0 < cnt <= s.done[from][pe]
            &&& t.inners[pe].same_object(s.inners[pe])
            &&& t.inners[pe].counts() == darc::finished(s.inners[pe].counts(), cnt)
            &&& out@ == (if darc::releases(s.inners[pe].counts(), cnt) {
                darc::reports(s.inners[pe].counts().refs)
            } else {
                Seq::empty()
            })
            &&& t == (Shares {
                inners: t.inners,
                done: system::add_row(
                    system::put(s.done, from, pe, s.done[from][pe] - cnt),
                    pe,
                    tally(out@, s.n()),
                ),
                ..s
            })
        },
        Action::NoteMode { pe, from, mode } => {
            &&& only_at(s, t, pe)
            &&& from != pe
            &&& s.written.contains((from, mode))
            &&& t.inners[pe] == (DarcInner { modes: t.inners[pe].modes, ..s.inners[pe] })
            &&& t.inners[pe].modes@ == s.inners[pe].modes@.update(from, mode)
            &&& t == (Shares { inners: t.inners, ..s })
        },
        Action::FreeStep { pe, reqs, action } => {
            &&& only_at(s, t, pe)
            &&& s.waits[pe] matches Some(phase)
            &&& phase != Phase::Done
            &&& t.waits[pe] matches Some(to)
            &&& wait::stepped(
                s.inners[pe],
                t.inners[pe],
                phase,
                reqs,
                wait::free_goal(),
                to,
                action,
            )
            &&& t == (Shares {
                inners: t.inners,
                waits: s.waits.update(pe, Some(to)),
                done: match action {
                    wait::Action::Wait(out) => system::add_row(
                        s.done,
                        pe,
                        tally(out@, s.n()),
                    ),
                    _ => s.done,
                },
                written: if action is PutMode {
                    s.written.insert((pe, DarcMode::Dropped))
                } else {
                    s.written
                },
                freed: if action is Finish {
                    s.freed.update(pe, true)
                } else {
                    s.freed
                },
                ..s
            })
        },
        Action::ChangeStep { pe, phase, reqs, mode, extra_cnt, to, action } => {
            &&& only_at(s, t, pe)
            &&& s.inners[pe].local_cnt > 0
            &&& mode != DarcMode::Dropped
            &&& wait::stepped(
                s.inners[pe],
                t.inners[pe],
                phase,
                reqs,
                wait::change_goal(mode, extra_cnt),
                to,
                action,
            )
            &&& t == (Shares {
                inners: t.inners,
                done: match action {
                    wait::Action::Wait(out) => system::add_row(
                        s.done,
                        pe,
                        tally(out@, s.n()),
                    ),
                    _ => s.done,
                },
                written: if action is PutMode {
                    s.written.insert((pe, mode))
                } else {
                    s.written
                },
                ..s
            })
        },
    }
}

/// Which event of the system an action is, if it is one. Sending is one for each
/// PE that a reference goes to.
pub open spec fn event_of<T>(s: Shares<T>, a: Action) -> Option<Event> {
    match a {
        Action::Clone { pe } => Some(Event::Clone { pe }),
        Action::Send { .. } => None,
        Action::Receive { pe, from } => Some(Event::Receive { pe, from }),
        Action::Drop { pe, .. } => Some(Event::Drop { pe }),
        Action::Hear { pe, from, cnt, .. } => Some(Event::Hear { pe, from, cnt }),
        Action::NoteMode { .. } => None,
        Action::FreeStep { pe, action, .. } => match action {
            wait::Action::Wait(_) => if wait::reports_while_waiting(
                s.inners[pe].counts(),
                s.waits[pe]->0,
                wait::free_goal(),
            ) {
                Some(Event::Report { pe })
            } else {
                None
            },
            wait::Action::Continue => None,
            wait::Action::PutMode => Some(Event::Tell { pe }),
            wait::Action::Finish => Some(Event::Free { pe }),
        },
        Action::ChangeStep { pe, phase, mode, extra_cnt, action, .. } => match action {
            wait::Action::Wait(_) => if wait::reports_while_waiting(
                s.inners[pe].counts(),
                phase,
                wait::change_goal(mode, extra_cnt),
            ) {
                Some(Event::Report { pe })
            } else {
                None
            },
            wait::Action::PutMode => Some(Event::Change { pe, mode }),
            _ => None,
        },
    }
}

proof fn reports_below(refs: Seq<int>, q: int)
    requires
        refs.len() <= q,
        refs.len() <= usize::MAX,
    ensures
        reported(darc::reports(refs), q) == 0,
    decreases refs.len(),
{
    if refs.len() > 0 {
        let front = refs.drop_last();
        reports_below(front, q);
        let x = Finished { pe: (refs.len() - 1) as usize, cnt: refs.last() as usize };
        assert(darc::reports(front).push(x).drop_last() =~= darc::reports(front));
    }
}

proof fn reports_say_refs(refs: Seq<int>, q: int)
    requires
        0 <= q < refs.len() <= usize::MAX,
        forall|i: int| 0 <= i < refs.len() ==> 0 <= #[trigger] refs[i] <= usize::MAX,
    ensures
        reported(darc::reports(refs), q) == refs[q],
    decreases refs.len(),
{
    let front = refs.drop_last();
    let x = Finished { pe: (refs.len() - 1) as usize, cnt: refs.last() as usize };
    assert(darc::reports(front).push(x).drop_last() =~= darc::reports(front));
    assert(refs.last() == refs[refs.len() - 1]);
    if q == refs.len() - 1 {
        reports_below(front, q);
    } else {
        assert forall|i: int| 0 <= i < front.len() implies 0 <= #[trigger] front[i]
            <= usize::MAX by {
            assert(front[i] == refs[i]);
        }
        reports_say_refs(front, q);
    }
}

/// The reports of a PE say of each PE how many references from there are gone.
pub proof fn reports_are_complete(refs: Seq<int>)
    requires
        refs.len() <= usize::MAX,
        forall|i: int| 0 <= i < refs.len() ==> 0 <= #[trigger] refs[i] <= usize::MAX,
    ensures
        tally(darc::reports(refs), refs.len()) == refs,
{
    assert forall|q: int| 0 <= q < refs.len() implies tally(darc::reports(refs), refs.len())[q]
        == refs[q] by {
        reports_say_refs(refs, q);
    }
    assert(tally(darc::reports(refs), refs.len()) =~= refs);
}

proof fn all_is_reported<T>(inner: DarcInner<T>, c: Counts)
    requires
        inner.wf(),
        c.refs == inner.counts().refs,
        c.parent == inner.counts().parent,
    ensures
        tally(darc::reports(darc::reportable(c)), inner.num_pes as nat) == darc::reportable(c),
        darc::reportable(c).len() == inner.num_pes,
{
    let refs = darc::reportable(c);
    assert forall|i: int| 0 <= i < refs.len() implies 0 <= #[trigger] refs[i] <= usize::MAX by {
        assert(c.refs[i] == inner.ref_cnts@[i]);
    }
    reports_are_complete(refs);
}

proof fn nothing_reported(done: Seq<Seq<int>>, pe: int, out: Seq<Finished>, n: nat)
    requires
        out.len() == 0,
        0 <= pe < done.len(),
        done[pe].len() == n,
    ensures
        system::add_row(done, pe, tally(out, n)) == done,
{
    assert(Seq::new(done[pe].len(), |q: int| done[pe][q] + tally(out, n)[q]) =~= done[pe]);
    assert(system::add_row(done, pe, tally(out, n)) =~= done);
}

/// The PEs go on sharing one object, whatever they do.
pub proof fn shares_stay_in_order<T>(s: Shares<T>, t: Shares<T>, a: Action)
    requires
        s.wf(),
        acts(s, t, a),
    ensures
        t.wf(),
        t.n() == s.n(),
{
    let pe = match a {
        Action::Clone { pe } => pe,
        Action::Send { pe, .. } => pe,
        Action::Receive { pe, .. } => pe,
        Action::Drop { pe, .. } => pe,
        Action::Hear { pe, .. } => pe,
        Action::NoteMode { pe, .. } => pe,
        Action::FreeStep { pe, .. } => pe,
        Action::ChangeStep { pe, .. } => pe,
    };
    assert(only_at(s, t, pe));
    assert(s.inners[pe].wf());
    assert forall|p: int| 0 <= p < t.n() implies (#[trigger] t.inners[p]).wf()
        && t.inners[p].my_pe == p && t.inners[p].num_pes == t.n() by {
        assert(s.inners[p].wf());
    }
    // Who has told has told for good.
    assert forall|q: int| 0 <= q < s.n() && s.told(q) implies #[trigger] t.told(q) by {
        told_stays(s, t, a, q);
    }
    assert forall|p: int, q: int|
        0 <= p < t.n() && 0 <= q < t.n() && p != q && #[trigger] t.inners[p].modes@[q]
            == DarcMode::Dropped implies t.told(q) by {
        if s.inners[p].modes@[q] == DarcMode::Dropped {
            assert(s.told(q));
        } else {
            assert(p == pe);
        }
    }
    assert forall|q: int, mode: DarcMode| #[trigger] t.written.contains((q, mode)) implies 0 <= q
        < t.n() && (mode == DarcMode::Dropped ==> t.told(q)) by {
        if s.written.contains((q, mode)) {
            assert(mode == DarcMode::Dropped ==> s.told(q));
        } else {
            assert(q == pe);
            assert(t.inners[pe].counts().told == t.inners[pe].told);
        }
    }
    assert forall|p: int| 0 <= p < t.n() implies #[trigger] t.wait_ok(p) by {
        wait_goes_on(s, t, a, p);
    }
}

proof fn told_stays<T>(s: Shares<T>, t: Shares<T>, a: Action, q: int)
    requires
        s.wf(),
        acts(s, t, a),
        0 <= q < s.n(),
    ensures
        t.n() == s.n(),
        s.told(q) ==> t.told(q),
        t.told(q) && !s.told(q) ==> (a matches Action::FreeStep { pe, action, .. } && pe == q
            && action is PutMode),
{
    assert(s.inners[q].wf());
    assert(s.inners[q].counts().told == s.inners[q].told);
    assert(t.inners[q].counts().told == t.inners[q].told);
}

proof fn wait_goes_on<T>(s: Shares<T>, t: Shares<T>, a: Action, p: int)
    requires
        s.wf(),
        acts(s, t, a),
        0 <= p < s.n(),
        t.n() == s.n(),
        forall|q: int| 0 <= q < s.n() && s.told(q) ==> #[trigger] t.told(q),
    ensures
        t.wait_ok(p),
{
    assert(s.inners[p].wf());
    assert(s.wait_ok(p));
    assert(s.inners[p].counts().told == s.inners[p].told);
    assert(t.inners[p].counts().told == t.inners[p].told);
    assert(s.inners[p].counts().waiting == s.inners[p].waiting);
    assert(t.inners[p].counts().waiting == t.inners[p].waiting);
    told_stays(s, t, a, p);
    if s.waits[p] is Some {
        let phase = s.waits[p]->0;
        let before = wait::agreed(phase, s.n() as int);
        assert forall|q: int| 0 <= q < before && q < s.n() implies #[trigger] t.told(q) by {
            assert(s.told(q));
        }
        match a {
            Action::FreeStep { pe, reqs, action } => {
                if p == pe {
                    let now = wait::agreed(t.waits[p]->0, t.n() as int);
                    assert forall|q: int| 0 <= q < now && q < t.n() implies #[trigger] t.told(
                        q,
                    ) by {
                        if q >= before {
                            assert(phase == Phase::Agree(q as usize));
                            assert(s.inners[p].modes@[q] == DarcMode::Dropped);
                            assert(s.told(q));
                        }
                    }
                }
            },
            _ => {},
        }
    }
}

/// The system after a PE has sent one reference to each of some PEs.
pub open spec fn after_sends(x: System, pe: int, to: Seq<int>) -> System {
    System {
        pes: x.pes.update(pe, darc::serialized(x.pes[pe], to.len() as int)),
        copies: with_copies(x.copies, pe, to),
        ..x
    }
}

proof fn copies_shape(copies: Seq<Seq<int>>, pe: int, to: Seq<int>, n: nat)
    requires
        0 <= pe < n,
        copies.len() == n,
        copies[pe].len() == n,
        forall|i: int| 0 <= i < to.len() ==> 0 <= #[trigger] to[i] < n,
    ensures
        with_copies(copies, pe, to).len() == n,
        with_copies(copies, pe, to)[pe].len() == n,
    decreases to.len(),
{
    if to.len() > 0 {
        assert(to.last() == to[to.len() - 1]);
        copies_shape(copies, pe, to.drop_last(), n);
    }
}

/// What a PE's functions do is an event of the system, or several, or changes
/// nothing there: sending a reference to some PEs sends it to one after the
/// other, a wait that waits may report, one that tells the others tells, and one
/// that is over frees.
pub proof fn actions_are_events<T>(s: Shares<T>, t: Shares<T>, a: Action)
    requires
        s.wf(),
        system::invariant_holds(s.system()),
        acts(s, t, a),
    ensures
        match event_of(s, a) {
            Some(e) => system::next(s.system(), t.system(), e),
            None => match a {
                Action::Send { pe, to } => {
                    &&& after_sends(s.system(), pe, to.take(0)) == s.system()
                    &&& after_sends(s.system(), pe, to.take(to.len() as int)) == t.system()
                    &&& forall|i: int|
                        0 <= i < to.len() ==> system::next(
                            after_sends(s.system(), pe, to.take(i)),
                            after_sends(s.system(), pe, to.take(i + 1)),
                            Event::Send { pe, to: #[trigger] to[i] },
                        )
                },
                _ => t.system() == s.system(),
            },
        },
{
    shares_stay_in_order(s, t, a);
    let x = s.system();
    let y = t.system();
    match a {
        Action::Clone { pe } => {
            assert(y.pes =~= x.pes.update(pe, darc::cloned_ref(x.pes[pe])));
        },
        Action::Send { pe, to } => {
            sending(s, t, pe, to);
        },
        Action::Receive { pe, from } => {
            assert(y.pes =~= x.pes.update(pe, darc::deserialized(x.pes[pe], from)));
        },
        Action::Drop { pe, outcome } => {
            assert(y.pes =~= x.pes.update(pe, darc::dropped_ref(x.pes[pe])));
            assert(s.inners[pe].wf());
            assert(x.done[pe].len() == x.n());
            if x.pes[pe].local == 1 {
                all_is_reported(s.inners[pe], darc::without_one(x.pes[pe]));
            } else {
                nothing_reported(s.done, pe, outcome.finished@, s.n());
            }
        },
        Action::Hear { pe, from, cnt, out } => {
            let heard = system::put(s.done, from, pe, s.done[from][pe] - cnt);
            assert(y.pes =~= x.pes.update(pe, darc::finished(x.pes[pe], cnt)));
            assert(s.inners[pe].wf());
            assert(x.done[pe].len() == x.n() && x.done[from].len() == x.n());
            if darc::releases(x.pes[pe], cnt) {
                let c = Counts { dist: x.pes[pe].dist - cnt, ..x.pes[pe] };
                all_is_reported(s.inners[pe], c);
            } else {
                nothing_reported(heard, pe, out@, s.n());
            }
        },
        Action::NoteMode { pe, from, mode } => {
            assert(s.inners[pe].wf());
            assert(t.inners[pe].counts() =~= s.inners[pe].counts());
            assert(y.pes =~= x.pes);
        },
        Action::FreeStep { pe, reqs, action } => {
            let phase = s.waits[pe]->0;
            assert(s.inners[pe].wf());
            assert(s.wait_ok(pe));
            assert(x.done[pe].len() == x.n());
            match action {
                wait::Action::Wait(out) => {
                    if event_of(s, a) is Some {
                        all_is_reported(s.inners[pe], x.pes[pe]);
                        assert(y.pes =~= x.pes.update(pe, darc::flushed(x.pes[pe])));
                    } else {
                        nothing_reported(s.done, pe, out@, s.n());
                        assert(y.pes =~= x.pes);
                    }
                },
                wait::Action::Finish => {
                    assert(phase == Phase::SettleAgain);
                    assert forall|q: int| 0 <= q < x.n() implies #[trigger] x.told(q) by {
                        assert(s.told(q));
                    }
                    assert(y.pes =~= x.pes);
                },
                wait::Action::PutMode => {
                    assert(y.pes =~= x.pes.update(pe, Counts { told: true, ..x.pes[pe] }));
                },
                wait::Action::Continue => {
                    assert(y.pes =~= x.pes);
                },
            }
        },
        Action::ChangeStep { pe, phase, reqs, mode, extra_cnt, to, action } => {
            assert(s.inners[pe].wf());
            assert(x.done[pe].len() == x.n());
            match action {
                wait::Action::Wait(out) => {
                    if event_of(s, a) is Some {
                        all_is_reported(s.inners[pe], x.pes[pe]);
                        assert(y.pes =~= x.pes.update(pe, darc::flushed(x.pes[pe])));
                    } else {
                        nothing_reported(s.done, pe, out@, s.n());
                        assert(y.pes =~= x.pes);
                    }
                },
                wait::Action::PutMode => {
                    assert(system::in_order(x, pe));
                    if x.told(pe) {
                        let q = x.pes[pe].parent->0;
                        assert(x.pes[pe].refs[q] > 0);
                        assert(darc::any_ref(x.pes[pe]));
                    }
                    assert(y.pes =~= x.pes.update(pe, Counts { mode, ..x.pes[pe] }));
                },
                _ => {
                    assert(y.pes =~= x.pes);
                },
            }
        },
    }
}

proof fn sending<T>(s: Shares<T>, t: Shares<T>, pe: int, to: Seq<int>)
    requires
        s.wf(),
        s.system().shaped(),
        acts(s, t, Action::Send { pe, to }),
    ensures
        after_sends(s.system(), pe, to.take(0)) == s.system(),
        after_sends(s.system(), pe, to.take(to.len() as int)) == t.system(),
        forall|i: int|
            0 <= i < to.len() ==> system::next(
                after_sends(s.system(), pe, to.take(i)),
                after_sends(s.system(), pe, to.take(i + 1)),
                Event::Send { pe, to: #[trigger] to[i] },
            ),
{
    let x = s.system();
    let y = t.system();
    assert(x.copies[pe].len() == x.n());
    assert(after_sends(x, pe, to.take(0)).pes =~= x.pes) by {
        assert(darc::serialized(x.pes[pe], 0) =~= x.pes[pe]);
    }
    assert(to.take(to.len() as int) =~= to);
    assert(after_sends(x, pe, to).pes =~= y.pes);
    assert forall|i: int| 0 <= i < to.len() implies system::next(
        after_sends(x, pe, to.take(i)),
        after_sends(x, pe, to.take(i + 1)),
        Event::Send { pe, to: #[trigger] to[i] },
    ) by {
        let u = after_sends(x, pe, to.take(i));
        let v = after_sends(x, pe, to.take(i + 1));
        assert(to.take(i + 1).drop_last() =~= to.take(i));
        assert(to.take(i + 1).last() == to[i]);
        copies_shape(x.copies, pe, to.take(i), x.n());
        assert(v.pes =~= u.pes.update(pe, darc::serialized(u.pes[pe], 1)));
    }
}

/// A run of the PEs, from when they have made the object.
pub open spec fn is_run<T>(states: Seq<Shares<T>>, actions: Seq<Action>) -> bool {
    &&& states.len() == actions.len() + 1
    &&& starts(states[0])
    &&& forall|i: int|
        0 <= i < actions.len() ==> acts(states[i], states[i + 1], #[trigger] actions[i])
}

/// PEs that have just made an object share one, and the system starts.
pub proof fn new_shares_start<T>(s: Shares<T>)
    requires
        starts(s),
    ensures
        s.wf(),
        system::initial(s.system()),
{
    let x = s.system();
    assert forall|p: int| 0 <= p < s.n() implies (#[trigger] x.pes[p]).refs.len() == x.n() by {
        assert(s.inners[p].wf());
    }
    assert(x.pes =~= Seq::new(x.n(), |p: int| darc::fresh(x.n(), x.pes[p].mode))) by {
        assert forall|p: int| 0 <= p < x.n() implies x.pes[p] == darc::fresh(
            x.n(),
            x.pes[p].mode,
        ) by {
            assert(s.inners[p].wf());
        }
    }
    assert forall|p: int| 0 <= p < x.n() implies (#[trigger] x.pes[p]).mode
        != DarcMode::Dropped by {
        assert(s.inners[p].wf());
    }
    assert forall|p: int, q: int|
        0 <= p < s.n() && 0 <= q < s.n() && p != q && #[trigger] s.inners[p].modes@[q]
            == DarcMode::Dropped implies s.told(q) by {
        assert(s.inners[p].wf());
    }
    assert forall|p: int| 0 <= p < s.n() implies #[trigger] s.wait_ok(p) by {
        assert(s.inners[p].wf());
        assert(s.inners[p].counts().told == s.inners[p].told);
        assert(s.inners[p].counts().waiting == s.inners[p].waiting);
    }
}

proof fn sends_keep_invariant(x: System, pe: int, to: Seq<int>, k: int)
    requires
        system::invariant_holds(x),
        after_sends(x, pe, to.take(0)) == x,
        forall|i: int|
            0 <= i < to.len() ==> system::next(
                after_sends(x, pe, to.take(i)),
                after_sends(x, pe, to.take(i + 1)),
                Event::Send { pe, to: #[trigger] to[i] },
            ),
        0 <= k <= to.len(),
    ensures
        system::invariant_holds(after_sends(x, pe, to.take(k))),
    decreases k,
{
    if k > 0 {
        sends_keep_invariant(x, pe, to, k - 1);
        let i = k - 1;
        assert(system::next(
            after_sends(x, pe, to.take(i)),
            after_sends(x, pe, to.take(i + 1)),
            Event::Send { pe, to: to[i] },
        ));
        system::invariant_goes_on(
            after_sends(x, pe, to.take(i)),
            after_sends(x, pe, to.take(i + 1)),
            Event::Send { pe, to: to[i] },
        );
    }
}

proof fn run_stays_in_order<T>(states: Seq<Shares<T>>, actions: Seq<Action>, k: int)
    requires
        is_run(states, actions),
        0 <= k < states.len(),
    ensures
        states[k].wf(),
        states[k].n() == states[0].n(),
        system::invariant_holds(states[k].system()),
    decreases k,
{
    if k == 0 {
        new_shares_start(states[0]);
        system::invariant_starts(states[0].system());
    } else {
        run_stays_in_order(states, actions, k - 1);
        let s = states[k - 1];
        let t = states[k];
        let a = actions[k - 1];
        assert(acts(s, states[(k - 1) + 1], a));
        shares_stay_in_order(s, t, a);
        actions_are_events(s, t, a);
        match event_of(s, a) {
            Some(e) => {
                system::invariant_goes_on(s.system(), t.system(), e);
            },
            None => match a {
                Action::Send { pe, to } => {
                    sends_keep_invariant(s.system(), pe, to, to.len() as int);
                },
                _ => {},
            },
        }
    }
}

/// As long as a reference exists anywhere, on a PE or on the way to one, no PE's
/// wait for freeing the object is over: the object is there on every PE.
pub proof fn freed_without_references<T>(
    states: Seq<Shares<T>>,
    actions: Seq<Action>,
    k: int,
    p: int,
    q: int,
)
    requires
        is_run(states, actions),
        0 <= k < states.len(),
        0 <= p < states[0].n(),
        0 <= q < states[0].n(),
        states[k].system().referenced(q),
    ensures
        !states[k].freed[p],
{
    run_stays_in_order(states, actions, k);
    system::referenced_is_not_freed(states[k].system(), p, q);
}

/// A report that comes in never speaks of more references than its PE has sent
/// and not heard of.
pub proof fn reports_speak_of_sent_references<T>(
    states: Seq<Shares<T>>,
    actions: Seq<Action>,
    k: int,
    pe: int,
    from: int,
)
    requires
        is_run(states, actions),
        0 <= k < states.len(),
        0 <= pe < states[0].n(),
        0 <= from < states[0].n(),
    ensures
        states[k].done[from][pe] <= states[k].inners[pe].dist_cnt,
{
    run_stays_in_order(states, actions, k);
    system::sums_are_positive(states[k].system(), pe, pe, pe, from);
}

/// A PE's wait for freeing the object ends once at most, and not before every PE
/// has told that it dropped the object, while this PE has no references and
/// knows of none that it has sent.
pub proof fn freed_once<T>(states: Seq<Shares<T>>, actions: Seq<Action>, i: int, j: int, pe: int)
    requires
        is_run(states, actions),
        0 <= i <= j < actions.len(),
        frees(actions[i], pe),
        frees(actions[j], pe),
    ensures
        i == j,
        forall|q: int| 0 <= q < states[i].n() ==> #[trigger] states[i].told(q),
        states[i].inners[pe].local_cnt == 0,
        states[i].inners[pe].dist_cnt == 0,
{
    run_stays_in_order(states, actions, i);
    let s = states[i];
    assert(acts(s, states[i + 1], actions[i]));
    assert(s.inners[pe].wf());
    assert(s.wait_ok(pe));
    assert(s.waits[pe] == Some(Phase::SettleAgain));
    assert(s.inners[pe].counts().local == s.inners[pe].local_cnt);
    assert(s.inners[pe].counts().dist == s.inners[pe].dist_cnt);
    if i < j {
        stays_done(states, actions, i + 1, j, pe);
        assert(acts(states[j], states[j + 1], actions[j]));
    }
}

/// Whether an action ends a PE's wait for freeing the object.
pub open spec fn frees(a: Action, pe: int) -> bool {
    a matches Action::FreeStep { pe: p, action, .. } && p == pe && action is Finish
}

proof fn stays_done<T>(states: Seq<Shares<T>>, actions: Seq<Action>, i: int, j: int, pe: int)
    requires
        is_run(states, actions),
        0 <= i <= j < states.len(),
        0 <= pe < states[i].n(),
        states[i].waits[pe] == Some(Phase::Done),
    ensures
        states[j].waits[pe] == Some(Phase::Done),
    decreases j - i,
{
    if i < j {
        run_stays_in_order(states, actions, i);
        run_stays_in_order(states, actions, i + 1);
        assert(acts(states[i], states[i + 1], actions[i]));
        assert(states[i].wait_ok(pe));
        assert(states[i].inners[pe].counts().waiting == states[i].inners[pe].waiting);
        stays_done(states, actions, i + 1, j, pe);
    }
}

/// Holding reports back keeps no PE waiting for ever: when no PE has a reference
/// and nothing is under way between PEs, every PE knows that all that it has
/// sent is gone.
pub proof fn quiet_pes_are_settled<T>(
    states: Seq<Shares<T>>,
    actions: Seq<Action>,
    k: int,
    p: int,
)
    requires
        is_run(states, actions),
        0 <= k < states.len(),
        0 <= p < states[0].n(),
        system::quiet(states[k].system()),
    ensures
        states[k].inners[p].local_cnt == 0,
        states[k].inners[p].dist_cnt == 0,
{
    run_stays_in_order(states, actions, k);
    system::quiet_is_settled(states[k].system(), p);
    assert(states[k].system().pes[p] == states[k].inners[p].counts());
}

/// Whether the object is of one of the kinds that `new`, `into_localrw` and
/// `into_globalrw` give it, wherever it is not dropped, and a PE that has it
/// dropped waits until it can be freed.
spec fn is_ended<T>(s: Shares<T>, p: int) -> bool {
    let c = s.inners[p].counts();
    &&& c.mode == DarcMode::Darc || c.mode == DarcMode::LocalRw || c.mode == DarcMode::GlobalRw
        || c.mode == DarcMode::Dropped
    &&& c.mode == DarcMode::Dropped ==> c.waiting
    &&& c.local == 0 ==> c.mode == DarcMode::Dropped
}

proof fn stays_ended<T>(s: Shares<T>, t: Shares<T>, a: Action, p: int)
    requires
        s.wf(),
        acts(s, t, a),
        0 <= p < s.n(),
        is_ended(s, p),
        a matches Action::ChangeStep { mode, .. } ==> mode == DarcMode::Darc || mode
            == DarcMode::LocalRw || mode == DarcMode::GlobalRw,
    ensures
        is_ended(t, p),
{
    assert(s.inners[p].wf());
    assert(s.wait_ok(p));
    assert(s.inners[p].counts().waiting == s.inners[p].waiting);
    assert(s.inners[p].counts().local == s.inners[p].local_cnt);
}

/// Whatever kinds an object has had of those that `new`, `into_localrw` and
/// `into_globalrw` give it, a PE without references has it dropped, and waits
/// until it can be freed.
pub proof fn unreferenced_pe_waits<T>(
    states: Seq<Shares<T>>,
    actions: Seq<Action>,
    k: int,
    p: int,
)
    requires
        is_run(states, actions),
        0 <= k < states.len(),
        0 <= p < states[0].n(),
        forall|q: int|
            0 <= q < states[0].n() ==> {
                let mode = (#[trigger] states[0].inners[q]).modes@[q];
                mode == DarcMode::Darc || mode == DarcMode::LocalRw || mode == DarcMode::GlobalRw
            },
        forall|i: int|
            0 <= i < actions.len() ==> (#[trigger] actions[i] matches Action::ChangeStep {
                mode,
                ..
            } ==> mode == DarcMode::Darc || mode == DarcMode::LocalRw || mode
                == DarcMode::GlobalRw),
    ensures
        states[k].inners[p].local_cnt == 0 ==> states[k].inners[p].modes@[p] == DarcMode::Dropped
            && states[k].inners[p].waiting && states[k].waits[p] is Some,
{
    ended_so_far(states, actions, k, p);
    run_stays_in_order(states, actions, k);
    let d = states[k].inners[p];
    assert(d.wf());
    assert(states[k].wait_ok(p));
    assert(d.counts().waiting == d.waiting);
    assert(d.counts().local == d.local_cnt);
}

proof fn ended_so_far<T>(states: Seq<Shares<T>>, actions: Seq<Action>, k: int, p: int)
    requires
        is_run(states, actions),
        0 <= k < states.len(),
        0 <= p < states[0].n(),
        forall|q: int|
            0 <= q < states[0].n() ==> {
                let mode = (#[trigger] states[0].inners[q]).modes@[q];
                mode == DarcMode::Darc || mode == DarcMode::LocalRw || mode == DarcMode::GlobalRw
            },
        forall|i: int|
            0 <= i < actions.len() ==> (#[trigger] actions[i] matches Action::ChangeStep {
                mode,
                ..
            } ==> mode == DarcMode::Darc || mode == DarcMode::LocalRw || mode
                == DarcMode::GlobalRw),
    ensures
        is_ended(states[k], p),
    decreases k,
{
    if k == 0 {
        assert(states[0].inners[p].wf());
    } else {
        ended_so_far(states, actions, k - 1, p);
        run_stays_in_order(states, actions, k - 1);
        assert(acts(states[k - 1], states[(k - 1) + 1], actions[k - 1]));
        stays_ended(states[k - 1], states[k], actions[k - 1], p);
    }
}

/// Whether a PE that has told the others has written so, and one whose wait is
/// over has freed the object.
spec fn is_written<T>(s: Shares<T>, p: int) -> bool {
    &&& s.told(p) ==> s.written.contains((p, DarcMode::Dropped))
    &&& s.waits[p] == Some(Phase::Done) ==> s.freed[p]
}

proof fn written_so_far<T>(states: Seq<Shares<T>>, actions: Seq<Action>, k: int, p: int)
    requires
        is_run(states, actions),
        0 <= k < states.len(),
        0 <= p < states[0].n(),
    ensures
        is_written(states[k], p),
        states[k].freed.len() == states[k].n(),
    decreases k,
{
    if k == 0 {
        assert(states[0].inners[p].wf());
        assert(states[0].inners[p].counts().told == states[0].inners[p].told);
    } else {
        written_so_far(states, actions, k - 1, p);
        run_stays_in_order(states, actions, k - 1);
        let s = states[k - 1];
        let t = states[k];
        let a = actions[k - 1];
        assert(acts(s, states[(k - 1) + 1], a));
        assert(s.inners[p].wf());
        assert(s.wait_ok(p));
        assert(s.inners[p].counts().waiting == s.inners[p].waiting);
        assert(t.inners[p].counts().told == t.inners[p].told);
        told_stays(s, t, a, p);
    }
}

/// An object is freed everywhere after its last reference is gone, whatever kinds
/// it has had of those that `new`, `into_localrw` and `into_globalrw` give it:
/// when no PE has a reference and nothing is under way between PEs, when what PEs
/// have written has come in, and when no PE's wait can go on, with no requests
/// open, then every PE has freed it.
pub proof fn unreferenced_is_freed_everywhere<T>(
    states: Seq<Shares<T>>,
    actions: Seq<Action>,
    k: int,
    pe: int,
)
    requires
        is_run(states, actions),
        0 <= k < states.len(),
        0 <= pe < states[0].n(),
        forall|q: int|
            0 <= q < states[0].n() ==> {
                let mode = (#[trigger] states[0].inners[q]).modes@[q];
                mode == DarcMode::Darc || mode == DarcMode::LocalRw || mode == DarcMode::GlobalRw
            },
        forall|i: int|
            0 <= i < actions.len() ==> (#[trigger] actions[i] matches Action::ChangeStep {
                mode,
                ..
            } ==> mode == DarcMode::Darc || mode == DarcMode::LocalRw || mode
                == DarcMode::GlobalRw),
        system::quiet(states[k].system()),
        forall|p: int, q: int|
            0 <= p < states[k].n() && 0 <= q < states[k].n() && p != q
                && states[k].written.contains((q, DarcMode::Dropped))
                ==> #[trigger] states[k].inners[p].modes@[q] == DarcMode::Dropped,
        forall|p: int|
            0 <= p < states[k].n() ==> (#[trigger] states[k].waits[p] matches Some(phase)
                ==> wait::next_phase(states[k].inners[p], phase, 0, wait::free_goal()) == phase),
    ensures
        states[k].freed[pe],
{
    let s = states[k];
    run_stays_in_order(states, actions, k);
    assert forall|p: int| 0 <= p < s.n() implies #[trigger] s.told(p) && s.waits[p] is Some
        && s.inners[p].modes@[p] == DarcMode::Dropped && s.written.contains(
        (p, DarcMode::Dropped),
    ) by {
        unreferenced_pe_waits(states, actions, k, p);
        quiet_pes_are_settled(states, actions, k, p);
        written_so_far(states, actions, k, p);
        assert(s.wait_ok(p));
        assert(s.inners[p].wf());
        let phase = s.waits[p]->0;
        assert(wait::next_phase(s.inners[p], phase, 0, wait::free_goal()) == phase);
    }
    written_so_far(states, actions, k, pe);
    assert(s.told(pe));
    assert(s.inners[pe].wf());
    quiet_pes_are_settled(states, actions, k, pe);
    let phase = s.waits[pe]->0;
    assert(wait::next_phase(s.inners[pe], phase, 0, wait::free_goal()) == phase);
    if let Phase::Agree(q) = phase {
        if q < s.n() {
            assert(s.told(q as int));
            assert(s.inners[pe].modes@[q as int] == DarcMode::Dropped);
        }
    }
}

} // verus!
