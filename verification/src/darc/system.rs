//! All PEs that share an object, with the references and reports that are under
//! way between them.
//!
//! A PE that has told the others that it dropped the object is engaged while it
//! holds a report back. The PE to which it holds it back was engaged before, or
//! has not told. So once all PEs have told, none is engaged, and nothing that
//! refers to the object is left anywhere.

use vstd::prelude::*;

use crate::darc;
use crate::darc::{Counts, DarcMode};
use crate::math;

verus! {

/// All PEs, and what is under way between them.
#[verifier::ext_equal]
pub struct System {
    /// The counts of each PE.
    pub pes: Seq<Counts>,
    /// `copies[p][q]`: references on the way from `p` to `q`.
    pub copies: Seq<Seq<int>>,
    /// `done[p][q]`: references from `q` that `p` has reported gone, on the way
    /// to `q`.
    pub done: Seq<Seq<int>>,
    /// Whether a PE has freed the object.
    pub freed: Seq<bool>,
    /// When each PE was engaged last.
    pub since: Seq<int>,
    /// How often PEs have been engaged.
    pub clock: int,
}

/// What can happen.
pub enum Event {
    /// A PE copies one of its references.
    Clone { pe: int },
    /// A PE sends one of its references to another.
    Send { pe: int, to: int },
    /// A reference comes in.
    Receive { pe: int, from: int },
    /// A PE drops one of its references.
    Drop { pe: int },
    /// A PE reports references from other PEs gone.
    Report { pe: int },
    /// A PE that has not told the others that it dropped the object takes it for
    /// another kind.
    Change { pe: int, mode: DarcMode },
    /// A report of `cnt` references comes in.
    Hear { pe: int, from: int, cnt: int },
    /// A PE that has dropped the object and settled everything tells the others.
    Tell { pe: int },
    /// A PE that has heard from all others, and settled everything again, frees
    /// the object.
    Free { pe: int },
}

/// An entry of a table.
pub open spec fn entry(table: Seq<Seq<int>>, p: int, q: int) -> int {
    table[p][q]
}

/// Changes an entry of a table.
pub open spec fn put(table: Seq<Seq<int>>, p: int, q: int, x: int) -> Seq<Seq<int>> {
    table.update(p, table[p].update(q, x))
}

/// A table of zeros.
pub open spec fn zeros(n: nat) -> Seq<Seq<int>> {
    Seq::new(n, |p: int| darc::no_refs(n))
}

/// Adds to each entry of a row.
pub open spec fn add_row(table: Seq<Seq<int>>, p: int, row: Seq<int>) -> Seq<Seq<int>> {
    table.update(p, Seq::new(table[p].len(), |q: int| table[p][q] + row[q]))
}

impl System {
    pub open spec fn n(self) -> nat {
        self.pes.len()
    }

    pub open spec fn shaped(self) -> bool {
        &&& self.copies.len() == self.n()
        &&& self.done.len() == self.n()
        &&& self.freed.len() == self.n()
        &&& self.since.len() == self.n()
        &&& forall|p: int| 0 <= p < self.n() ==> (#[trigger] self.pes[p]).refs.len() == self.n()
        &&& forall|p: int| 0 <= p < self.n() ==> (#[trigger] self.copies[p]).len() == self.n()
        &&& forall|p: int| 0 <= p < self.n() ==> (#[trigger] self.done[p]).len() == self.n()
    }

    /// Whether a PE has told the others that it dropped the object.
    pub open spec fn told(self, p: int) -> bool {
        self.pes[p].told
    }

    /// Whether a PE holds a report back.
    pub open spec fn engaged(self, p: int) -> bool {
        self.pes[p].parent is Some
    }

    /// Whether a reference exists on a PE or on the way to it.
    pub open spec fn referenced(self, q: int) -> bool {
        self.pes[q].local > 0 || exists|p: int|
            0 <= p < self.n() && #[trigger] entry(self.copies, p, q) > 0
    }
}

/// Every PE has just made the object.
pub open spec fn initial(s: System) -> bool {
    &&& s.shaped()
    &&& s.pes == Seq::new(s.n(), |p: int| darc::fresh(s.n(), s.pes[p].mode))
    &&& forall|p: int| 0 <= p < s.n() ==> (#[trigger] s.pes[p]).mode != DarcMode::Dropped
    &&& s.copies == zeros(s.n())
    &&& s.done == zeros(s.n())
    &&& s.freed == Seq::new(s.n(), |p: int| false)
    &&& s.clock == 0
}

/// How the system goes on.
pub open spec fn next(s: System, t: System, e: Event) -> bool {
    match e {
        Event::Clone { pe } => {
            &&& 0 <= pe < s.n()
            &&& s.pes[pe].local > 0
            &&& t == (System { pes: s.pes.update(pe, darc::cloned_ref(s.pes[pe])), ..s })
        },
        Event::Send { pe, to } => {
            &&& 0 <= pe < s.n()
            &&& 0 <= to < s.n()
            &&& s.pes[pe].local > 0
            &&& t == (System {
                pes: s.pes.update(pe, darc::serialized(s.pes[pe], 1)),
                copies: put(s.copies, pe, to, s.copies[pe][to] + 1),
                ..s
            })
        },
        Event::Receive { pe, from } => {
            let engages = s.told(pe) && !s.engaged(pe);
            &&& 0 <= pe < s.n()
            &&& 0 <= from < s.n()
            &&& s.copies[from][pe] > 0
            &&& t == (System {
                pes: s.pes.update(pe, darc::deserialized(s.pes[pe], from)),
                copies: put(s.copies, from, pe, s.copies[from][pe] - 1),
                since: if engages {
                    s.since.update(pe, s.clock)
                } else {
                    s.since
                },
                clock: if engages {
                    s.clock + 1
                } else {
                    s.clock
                },
                ..s
            })
        },
        Event::Drop { pe } => {
            &&& 0 <= pe < s.n()
            &&& s.pes[pe].local > 0
            &&& t == (System {
                pes: s.pes.update(pe, darc::dropped_ref(s.pes[pe])),
                done: if s.pes[pe].local == 1 {
                    add_row(s.done, pe, darc::reportable(darc::without_one(s.pes[pe])))
                } else {
                    s.done
                },
                ..s
            })
        },
        Event::Report { pe } => {
            &&& 0 <= pe < s.n()
            &&& t == (System {
                pes: s.pes.update(pe, darc::flushed(s.pes[pe])),
                done: add_row(s.done, pe, darc::reportable(s.pes[pe])),
                ..s
            })
        },
        Event::Change { pe, mode } => {
            &&& 0 <= pe < s.n()
            &&& !s.told(pe)
            &&& mode != DarcMode::Dropped
            &&& t == (System { pes: s.pes.update(pe, Counts { mode, ..s.pes[pe] }), ..s })
        },
        Event::Hear { pe, from, cnt } => {
            let heard = put(s.done, from, pe, s.done[from][pe] - cnt);
            &&& 0 <= pe < s.n()
            &&& 0 <= from < s.n()
            &&& 0 < cnt <= s.done[from][pe]
            &&& t == (System {
                pes: s.pes.update(pe, darc::finished(s.pes[pe], cnt)),
                done: if darc::releases(s.pes[pe], cnt) {
                    add_row(heard, pe, s.pes[pe].refs)
                } else {
                    heard
                },
                ..s
            })
        },
        Event::Tell { pe } => {
            &&& 0 <= pe < s.n()
            &&& !s.told(pe)
            &&& s.pes[pe].mode == DarcMode::Dropped
            &&& darc::at_rest(s.pes[pe])
            &&& t == (System { pes: s.pes.update(pe, Counts { told: true, ..s.pes[pe] }), ..s })
        },
        Event::Free { pe } => {
            &&& 0 <= pe < s.n()
            &&& forall|q: int| 0 <= q < s.n() ==> #[trigger] s.told(q)
            &&& darc::at_rest(s.pes[pe])
            &&& t == (System { freed: s.freed.update(pe, true), ..s })
        },
    }
}

/// A column of what PEs count of references from `p`.
pub open spec fn refs_from(s: System, p: int) -> Seq<int> {
    Seq::new(s.n(), |q: int| s.pes[q].refs[p])
}

/// A column of what is reported to `p`.
pub open spec fn done_to(s: System, p: int) -> Seq<int> {
    Seq::new(s.n(), |q: int| s.done[q][p])
}

/// Every reference that a PE has sent is on its way, is counted where it came
/// in, or is reported gone.
pub open spec fn balanced(s: System, p: int) -> bool {
    s.pes[p].dist == math::total(s.copies[p]) + math::total(refs_from(s, p)) + math::total(
        done_to(s, p),
    )
}

/// What a PE that has told, or holds a report back, has of the object: at rest
/// it holds nothing back, and otherwise it does, to a PE that was engaged before
/// it or has not told. Without references of its own, it counts no reference
/// but the one whose report it holds back.
pub open spec fn in_order(s: System, p: int) -> bool {
    let c = s.pes[p];
    &&& c.told ==> c.mode == DarcMode::Dropped
    &&& c.told && c.parent is None ==> darc::at_rest(c)
    &&& c.local == 0 ==> c.refs == darc::flushed(c).refs
    &&& c.parent matches Some(q) ==> {
        &&& 0 <= q < s.n()
        &&& c.told
        &&& c.refs[q] > 0
        &&& !darc::at_rest(c)
        &&& 0 <= s.since[p] < s.clock
        &&& s.told(q) ==> s.engaged(q) && s.since[q] < s.since[p]
    }
}

/// Whether no count is negative.
pub open spec fn natural(s: System) -> bool {
    &&& s.clock >= 0
    &&& forall|p: int| 0 <= p < s.n() ==> (#[trigger] s.pes[p]).local >= 0
    &&& forall|p: int, q: int|
        0 <= p < s.n() && 0 <= q < s.n() ==> #[trigger] entry(s.copies, p, q) >= 0
    &&& forall|p: int, q: int|
        0 <= p < s.n() && 0 <= q < s.n() ==> #[trigger] entry(s.done, p, q) >= 0
    &&& forall|p: int, q: int|
        0 <= p < s.n() && 0 <= q < s.n() ==> #[trigger] s.pes[p].refs[q] >= 0
}

/// What holds of every state that the system can reach.
pub open spec fn invariant_holds(s: System) -> bool {
    &&& s.shaped()
    &&& natural(s)
    &&& forall|p: int| 0 <= p < s.n() ==> #[trigger] balanced(s, p)
    &&& forall|p: int| 0 <= p < s.n() ==> #[trigger] in_order(s, p)
    &&& forall|p: int, q: int|
        0 <= p < s.n() && 0 <= q < s.n() && #[trigger] s.freed[p] ==> #[trigger] s.told(q)
}

proof fn zero_total(s: Seq<int>)
    requires
        forall|i: int| 0 <= i < s.len() ==> s[i] == 0,
    ensures
        math::total(s) == 0,
    decreases s.len(),
{
    if s.len() > 0 {
        zero_total(s.drop_last());
    }
}

/// The invariant holds at the start.
pub proof fn invariant_starts(s: System)
    requires
        initial(s),
    ensures
        invariant_holds(s),
{
    assert forall|p: int| 0 <= p < s.n() implies #[trigger] balanced(s, p) by {
        assert(s.pes[p] == darc::fresh(s.n(), s.pes[p].mode));
        zero_total(s.copies[p]);
        assert forall|q: int| 0 <= q < s.n() implies refs_from(s, p)[q] == 0 by {
            assert(s.pes[q] == darc::fresh(s.n(), s.pes[q].mode));
        }
        zero_total(refs_from(s, p));
        zero_total(done_to(s, p));
    }
    assert forall|p: int| 0 <= p < s.n() implies (#[trigger] s.pes[p]).local >= 0 by {
        assert(s.pes[p] == darc::fresh(s.n(), s.pes[p].mode));
    }
    assert forall|p: int| 0 <= p < s.n() implies #[trigger] in_order(s, p) by {
        assert(s.pes[p] == darc::fresh(s.n(), s.pes[p].mode));
    }
    assert forall|p: int, q: int| 0 <= p < s.n() && 0 <= q < s.n() implies 
    #[trigger] s.pes[p].refs[q] >= 0 by {
        assert(s.pes[p] == darc::fresh(s.n(), s.pes[p].mode));
    }
}

proof fn balance_kept(s: System, t: System, e: Event, p: int)
    requires
        invariant_holds(s),
        next(s, t, e),
        0 <= p < s.n(),
    ensures
        balanced(t, p),
{
    assert(balanced(s, p));
    match e {
        Event::Send { pe, to } => {
            assert(refs_from(t, p) =~= refs_from(s, p));
            assert(done_to(t, p) =~= done_to(s, p));
            if p == pe {
                math::total_update(s.copies[pe], to, s.copies[pe][to] + 1);
            }
        },
        Event::Receive { pe, from } => {
            assert(done_to(t, p) =~= done_to(s, p));
            if p == from {
                math::total_update(s.copies[from], pe, s.copies[from][pe] - 1);
                math::total_update(refs_from(s, p), pe, s.pes[pe].refs[from] + 1);
                assert(refs_from(t, p) =~= refs_from(s, p).update(pe, s.pes[pe].refs[from] + 1));
            } else {
                assert(refs_from(t, p) =~= refs_from(s, p));
            }
        },
        Event::Drop { pe } => {
            if s.pes[pe].local == 1 {
                let c = darc::without_one(s.pes[pe]);
                assert(in_order(s, pe));
                flush_kept(s, t, pe, p, darc::reportable(c));
            } else {
                assert(refs_from(t, p) =~= refs_from(s, p));
                assert(done_to(t, p) =~= done_to(s, p));
            }
        },
        Event::Report { pe } => {
            assert(in_order(s, pe));
            flush_kept(s, t, pe, p, darc::reportable(s.pes[pe]));
        },
        Event::Hear { pe, from, cnt } => {
            let heard = System {
                pes: s.pes.update(pe, Counts { dist: s.pes[pe].dist - cnt, ..s.pes[pe] }),
                done: put(s.done, from, pe, s.done[from][pe] - cnt),
                ..s
            };
            assert(refs_from(heard, p) =~= refs_from(s, p));
            if p == pe {
                let left = s.done[from][p] - cnt;
                math::total_update(done_to(s, p), from, left);
                assert(done_to(heard, p) =~= done_to(s, p).update(from, left));
            } else {
                assert(done_to(heard, p) =~= done_to(s, p));
            }
            assert(balanced(heard, p));
            if darc::releases(s.pes[pe], cnt) {
                assert(heard.shaped()) by {
                    assert(s.shaped());
                }
                flush_kept(heard, t, pe, p, s.pes[pe].refs);
            } else {
                assert(t =~= heard);
            }
        },
        _ => {
            assert(refs_from(t, p) =~= refs_from(s, p));
            assert(done_to(t, p) =~= done_to(s, p));
        },
    }
}

proof fn flush_kept(s: System, t: System, pe: int, p: int, moved: Seq<int>)
    requires
        s.shaped(),
        balanced(s, p),
        0 <= pe < s.n(),
        0 <= p < s.n(),
        t.n() == s.n(),
        t.copies == s.copies,
        t.done == add_row(s.done, pe, moved),
        t.pes[pe].refs[p] + moved[p] == s.pes[pe].refs[p],
        t.pes[pe].dist == s.pes[pe].dist,
        forall|q: int| 0 <= q < s.n() && q != pe ==> #[trigger] t.pes[q] == s.pes[q],
    ensures
        balanced(t, p),
{
    let left = t.pes[pe].refs[p];
    math::total_update(refs_from(s, p), pe, left);
    assert(refs_from(t, p) =~= refs_from(s, p).update(pe, left));
    math::total_update(done_to(s, p), pe, s.done[pe][p] + moved[p]);
    assert(s.done[pe].len() == s.n());
    assert(done_to(t, p) =~= done_to(s, p).update(pe, s.done[pe][p] + moved[p]));
    assert(t.pes[p].dist == s.pes[p].dist);
}

/// Whatever happens, the invariant goes on to hold.
pub proof fn invariant_goes_on(s: System, t: System, e: Event)
    requires
        invariant_holds(s),
        next(s, t, e),
    ensures
        invariant_holds(t),
{
    assert(t.n() == s.n());
    assert forall|p: int| 0 <= p < t.n() implies #[trigger] balanced(t, p) by {
        balance_kept(s, t, e, p);
    }
    entries_kept(s, t, e);
    assert forall|p: int| 0 <= p < t.n() implies #[trigger] in_order(t, p) by {
        order_kept(s, t, e, p);
    }
    assert forall|p: int, q: int|
        0 <= p < t.n() && 0 <= q < t.n() && #[trigger] t.freed[p] implies #[trigger] t.told(q) by {
        assert(s.told(q) ==> t.told(q));
        match e {
            Event::Free { pe } => {
                if p != pe {
                    assert(s.freed[p]);
                }
                assert(s.told(q));
            },
            _ => {
                assert(s.freed[p]);
                assert(s.told(q));
            },
        }
    }
}

proof fn entries_kept(s: System, t: System, e: Event)
    requires
        invariant_holds(s),
        next(s, t, e),
    ensures
        t.shaped(),
        natural(t),
{
    let pe = match e {
        Event::Clone { pe } => pe,
        Event::Send { pe, .. } => pe,
        Event::Receive { pe, .. } => pe,
        Event::Drop { pe } => pe,
        Event::Report { pe } => pe,
        Event::Change { pe, .. } => pe,
        Event::Hear { pe, .. } => pe,
        Event::Tell { pe } => pe,
        Event::Free { pe } => pe,
    };
    assert(in_order(s, pe));
    assert forall|p: int, q: int| 0 <= p < t.n() && 0 <= q < t.n() implies #[trigger] entry(
        t.copies,
        p,
        q,
    ) >= 0 by {
        assert(entry(s.copies, p, q) >= 0);
    }
    assert forall|p: int| 0 <= p < t.n() implies (#[trigger] t.pes[p]).refs.len() == t.n() by {
        assert(s.pes[p].refs.len() == s.n());
    }
    assert forall|p: int, q: int| 0 <= p < t.n() && 0 <= q < t.n() implies 
    #[trigger] t.pes[p].refs[q] >= 0 by {
        assert(s.pes[p].refs[q] >= 0);
    }
    assert forall|p: int, q: int| 0 <= p < t.n() && 0 <= q < t.n() implies #[trigger] entry(
        t.done,
        p,
        q,
    ) >= 0 by {
        assert(entry(s.done, p, q) >= 0);
        assert(s.pes[p].refs[q] >= 0);
    }
    assert forall|p: int| 0 <= p < t.n() implies (#[trigger] t.pes[p]).local >= 0 by {
        assert(s.pes[p].local >= 0);
    }
}

/// A PE has sent at least what is on its way, what is counted and what is
/// reported, anywhere.
pub proof fn sums_are_positive(s: System, p: int, to: int, at: int, from: int)
    requires
        invariant_holds(s),
        0 <= p < s.n(),
        0 <= to < s.n(),
        0 <= at < s.n(),
        0 <= from < s.n(),
    ensures
        s.pes[p].dist >= s.copies[p][to] + s.pes[at].refs[p] + s.done[from][p],
        s.copies[p][to] >= 0,
        s.pes[at].refs[p] >= 0,
        s.done[from][p] >= 0,
{
    assert(balanced(s, p));
    assert(entry(s.copies, p, to) >= 0);
    assert(entry(s.done, from, p) >= 0);
    assert forall|q: int| 0 <= q < s.copies[p].len() implies s.copies[p][q] >= 0 by {
        assert(entry(s.copies, p, q) >= 0);
    }
    assert forall|q: int| 0 <= q < s.n() implies done_to(s, p)[q] >= 0 by {
        assert(entry(s.done, q, p) >= 0);
    }
    assert forall|q: int| 0 <= q < s.n() implies refs_from(s, p)[q] >= 0 by {
        assert(s.pes[q].refs[p] >= 0);
    }
    math::total_at_least(s.copies[p], to);
    math::total_at_least(refs_from(s, p), at);
    math::total_at_least(done_to(s, p), from);
    assert(done_to(s, p)[from] == s.done[from][p]);
    assert(refs_from(s, p)[at] == s.pes[at].refs[p]);
}

/// What a PE holds a report back to stays as it is: it has sent a reference that
/// is not reported.
proof fn parent_stays(s: System, t: System, e: Event, p: int)
    requires
        invariant_holds(s),
        next(s, t, e),
        0 <= p < s.n(),
        s.engaged(p),
    ensures
        ({
            let q = s.pes[p].parent->0;
            &&& 0 <= q < s.n()
            &&& s.told(q) == t.told(q)
            &&& s.told(q) ==> t.engaged(q) && t.since[q] == s.since[q]
        }),
{
    let q = s.pes[p].parent->0;
    assert(in_order(s, p));
    assert(in_order(s, q));
    sums_are_positive(s, q, p, p, p);
    assert(s.pes[q].dist >= 1);
    match e {
        Event::Hear { pe, from, cnt } => {
            if pe == q {
                sums_are_positive(s, q, p, p, from);
            }
        },
        _ => {},
    }
}

proof fn order_kept(s: System, t: System, e: Event, p: int)
    requires
        invariant_holds(s),
        next(s, t, e),
        0 <= p < s.n(),
    ensures
        in_order(t, p),
{
    assert(in_order(s, p));
    let c = s.pes[p];
    let d = t.pes[p];
    assert(c.local >= 0);
    if s.engaged(p) {
        parent_stays(s, t, e, p);
    }
    match e {
        Event::Receive { pe, from } => {
            if p == pe && s.told(p) && !s.engaged(p) {
                sums_are_positive(s, p, p, p, p);
                assert(from != p) by {
                    assert(entry(s.copies, from, p) > 0);
                }
                assert(in_order(s, from));
                sums_are_positive(s, from, p, p, p);
                assert(s.pes[from].dist > 0);
                assert(c.refs[from] >= 0);
                assert(d.refs[from] > 0);
            } else if p != pe {
                assert(d == c);
            }
        },
        Event::Hear { pe, from, cnt } => {
            if p == pe {
                sums_are_positive(s, p, p, p, from);
                let mid = Counts { dist: c.dist - cnt, ..c };
                if c.local == 0 && !darc::releases(c, cnt) {
                    assert(d == mid);
                    assert(darc::flushed(mid).refs =~= darc::flushed(c).refs);
                }
            } else {
                assert(d == c);
            }
        },
        Event::Drop { pe } => {
            if p == pe {
                if c.local == 1 {
                    let mid = darc::without_one(c);
                    assert(darc::flushed(d).refs =~= darc::flushed(mid).refs);
                }
            } else {
                assert(d == c);
            }
        },
        Event::Report { pe } => {
            if p == pe {
                assert(darc::flushed(d).refs =~= darc::flushed(c).refs);
            } else {
                assert(d == c);
            }
        },
        Event::Tell { pe } => {
            if p == pe {
                assert(darc::flushed(d).refs =~= darc::flushed(c).refs);
            } else {
                assert(d == c);
            }
        },
        Event::Send { pe, to } => {
            if p != pe {
                assert(d == c);
            }
        },
        Event::Clone { pe } => {
            if p != pe {
                assert(d == c);
            }
        },
        Event::Change { pe, mode } => {
            if p == pe {
                assert(darc::flushed(d).refs =~= darc::flushed(c).refs);
            } else {
                assert(d == c);
            }
        },
        Event::Free { pe } => {
            assert(d == c);
        },
    }
}

/// Once all PEs have told, none holds a report back: it would do so to a PE that
/// was engaged before it, and that one too.
pub proof fn no_one_is_engaged(s: System, p: int)
    requires
        invariant_holds(s),
        forall|q: int| 0 <= q < s.n() ==> #[trigger] s.told(q),
        0 <= p < s.n(),
    ensures
        !s.engaged(p),
    decreases s.since[p],
{
    assert(in_order(s, p));
    if s.engaged(p) {
        let q = s.pes[p].parent->0;
        assert(s.told(q));
        assert(in_order(s, q));
        no_one_is_engaged(s, q);
    }
}

/// What is referenced anywhere is freed nowhere.
pub proof fn referenced_is_not_freed(s: System, p: int, q: int)
    requires
        invariant_holds(s),
        0 <= p < s.n(),
        0 <= q < s.n(),
        s.referenced(q),
    ensures
        !s.freed[p],
{
    if s.freed[p] {
        assert forall|r: int| 0 <= r < s.n() implies #[trigger] s.told(r) by {
            assert(s.freed[p]);
        }
        assert forall|r: int| 0 <= r < s.n() implies darc::at_rest(#[trigger] s.pes[r]) by {
            assert(in_order(s, r));
            assert(s.told(r));
            no_one_is_engaged(s, r);
        }
        assert forall|r: int| 0 <= r < s.n() implies #[trigger] entry(s.copies, r, q) == 0 by {
            sums_are_positive(s, r, q, r, r);
            assert(darc::at_rest(s.pes[r]));
        }
        assert(darc::at_rest(s.pes[q]));
    }
}

/// Whether no PE has a reference, and nothing is under way.
pub open spec fn quiet(s: System) -> bool {
    &&& forall|p: int| 0 <= p < s.n() ==> (#[trigger] s.pes[p]).local == 0
    &&& forall|p: int, q: int|
        0 <= p < s.n() && 0 <= q < s.n() ==> #[trigger] entry(s.copies, p, q) == 0
    &&& forall|p: int, q: int|
        0 <= p < s.n() && 0 <= q < s.n() ==> #[trigger] entry(s.done, p, q) == 0
}

proof fn has_positive(s: Seq<int>) -> (i: int)
    requires
        math::total(s) > 0,
    ensures
        0 <= i < s.len(),
        s[i] > 0,
    decreases s.len(),
{
    if s.last() > 0 {
        s.len() - 1
    } else {
        has_positive(s.drop_last())
    }
}

proof fn holder(s: System, p: int) -> (x: int)
    requires
        invariant_holds(s),
        quiet(s),
        0 <= p < s.n(),
        s.pes[p].dist != 0,
    ensures
        0 <= x < s.n(),
        s.pes[x].parent == Some(p),
{
    assert(balanced(s, p));
    assert forall|q: int| 0 <= q < s.n() implies s.copies[p][q] == 0 by {
        assert(entry(s.copies, p, q) == 0);
    }
    assert forall|q: int| 0 <= q < s.n() implies done_to(s, p)[q] == 0 by {
        assert(entry(s.done, q, p) == 0);
    }
    assert forall|q: int| 0 <= q < s.n() implies refs_from(s, p)[q] >= 0 by {
        assert(s.pes[q].refs[p] >= 0);
    }
    zero_total(s.copies[p]);
    zero_total(done_to(s, p));
    math::total_nonnegative(refs_from(s, p));
    let x = has_positive(refs_from(s, p));
    assert(s.pes[x].refs[p] > 0);
    assert(in_order(s, x));
    assert(s.pes[x].local == 0);
    x
}

proof fn quiet_is_not_engaged(s: System, p: int)
    requires
        invariant_holds(s),
        quiet(s),
        0 <= p < s.n(),
    ensures
        !s.engaged(p),
    decreases s.clock - s.since[p],
{
    assert(in_order(s, p));
    if s.engaged(p) {
        assert(s.pes[p].local == 0);
        let x = holder(s, p);
        assert(in_order(s, x));
        assert(s.told(p));
        quiet_is_not_engaged(s, x);
    }
}

/// Holding reports back keeps no PE waiting for ever: when no PE has a reference
/// and nothing is under way, every PE knows that all that it has sent is gone.
pub proof fn quiet_is_settled(s: System, p: int)
    requires
        invariant_holds(s),
        quiet(s),
        0 <= p < s.n(),
    ensures
        darc::at_rest(s.pes[p]),
{
    assert(s.pes[p].local == 0);
    if s.pes[p].dist != 0 {
        let x = holder(s, p);
        quiet_is_not_engaged(s, x);
    }
}

/// A run of the system: a state, and for each further state what happened.
pub open spec fn is_run(states: Seq<System>, events: Seq<Event>) -> bool {
    &&& states.len() == events.len() + 1
    &&& initial(states[0])
    &&& forall|i: int| 0 <= i < events.len() ==> next(states[i], states[i + 1], #[trigger] events[i])
}

proof fn run_keeps_invariant(states: Seq<System>, events: Seq<Event>, k: int)
    requires
        is_run(states, events),
        0 <= k < states.len(),
    ensures
        invariant_holds(states[k]),
        states[k].n() == states[0].n(),
    decreases k,
{
    if k == 0 {
        invariant_starts(states[0]);
    } else {
        run_keeps_invariant(states, events, k - 1);
        assert(next(states[k - 1], states[(k - 1) + 1], events[k - 1]));
        invariant_goes_on(states[k - 1], states[k], events[k - 1]);
    }
}

/// As long as a single reference to an object exists anywhere, on a PE or on
/// the way to one, the object is freed nowhere.
pub proof fn object_outlives_references(
    states: Seq<System>,
    events: Seq<Event>,
    k: int,
    p: int,
    q: int,
)
    requires
        is_run(states, events),
        0 <= k < states.len(),
        0 <= p < states[0].n(),
        0 <= q < states[0].n(),
        states[k].referenced(q),
    ensures
        !states[k].freed[p],
{
    run_keeps_invariant(states, events, k);
    referenced_is_not_freed(states[k], p, q);
}

/// Every reference that a PE has sent is accounted for: it is on its way, it is
/// counted where it came in, or it is reported gone.
pub proof fn sent_references_are_counted(
    states: Seq<System>,
    events: Seq<Event>,
    k: int,
    p: int,
)
    requires
        is_run(states, events),
        0 <= k < states.len(),
        0 <= p < states[0].n(),
    ensures
        balanced(states[k], p),
{
    run_keeps_invariant(states, events, k);
}

} // verus!
