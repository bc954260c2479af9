//! Distributed reference counting: an object that lives on every PE of a team
//! for as long as any PE has a reference to it.
//!
//! Each PE counts its own references, the references that it has sent to other
//! PEs and that are not known to be gone, and, for each PE, the references that
//! came from there. When it has none of its own left it reports those gone to the
//! PEs that they came from.
//!
//! A PE that has told the others that it dropped the object may be sent a
//! reference again. Of what comes in while it is at rest it holds one report back,
//! that of the first reference, until it is at rest again: so the PE that sent it
//! goes on to count it for as long as anything that came of it is left.

use vstd::prelude::*;

use crate::lamellae::{AllocationType, Backend};
use crate::lamellar_team::{IdError, LamellarTeamRT};

pub mod steps;
pub mod system;
pub mod wait;

verus! {

/// What kind of object the references belong to.
#[derive(Clone, Copy, Debug, PartialEq, Eq, Structural)]
pub enum DarcMode {
    Dropped,
    Darc,
    LocalRw,
    GlobalRw,
    UnsafeArray,
    ReadOnlyArray,
    LocalOnlyArray,
    GenericAtomicArray,
    NativeAtomicArray,
    LocalLockAtomicArray,
}

/// Bytes that a mode takes in the memory of an object.
pub const MODE_LEN: usize = 1;

/// What one PE holds of an object.
pub struct DarcInner<T> {
    /// This PE's place in the team.
    pub my_pe: usize,
    /// How many PEs the team has.
    pub num_pes: usize,
    /// References on this PE.
    pub local_cnt: usize,
    /// References that this PE has sent and that are not known to be gone.
    pub dist_cnt: usize,
    /// For each PE, references that came from there.
    pub ref_cnts: Vec<usize>,
    /// What each PE takes the object for, as far as this PE knows.
    pub modes: Vec<DarcMode>,
    /// Whether this PE has told the others that it dropped the object.
    pub told: bool,
    /// Whether this PE waits until the object can be freed.
    pub waiting: bool,
    /// The PE to which the report of one reference is held back.
    pub parent: Option<usize>,
    pub item: T,
}

/// A reference to an object on one PE, and the PE it came from.
pub struct Darc<T> {
    pub inner: DarcInner<T>,
    pub src_pe: usize,
}

/// The counts of one PE.
#[verifier::ext_equal]
pub struct Counts {
    pub local: int,
    pub dist: int,
    pub refs: Seq<int>,
    pub mode: DarcMode,
    pub told: bool,
    pub waiting: bool,
    pub parent: Option<int>,
}

/// A number of references from a PE that are gone.
#[derive(Clone, Copy, Debug, PartialEq, Eq, Structural)]
pub struct Finished {
    /// The PE that the references came from.
    pub pe: usize,
    pub cnt: usize,
}

/// Whether references from some PE are counted.
pub open spec fn any_ref(c: Counts) -> bool {
    exists|q: int| 0 <= q < c.refs.len() && #[trigger] c.refs[q] > 0
}

/// No references from anywhere.
pub open spec fn no_refs(n: nat) -> Seq<int> {
    Seq::new(n, |q: int| 0)
}

/// The counts of an object that was just made.
pub open spec fn fresh(n: nat, mode: DarcMode) -> Counts {
    Counts {
        local: 1,
        dist: 0,
        refs: no_refs(n),
        mode,
        told: false,
        waiting: false,
        parent: None,
    }
}

/// Another reference on the same PE.
pub open spec fn cloned_ref(c: Counts) -> Counts {
    Counts { local: c.local + 1, ..c }
}

/// A reference is sent to `cnt` PEs.
pub open spec fn serialized(c: Counts, cnt: int) -> Counts {
    Counts { dist: c.dist + cnt, ..c }
}

/// A reference from a PE has come in. If this PE has told the others that it
/// dropped the object, and holds no report back, it will hold back this one's.
pub open spec fn deserialized(c: Counts, src: int) -> Counts {
    Counts {
        local: c.local + 1,
        refs: c.refs.update(src, c.refs[src] + 1),
        parent: if c.told && c.parent is None {
            Some(src)
        } else {
            c.parent
        },
        ..c
    }
}

/// Whether a PE has no references, and knows of none that it has sent.
pub open spec fn at_rest(c: Counts) -> bool {
    c.local == 0 && c.dist == 0
}

/// The PE to which one report is still held back.
pub open spec fn held(c: Counts) -> Option<int> {
    if at_rest(c) {
        None
    } else {
        c.parent
    }
}

/// For each PE, how many references from there can be reported gone.
pub open spec fn reportable(c: Counts) -> Seq<int> {
    match held(c) {
        Some(q) => c.refs.update(q, c.refs[q] - 1),
        None => c.refs,
    }
}

/// The references that came from other PEs have been reported gone, but for the
/// one whose report is held back.
pub open spec fn flushed(c: Counts) -> Counts {
    Counts {
        refs: match held(c) {
            Some(q) => no_refs(c.refs.len()).update(q, 1),
            None => no_refs(c.refs.len()),
        },
        parent: held(c),
        ..c
    }
}

/// Whether it is time to send the report that was held back, after a PE has said
/// that references are gone.
pub open spec fn releases(c: Counts, cnt: int) -> bool {
    c.parent is Some && c.local == 0 && c.dist == cnt
}

/// A PE has said that references that were sent to it are gone.
pub open spec fn finished(c: Counts, cnt: int) -> Counts {
    let d = Counts { dist: c.dist - cnt, ..c };
    if releases(c, cnt) {
        flushed(d)
    } else {
        d
    }
}

/// Whether a mode is one that the last reference ends.
pub open spec fn droppable(mode: DarcMode) -> bool {
    mode == DarcMode::Darc || mode == DarcMode::LocalRw || mode == DarcMode::GlobalRw
}

/// One reference less on this PE.
pub open spec fn without_one(c: Counts) -> Counts {
    Counts { local: c.local - 1, ..c }
}

/// A reference is gone. With the last one, the references from other PEs are
/// reported gone, and the object counts as dropped on this PE, which then waits
/// until it can be freed.
pub open spec fn dropped_ref(c: Counts) -> Counts {
    let c1 = without_one(c);
    if c1.local == 0 {
        Counts {
            mode: if droppable(c.mode) {
                DarcMode::Dropped
            } else {
                c.mode
            },
            waiting: c.waiting || droppable(c.mode),
            ..flushed(c1)
        }
    } else {
        c1
    }
}

/// The reports of references from other PEs: one for each PE with references, in
/// the order of the PEs.
pub open spec fn reports(refs: Seq<int>) -> Seq<Finished>
    decreases refs.len(),
{
    if refs.len() == 0 {
        Seq::empty()
    } else {
        let front = reports(refs.drop_last());
        if refs.last() > 0 {
            front.push(Finished { pe: (refs.len() - 1) as usize, cnt: refs.last() as usize })
        } else {
            front
        }
    }
}

/// The last reference on a PE ends an object of each of the kinds that are made
/// with `new`, `into_localrw` and `into_globalrw`: the object counts as dropped
/// there, and the PE waits until it can be freed. No other kind is ended, and no
/// reference but the last one ends an object.
pub proof fn last_reference_ends_object(c: Counts)
    requires
        c.local > 0,
    ensures
        c.local == 1 && c.mode == DarcMode::Darc ==> dropped_ref(c).mode == DarcMode::Dropped
            && dropped_ref(c).waiting,
        c.local == 1 && c.mode == DarcMode::LocalRw ==> dropped_ref(c).mode == DarcMode::Dropped
            && dropped_ref(c).waiting,
        c.local == 1 && c.mode == DarcMode::GlobalRw ==> dropped_ref(c).mode == DarcMode::Dropped
            && dropped_ref(c).waiting,
        c.local > 1 || (c.mode != DarcMode::Darc && c.mode != DarcMode::LocalRw && c.mode
            != DarcMode::GlobalRw) ==> dropped_ref(c).mode == c.mode && dropped_ref(c).waiting
            == c.waiting,
        dropped_ref(c).local == c.local - 1,
        dropped_ref(c).dist == c.dist,
        dropped_ref(c).told == c.told,
{
}

/// What a dropped reference entails.
pub struct DropOutcome {
    /// Reports to be sent.
    pub finished: Vec<Finished>,
    /// Whether to wait until the object is dropped everywhere, and free it.
    pub launch: bool,
}

impl<T> DarcInner<T> {
    pub open spec fn wf(self) -> bool {
        &&& self.my_pe < self.num_pes
        &&& self.ref_cnts@.len() == self.num_pes
        &&& self.modes@.len() == self.num_pes
        &&& self.parent matches Some(q) ==> q < self.num_pes && self.ref_cnts@[q as int] > 0
    }

    pub open spec fn counts(self) -> Counts {
        Counts {
            local: self.local_cnt as int,
            dist: self.dist_cnt as int,
            refs: Seq::new(self.ref_cnts@.len(), |q: int| self.ref_cnts@[q] as int),
            mode: self.modes@[self.my_pe as int],
            told: self.told,
            waiting: self.waiting,
            parent: match self.parent {
                Some(q) => Some(q as int),
                None => None,
            },
        }
    }

    /// Everything but the counts and this PE's own mode.
    pub open spec fn same_object(self, other: Self) -> bool {
        &&& self.my_pe == other.my_pe
        &&& self.num_pes == other.num_pes
        &&& self.item == other.item
        &&& self.modes@.len() == other.modes@.len()
        &&& forall|q: int|
            0 <= q < self.modes@.len() && q != self.my_pe ==> #[trigger] self.modes@[q]
                == other.modes@[q]
    }

    /// Counts references that came from a PE. Gives how many there were.
    pub fn inc_pe_ref_count(&mut self, pe: usize, amt: usize) -> (before: usize)
        requires
            old(self).wf(),
            pe < old(self).num_pes,
            old(self).ref_cnts@[pe as int] + amt <= usize::MAX,
        ensures
            final(self).wf(),
            final(self).same_object(*old(self)),
            before == old(self).ref_cnts@[pe as int],
            final(self).counts() == (Counts {
                refs: old(self).counts().refs.update(pe as int, before + amt),
                ..old(self).counts()
            }),
            final(self).ref_cnts@ == old(self).ref_cnts@.update(
                pe as int,
                (old(self).ref_cnts@[pe as int] + amt) as usize,
            ),
            *final(self) == (DarcInner { ref_cnts: final(self).ref_cnts, ..*old(self) }),
    {
        let before: usize = self.ref_cnts[pe];
        self.ref_cnts.set(pe, before + amt);
        assert(self.counts() =~= (Counts {
            refs: old(self).counts().refs.update(pe as int, before + amt),
            ..old(self).counts()
        }));
        before
    }

    /// A PE says that `cnt` references that were sent to it are gone. Gives what
    /// has to be reported in turn.
    pub fn finish(&mut self, cnt: usize) -> (r: Vec<Finished>)
        requires
            old(self).wf(),
            cnt <= old(self).dist_cnt,
        ensures
            final(self).wf(),
            final(self).same_object(*old(self)),
            final(self).counts() == finished(old(self).counts(), cnt as int),
            r@ == (if releases(old(self).counts(), cnt as int) {
                reports(old(self).counts().refs)
            } else {
                Seq::empty()
            }),
            *final(self) == (DarcInner {
                dist_cnt: (old(self).dist_cnt - cnt) as usize,
                ref_cnts: final(self).ref_cnts,
                parent: final(self).parent,
                ..*old(self)
            }),
            forall|q: int|
                0 <= q < old(self).num_pes ==> steps::reported(r@, q) + (
                #[trigger] final(self).ref_cnts@[q]) == old(self).ref_cnts@[q],
            // A PE that holds a report back sends it when it comes to rest.
            old(self).parent is Some && old(self).local_cnt == 0 && old(self).dist_cnt == cnt ==> (
            forall|q: int|
                0 <= q < old(self).num_pes ==> #[trigger] final(self).ref_cnts@[q] == 0),
            old(self).parent is None || old(self).local_cnt > 0 || old(self).dist_cnt > cnt
                ==> final(self).ref_cnts@ == old(self).ref_cnts@ && r@.len() == 0,
    {
        self.dist_cnt = self.dist_cnt - cnt;
        let ghost d = self.counts();
        assert(d =~= (Counts { dist: old(self).counts().dist - cnt, ..old(self).counts() }));
        if self.parent.is_some() && self.local_cnt == 0 && self.dist_cnt == 0 {
            self.send_finished()
        } else {
            Vec::new()
        }
    }

    /// Takes note of what has to be reported to the PEs that references came
    /// from.
    pub fn send_finished(&mut self) -> (r: Vec<Finished>)
        requires
            old(self).wf(),
        ensures
            final(self).wf(),
            final(self).same_object(*old(self)),
            final(self).counts() == flushed(old(self).counts()),
            r@ == reports(reportable(old(self).counts())),
            *final(self) == (DarcInner {
                ref_cnts: final(self).ref_cnts,
                parent: final(self).parent,
                ..*old(self)
            }),
            // What is reported gone is not counted any more, and all else is.
            forall|q: int|
                0 <= q < old(self).num_pes ==> steps::reported(r@, q) + (
                #[trigger] final(self).ref_cnts@[q]) == old(self).ref_cnts@[q],
            // Nothing stays but the one reference whose report is held back, and
            // that only while this PE has references or has sent some.
            forall|q: int|
                0 <= q < old(self).num_pes ==> #[trigger] final(self).ref_cnts@[q] == (if (old(
                    self,
                ).local_cnt > 0 || old(self).dist_cnt > 0) && old(self).parent == Some(
                    q as usize,
                ) {
                    1usize
                } else {
                    0usize
                }),
            final(self).parent == (if old(self).local_cnt > 0 || old(self).dist_cnt > 0 {
                old(self).parent
            } else {
                None
            }),
    {
        if self.local_cnt == 0 && self.dist_cnt == 0 {
            self.parent = None;
        }
        let held_to: Option<usize> = self.parent;
        let mut out: Vec<Finished> = Vec::new();
        let mut pe: usize = 0;
        let ghost refs = reportable(old(self).counts());
        let ghost left = flushed(old(self).counts()).refs;
        assert(refs.take(0) == Seq::<int>::empty());
        while pe < self.ref_cnts.len()
            invariant
                pe <= self.ref_cnts@.len(),
                refs == reportable(old(self).counts()),
                left == flushed(old(self).counts()).refs,
                old(self).wf(),
                self.my_pe == old(self).my_pe,
                self.num_pes == old(self).num_pes,
                self.local_cnt == old(self).local_cnt,
                self.dist_cnt == old(self).dist_cnt,
                self.modes == old(self).modes,
                self.told == old(self).told,
                self.waiting == old(self).waiting,
                self.item == old(self).item,
                self.parent == held_to,
                held(old(self).counts()) == (match held_to {
                    Some(q) => Some(q as int),
                    None => None,
                }),
                held_to matches Some(q) ==> q < old(self).num_pes && old(self).ref_cnts@[q as int]
                    > 0,
                self.ref_cnts@.len() == refs.len(),
                left.len() == refs.len(),
                forall|q: int| 0 <= q < pe ==> #[trigger] self.ref_cnts@[q] == left[q],
                forall|q: int|
                    pe <= q < refs.len() ==> #[trigger] self.ref_cnts@[q] == old(
                        self,
                    ).ref_cnts@[q],
                out@ == reports(refs.take(pe as int)),
            decreases self.ref_cnts@.len() - pe,
        {
            let keep: usize = match held_to {
                Some(q) => if q == pe {
                    1
                } else {
                    0
                },
                None => 0,
            };
            let cnt: usize = self.ref_cnts[pe] - keep;
            self.ref_cnts.set(pe, keep);
            proof {
                assert(refs.take(pe as int + 1).drop_last() == refs.take(pe as int));
                assert(refs.take(pe as int + 1).last() == refs[pe as int]);
                assert(refs[pe as int] == cnt);
                assert(left[pe as int] == keep);
            }
            if cnt > 0 {
                out.push(Finished { pe, cnt });
            }
            pe = pe + 1;
        }
        proof {
            assert(refs.take(pe as int) == refs);
            assert(self.counts() =~= flushed(old(self).counts()));
            assert forall|q: int| 0 <= q < old(self).num_pes implies steps::reported(out@, q) + (
            #[trigger] self.ref_cnts@[q]) == old(self).ref_cnts@[q] by {
                assert forall|i: int| 0 <= i < refs.len() implies 0 <= #[trigger] refs[i]
                    <= usize::MAX by {
                    assert(old(self).counts().refs[i] == old(self).ref_cnts@[i]);
                }
                steps::reports_are_complete(refs);
                assert(steps::tally(out@, refs.len())[q] == refs[q]);
            }
        }
        out
    }

    /// Whether references from some PE are counted.
    pub fn any_ref_cnt(&self) -> (r: bool)
        ensures
            r == any_ref(self.counts()),
            r == exists|q: int| 0 <= q < self.ref_cnts@.len() && #[trigger] self.ref_cnts@[q] > 0,
    {
        let mut pe: usize = 0;
        while pe < self.ref_cnts.len()
            invariant
                pe <= self.ref_cnts@.len(),
                forall|q: int| 0 <= q < pe ==> #[trigger] self.ref_cnts@[q] == 0,
            decreases self.ref_cnts@.len() - pe,
        {
            if self.ref_cnts[pe] > 0 {
                assert(self.counts().refs[pe as int] > 0);
                return true;
            }
            pe = pe + 1;
        }
        assert forall|q: int| 0 <= q < self.counts().refs.len() implies !(
        #[trigger] self.counts().refs[q] > 0) by {
            assert(self.ref_cnts@[q] == 0);
        }
        false
    }

    /// Sets what this PE takes the object for.
    pub fn set_mode(&mut self, mode: DarcMode)
        requires
            old(self).wf(),
        ensures
            final(self).wf(),
            final(self).same_object(*old(self)),
            final(self).counts() == (Counts { mode, ..old(self).counts() }),
            final(self).modes@ == old(self).modes@.update(old(self).my_pe as int, mode),
            *final(self) == (DarcInner { modes: final(self).modes, ..*old(self) }),
    {
        self.modes.set(self.my_pe, mode);
        assert(self.counts() =~= (Counts { mode, ..old(self).counts() }));
    }

    /// Takes note that this PE has told the others that it dropped the object.
    pub fn set_told(&mut self)
        requires
            old(self).wf(),
        ensures
            final(self).wf(),
            final(self).same_object(*old(self)),
            final(self).counts() == (Counts { told: true, ..old(self).counts() }),
            *final(self) == (DarcInner { told: true, ..*old(self) }),
    {
        self.told = true;
        assert(self.counts() =~= (Counts { told: true, ..old(self).counts() }));
    }

    /// Another PE says what it takes the object for.
    pub fn note_mode(&mut self, pe: usize, mode: DarcMode)
        requires
            old(self).wf(),
            pe < old(self).num_pes,
        ensures
            final(self).wf(),
            final(self).modes@ == old(self).modes@.update(pe as int, mode),
            *final(self) == (DarcInner { modes: final(self).modes, ..*old(self) }),
    {
        self.modes.set(pe, mode);
    }
}

/// Where the parts of an object's memory on one PE lie.
pub struct DarcLayout {
    pub alloc: AllocationType,
    pub size: usize,
    /// Where the counts of references from other PEs start, from the beginning.
    pub ref_cnt_offset: usize,
    /// Where the modes start, from the beginning.
    pub mode_offset: usize,
}

/// The bytes of an object's memory on one PE: its own part, a count for each
/// PE, and a mode for each PE.
pub open spec fn darc_size(inner_size: int, num_pes: int, count_len: int) -> int {
    inner_size + num_pes * count_len + num_pes * MODE_LEN
}

/// Decides who takes part in the allocation of an object, and how its memory is
/// divided. An object of the whole world is allocated by everyone, another one
/// by the members of its team.
pub fn darc_layout(team: &LamellarTeamRT, inner_size: usize, count_len: usize) -> (r: DarcLayout)
    requires
        team.wf(),
        darc_size(inner_size as int, team.pes@.len() as int, count_len as int) <= usize::MAX,
    ensures
        team.pes@.len() == team.num_world_pes ==> r.alloc == AllocationType::Global,
        team.pes@.len() != team.num_world_pes ==> (r.alloc matches AllocationType::Sub(pes)
            && pes@ == team.pes@),
        r.size == darc_size(inner_size as int, team.pes@.len() as int, count_len as int),
        r.ref_cnt_offset == inner_size,
        r.mode_offset == inner_size + team.pes@.len() * count_len,
        r.size == r.mode_offset + team.pes@.len(),
{
    let n: usize = team.num_pes();
    assert(0 <= n * count_len) by (nonlinear_arith);
    let counts: usize = n * count_len;
    let alloc = if n == team.num_world_pes {
        AllocationType::Global
    } else {
        let mut pes: Vec<usize> = Vec::new();
        let mut i: usize = 0;
        while i < team.pes.len()
            invariant
                i <= team.pes@.len(),
                pes@ == team.pes@.take(i as int),
            decreases team.pes@.len() - i,
        {
            pes.push(team.pes[i]);
            i = i + 1;
            assert(pes@ == team.pes@.take(i as int));
        }
        assert(team.pes@.take(i as int) == team.pes@);
        AllocationType::Sub(pes)
    };
    DarcLayout {
        alloc,
        size: inner_size + counts + n * MODE_LEN,
        ref_cnt_offset: inner_size,
        mode_offset: inner_size + counts,
    }
}

impl<T> Darc<T> {
    pub open spec fn wf(self) -> bool {
        &&& self.inner.wf()
        &&& self.src_pe < self.inner.num_pes
    }

    /// Makes an object. Only members of the team can.
    pub fn new(team: &LamellarTeamRT, item: T) -> (r: Result<Darc<T>, IdError>)
        requires
            team.wf(),
        ensures
            match r {
                Ok(d) => {
                    &&& team.has_member(team.world_pe)
                    &&& d.wf()
                    &&& d.inner.my_pe == team.place_of(team.world_pe)
                    &&& d.src_pe == d.inner.my_pe
                    &&& d.inner.num_pes == team.pes@.len()
                    &&& d.inner.counts() == fresh(team.pes@.len(), DarcMode::Darc)
                    &&& d.inner.modes@ == Seq::new(team.pes@.len(), |q: int| DarcMode::Darc)
                    &&& d.inner.item == item
                    &&& team.pes@[d.inner.my_pe as int] == team.world_pe
                    &&& d.inner.local_cnt == 1
                    &&& d.inner.dist_cnt == 0
                    &&& forall|q: int|
                        0 <= q < d.inner.num_pes ==> #[trigger] d.inner.ref_cnts@[q] == 0
                    &&& !d.inner.told
                    &&& !d.inner.waiting
                    &&& d.inner.parent is None
                },
                Err(e) => !team.has_member(team.world_pe) && e == (IdError {
                    parent_pe: team.world_pe,
                }),
            },
    {
        Darc::try_new(team, item, DarcMode::Darc)
    }

    /// Makes an object of some kind. Only members of the team can.
    pub fn try_new(team: &LamellarTeamRT, item: T, state: DarcMode) -> (r: Result<
        Darc<T>,
        IdError,
    >)
        requires
            team.wf(),
        ensures
            match r {
                Ok(d) => {
                    &&& team.has_member(team.world_pe)
                    &&& d.wf()
                    &&& d.inner.my_pe == team.place_of(team.world_pe)
                    &&& d.src_pe == d.inner.my_pe
                    &&& d.inner.num_pes == team.pes@.len()
                    &&& d.inner.counts() == fresh(team.pes@.len(), state)
                    &&& d.inner.modes@ == Seq::new(team.pes@.len(), |q: int| state)
                    &&& d.inner.item == item
                    &&& team.pes@[d.inner.my_pe as int] == team.world_pe
                    &&& d.inner.local_cnt == 1
                    &&& d.inner.dist_cnt == 0
                    &&& forall|q: int|
                        0 <= q < d.inner.num_pes ==> #[trigger] d.inner.ref_cnts@[q] == 0
                    &&& !d.inner.told
                    &&& !d.inner.waiting
                    &&& d.inner.parent is None
                },
                Err(e) => !team.has_member(team.world_pe) && e == (IdError {
                    parent_pe: team.world_pe,
                }),
            },
    {
        let my_pe: usize = match team.team_pe_id() {
            Ok(pe) => pe,
            Err(e) => {
                return Err(e);
            },
        };
        let num_pes: usize = team.num_pes();
        let mut ref_cnts: Vec<usize> = Vec::new();
        let mut modes: Vec<DarcMode> = Vec::new();
        let mut pe: usize = 0;
        while pe < num_pes
            invariant
                pe <= num_pes,
                ref_cnts@ == Seq::new(pe as nat, |q: int| 0usize),
                modes@ == Seq::new(pe as nat, |q: int| state),
            decreases num_pes - pe,
        {
            ref_cnts.push(0);
            modes.push(state);
            pe = pe + 1;
            assert(ref_cnts@ =~= Seq::new(pe as nat, |q: int| 0usize));
            assert(modes@ =~= Seq::new(pe as nat, |q: int| state));
        }
        let inner = DarcInner {
            my_pe,
            num_pes,
            local_cnt: 1,
            dist_cnt: 0,
            ref_cnts,
            modes,
            told: false,
            waiting: false,
            parent: None,
            item,
        };
        assert(inner.counts() =~= fresh(team.pes@.len(), state));
        Ok(Darc { inner, src_pe: my_pe })
    }

    /// Counts another reference on this PE. It comes from the same PE as this
    /// one.
    pub fn clone_ref(&mut self) -> (src_pe: usize)
        requires
            old(self).wf(),
            0 < old(self).inner.local_cnt < usize::MAX,
        ensures
            final(self).wf(),
            src_pe == old(self).src_pe,
            final(self).src_pe == old(self).src_pe,
            final(self).inner.same_object(old(self).inner),
            final(self).inner.counts() == cloned_ref(old(self).inner.counts()),
            final(self).inner == (DarcInner {
                local_cnt: (old(self).inner.local_cnt + 1) as usize,
                ..old(self).inner
            }),
    {
        self.inner.local_cnt = self.inner.local_cnt + 1;
        assert(self.inner.counts() =~= cloned_ref(old(self).inner.counts()));
        self.src_pe
    }

    /// Counts a reference that is sent to `cnt` PEs.
    pub fn serialize_update_cnts(&mut self, cnt: usize, _cur_pe: usize)
        requires
            old(self).wf(),
            old(self).inner.local_cnt > 0,
            old(self).inner.dist_cnt + cnt <= usize::MAX,
        ensures
            final(self).wf(),
            final(self).src_pe == old(self).src_pe,
            final(self).inner.same_object(old(self).inner),
            final(self).inner.counts() == serialized(old(self).inner.counts(), cnt as int),
            final(self).inner == (DarcInner {
                dist_cnt: (old(self).inner.dist_cnt + cnt) as usize,
                ..old(self).inner
            }),
    {
        self.inner.dist_cnt = self.inner.dist_cnt + cnt;
        assert(self.inner.counts() =~= serialized(old(self).inner.counts(), cnt as int));
    }

    /// Counts a reference that has come in.
    pub fn deserialize_update_cnts(&mut self, _cur_pe: usize)
        requires
            old(self).wf(),
            old(self).inner.local_cnt < usize::MAX,
            old(self).inner.ref_cnts@[old(self).src_pe as int] < usize::MAX,
        ensures
            final(self).wf(),
            final(self).src_pe == old(self).src_pe,
            final(self).inner.same_object(old(self).inner),
            final(self).inner.counts() == deserialized(
                old(self).inner.counts(),
                old(self).src_pe as int,
            ),
            final(self).inner.local_cnt == old(self).inner.local_cnt + 1,
            final(self).inner.dist_cnt == old(self).inner.dist_cnt,
            final(self).inner.ref_cnts@ == old(self).inner.ref_cnts@.update(
                old(self).src_pe as int,
                (old(self).inner.ref_cnts@[old(self).src_pe as int] + 1) as usize,
            ),
            final(self).inner.modes@ == old(self).inner.modes@,
            final(self).inner.told == old(self).inner.told,
            final(self).inner.waiting == old(self).inner.waiting,
            old(self).inner.told && old(self).inner.parent is None ==> final(self).inner.parent
                == Some(old(self).src_pe),
            !old(self).inner.told || old(self).inner.parent is Some ==> final(self).inner.parent
                == old(self).inner.parent,
    {
        let src: usize = self.src_pe;
        self.inner.inc_pe_ref_count(src, 1);
        assert(self.inner.counts().refs[src as int] > 0);
        self.inner.local_cnt = self.inner.local_cnt + 1;
        if self.inner.told && self.inner.parent.is_none() {
            self.inner.parent = Some(src);
        }
        assert(self.inner.counts() =~= deserialized(old(self).inner.counts(), src as int));
    }

    /// Sends a reference: `ser` of whatever holds it.
    pub fn ser(&mut self, num_pes: usize)
        requires
            old(self).wf(),
            old(self).inner.local_cnt > 0,
            old(self).inner.dist_cnt + num_pes <= usize::MAX,
        ensures
            final(self).wf(),
            final(self).src_pe == old(self).src_pe,
            final(self).inner.same_object(old(self).inner),
            final(self).inner.counts() == serialized(old(self).inner.counts(), num_pes as int),
            final(self).inner == (DarcInner {
                dist_cnt: (old(self).inner.dist_cnt + num_pes) as usize,
                ..old(self).inner
            }),
    {
        self.serialize_update_cnts(num_pes, 0);
    }

    /// Takes in a reference: `des` of whatever holds it. Only a member of the
    /// team can.
    pub fn des(&mut self, cur_pe: Result<usize, IdError>)
        requires
            old(self).wf(),
            cur_pe is Ok,
            old(self).inner.local_cnt < usize::MAX,
            old(self).inner.ref_cnts@[old(self).src_pe as int] < usize::MAX,
        ensures
            final(self).wf(),
            final(self).src_pe == old(self).src_pe,
            final(self).inner.same_object(old(self).inner),
            final(self).inner.counts() == deserialized(
                old(self).inner.counts(),
                old(self).src_pe as int,
            ),
            final(self).inner.local_cnt == old(self).inner.local_cnt + 1,
            final(self).inner.dist_cnt == old(self).inner.dist_cnt,
            final(self).inner.ref_cnts@ == old(self).inner.ref_cnts@.update(
                old(self).src_pe as int,
                (old(self).inner.ref_cnts@[old(self).src_pe as int] + 1) as usize,
            ),
            final(self).inner.modes@ == old(self).inner.modes@,
            final(self).inner.told == old(self).inner.told,
            final(self).inner.waiting == old(self).inner.waiting,
            old(self).inner.told && old(self).inner.parent is None ==> final(self).inner.parent
                == Some(old(self).src_pe),
            !old(self).inner.told || old(self).inner.parent is Some ==> final(self).inner.parent
                == old(self).inner.parent,
    {
        if let Ok(pe) = cur_pe {
            self.deserialize_update_cnts(pe);
        }
    }

    /// A reference is gone.
    pub fn drop_ref(&mut self) -> (r: DropOutcome)
        requires
            old(self).wf(),
            old(self).inner.local_cnt > 0,
        ensures
            final(self).wf(),
            final(self).src_pe == old(self).src_pe,
            final(self).inner.same_object(old(self).inner),
            final(self).inner.counts() == dropped_ref(old(self).inner.counts()),
            old(self).inner.local_cnt == 1 ==> r.finished@ == reports(
                reportable(without_one(old(self).inner.counts())),
            ),
            old(self).inner.local_cnt > 1 ==> r.finished@.len() == 0,
            r.launch == (old(self).inner.local_cnt == 1 && droppable(
                old(self).inner.counts().mode,
            ) && !old(self).inner.waiting),
            final(self).inner == (DarcInner {
                local_cnt: (old(self).inner.local_cnt - 1) as usize,
                ref_cnts: final(self).inner.ref_cnts,
                modes: final(self).inner.modes,
                waiting: final(self).inner.waiting,
                parent: final(self).inner.parent,
                ..old(self).inner
            }),
            old(self).inner.local_cnt == 1 && old(self).inner.modes@[old(self).inner.my_pe as int]
                == DarcMode::Darc ==> {
                &&& final(self).inner.modes@ == old(self).inner.modes@.update(
                    old(self).inner.my_pe as int,
                    DarcMode::Dropped,
                )
                &&& final(self).inner.waiting
                &&& r.launch == !old(self).inner.waiting
            },
            old(self).inner.local_cnt == 1 && old(self).inner.modes@[old(self).inner.my_pe as int]
                == DarcMode::LocalRw ==> {
                &&& final(self).inner.modes@ == old(self).inner.modes@.update(
                    old(self).inner.my_pe as int,
                    DarcMode::Dropped,
                )
                &&& final(self).inner.waiting
                &&& r.launch == !old(self).inner.waiting
            },
            old(self).inner.local_cnt == 1 && old(self).inner.modes@[old(self).inner.my_pe as int]
                == DarcMode::GlobalRw ==> {
                &&& final(self).inner.modes@ == old(self).inner.modes@.update(
                    old(self).inner.my_pe as int,
                    DarcMode::Dropped,
                )
                &&& final(self).inner.waiting
                &&& r.launch == !old(self).inner.waiting
            },
            // Another reference is left, or the object is of a kind that its last
            // reference does not end.
            old(self).inner.local_cnt > 1 || (match old(self).inner.modes@[old(
                self,
            ).inner.my_pe as int] {
                DarcMode::Darc | DarcMode::LocalRw | DarcMode::GlobalRw => false,
                _ => true,
            }) ==> {
                &&& !r.launch
                &&& final(self).inner.modes@ == old(self).inner.modes@
                &&& final(self).inner.waiting == old(self).inner.waiting
            },
            forall|q: int|
                0 <= q < old(self).inner.num_pes ==> steps::reported(r.finished@, q) + (
                #[trigger] final(self).inner.ref_cnts@[q]) == old(self).inner.ref_cnts@[q],
            // A PE that has sent nothing that is left keeps nothing back.
            old(self).inner.local_cnt == 1 && old(self).inner.dist_cnt == 0 ==> (forall|q: int|
                0 <= q < old(self).inner.num_pes ==> #[trigger] final(self).inner.ref_cnts@[q]
                    == 0),
            old(self).inner.local_cnt > 1 ==> final(self).inner.ref_cnts@ == old(
                self,
            ).inner.ref_cnts@,
    {
        self.inner.local_cnt = self.inner.local_cnt - 1;
        assert(self.inner.counts() =~= without_one(old(self).inner.counts()));
        let mut finished: Vec<Finished> = Vec::new();
        let mut launch = false;
        if self.inner.local_cnt == 0 {
            finished = self.inner.send_finished();
            let mode: DarcMode = self.inner.modes[self.inner.my_pe];
            if mode == DarcMode::Darc || mode == DarcMode::LocalRw || mode == DarcMode::GlobalRw {
                self.inner.set_mode(DarcMode::Dropped);
                launch = !self.inner.waiting;
                self.inner.waiting = true;
            }
        }
        assert(self.inner.counts() =~= dropped_ref(old(self).inner.counts()));
        DropOutcome { finished, launch }
    }
}

/// A reference whose object each PE reads and writes under a lock of its own.
pub struct LocalRwDarc<T> {
    pub darc: Darc<T>,
}

/// A reference whose object all PEs read and write under one lock.
pub struct GlobalRwDarc<T> {
    pub darc: Darc<T>,
}

impl<T> Darc<T> {
    /// Hands the reference over to a new one, after a wait for the change of
    /// kind: the new one is counted before this one is gone.
    fn hand_over(self) -> (r: Darc<T>)
        requires
            self.wf(),
            0 < self.inner.local_cnt < usize::MAX,
        ensures
            r.wf(),
            r.src_pe == self.src_pe,
            r.inner.same_object(self.inner),
            r.inner.counts() == self.inner.counts(),
    {
        let mut d = self;
        d.clone_ref();
        d.drop_ref();
        assert(d.inner.counts() =~= self.inner.counts());
        d
    }

    /// Turns the reference into one whose object each PE locks for itself. The
    /// wait for that change has to be over.
    pub fn into_localrw(self) -> (r: LocalRwDarc<T>)
        requires
            self.wf(),
            0 < self.inner.local_cnt < usize::MAX,
            self.inner.counts().mode == DarcMode::LocalRw,
        ensures
            r.darc.wf(),
            r.darc.src_pe == self.src_pe,
            r.darc.inner.same_object(self.inner),
            r.darc.inner.counts() == self.inner.counts(),
            r.darc.inner.modes@[self.inner.my_pe as int] == DarcMode::LocalRw,
    {
        LocalRwDarc { darc: self.hand_over() }
    }

    /// Turns the reference into one whose object all PEs lock together. The
    /// wait for that change has to be over.
    pub fn into_globalrw(self) -> (r: GlobalRwDarc<T>)
        requires
            self.wf(),
            0 < self.inner.local_cnt < usize::MAX,
            self.inner.counts().mode == DarcMode::GlobalRw,
        ensures
            r.darc.wf(),
            r.darc.src_pe == self.src_pe,
            r.darc.inner.same_object(self.inner),
            r.darc.inner.counts() == self.inner.counts(),
            r.darc.inner.modes@[self.inner.my_pe as int] == DarcMode::GlobalRw,
    {
        GlobalRwDarc { darc: self.hand_over() }
    }

    /// What is sent of a reference: where the object lies on this PE, and which
    /// PE this is. Only a member of the team can send one.
    pub fn to_network(
        &self,
        team: &LamellarTeamRT,
        inner_addr: usize,
        backend: Backend,
    ) -> (r: Result<__NetworkDarc, IdError>)
        requires
            team.wf(),
        ensures
            match r {
                Ok(n) => team.has_member(team.world_pe) && n == (__NetworkDarc {
                    inner_addr,
                    backend,
                    orig_world_pe: team.world_pe,
                    orig_team_pe: team.place_of(team.world_pe) as usize,
                }),
                Err(e) => !team.has_member(team.world_pe) && e == (IdError {
                    parent_pe: team.world_pe,
                }),
            },
            r matches Ok(n) ==> n.inner_addr == inner_addr && n.backend == backend
                && n.orig_world_pe == team.world_pe && n.orig_team_pe < team.pes@.len()
                && team.pes@[n.orig_team_pe as int] == team.world_pe,
    {
        match team.team_pe_id() {
            Ok(pe) => Ok(
                __NetworkDarc {
                    inner_addr,
                    backend,
                    orig_world_pe: team.world_pe,
                    orig_team_pe: pe,
                },
            ),
            Err(e) => Err(e),
        }
    }

    /// The reference that was sent, on the PE that it came to, where the object
    /// is `inner`. It counts as coming from the PE that sent it.
    pub fn from_network(inner: DarcInner<T>, net: &__NetworkDarc) -> (r: Darc<T>)
        requires
            inner.wf(),
            net.orig_team_pe < inner.num_pes,
        ensures
            r.wf(),
            r.inner == inner,
            r.src_pe == net.orig_team_pe,
    {
        Darc { inner, src_pe: net.orig_team_pe }
    }
}

/// What is sent of a reference.
#[derive(Clone, Copy, Debug, PartialEq, Eq, Structural)]
pub struct __NetworkDarc {
    pub inner_addr: usize,
    pub backend: Backend,
    pub orig_world_pe: usize,
    pub orig_team_pe: usize,
}

/// A reference that a member of a team sends counts, on the PE that it comes to, as
/// coming from that member.
pub proof fn sent_reference_names_its_sender<T>(
    team: LamellarTeamRT,
    sent: __NetworkDarc,
    came: Darc<T>,
)
    requires
        team.wf(),
        team.has_member(team.world_pe),
        sent.orig_team_pe == team.place_of(team.world_pe),
        came.src_pe == sent.orig_team_pe,
    ensures
        team.pes@[came.src_pe as int] == team.world_pe,
{
}

} // verus!
