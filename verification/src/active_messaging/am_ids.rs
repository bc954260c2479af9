//! How registered active messages get their ids.
//!
//! Ids are given in the order of the names, so every PE that registers the
//! same active messages gives them the same ids, in whatever order they are
//! registered.

use vstd::prelude::*;

use crate::active_messaging::{AmId, AM_ID_START};

verus! {

/// Names are ordered byte by byte; a name comes after its own beginning.
pub open spec fn not_after(a: Seq<u8>, b: Seq<u8>) -> bool
    decreases a.len(),
{
    if a.len() == 0 {
        true
    } else if b.len() == 0 {
        false
    } else if a[0] != b[0] {
        a[0] < b[0]
    } else {
        not_after(a.drop_first(), b.drop_first())
    }
}

/// How many of the names are not after `name`.
pub open spec fn rank(names: Seq<Seq<u8>>, name: Seq<u8>) -> nat
    decreases names.len(),
{
    if names.len() == 0 {
        0
    } else {
        rank(names.drop_last(), name) + if not_after(names.last(), name) {
            1nat
        } else {
            0
        }
    }
}

/// The id of a registered name.
pub open spec fn id_of(names: Seq<Seq<u8>>, name: Seq<u8>) -> int {
    AM_ID_START + rank(names, name) - 1
}

/// The registered active messages, by name.
pub struct AmIds {
    pub names: Vec<Vec<u8>>,
}

impl View for AmIds {
    type V = Seq<Seq<u8>>;

    open spec fn view(&self) -> Seq<Seq<u8>> {
        Seq::new(self.names@.len(), |i: int| self.names@[i]@)
    }
}

fn name_not_after(a: &Vec<u8>, b: &Vec<u8>) -> (r: bool)
    ensures
        r == not_after(a@, b@),
{
    let mut i: usize = 0;
    assert(a@.skip(0) == a@);
    assert(b@.skip(0) == b@);
    while i < a.len()
        invariant
            i <= a@.len(),
            i <= b@.len(),
            not_after(a@, b@) == not_after(a@.skip(i as int), b@.skip(i as int)),
        decreases a@.len() - i,
    {
        if i == b.len() {
            return false;
        }
        if a[i] != b[i] {
            return a[i] < b[i];
        }
        proof {
            assert(a@.skip(i as int).drop_first() == a@.skip(i as int + 1));
            assert(b@.skip(i as int).drop_first() == b@.skip(i as int + 1));
        }
        i = i + 1;
    }
    true
}

fn same_name(a: &Vec<u8>, b: &Vec<u8>) -> (r: bool)
    ensures
        r == (a@ == b@),
{
    if a.len() != b.len() {
        return false;
    }
    let mut i: usize = 0;
    while i < a.len()
        invariant
            i <= a@.len(),
            a@.len() == b@.len(),
            forall|j: int| 0 <= j < i ==> a@[j] == b@[j],
        decreases a@.len() - i,
    {
        if a[i] != b[i] {
            return false;
        }
        i = i + 1;
    }
    assert(a@ == b@);
    true
}

impl AmIds {
    /// Ids are at most the largest `i32`.
    pub open spec fn wf(self) -> bool {
        self.names@.len() + AM_ID_START <= i32::MAX
    }

    /// Takes the names of all registered active messages. There is no result if
    /// there are more than ids.
    pub fn new(names: Vec<Vec<u8>>) -> (r: Option<AmIds>)
        ensures
            r is Some <==> names@.len() + AM_ID_START <= i32::MAX,
            r matches Some(ids) ==> ids.wf() && ids@ == Seq::new(
                names@.len(),
                |i: int| names@[i]@,
            ),
    {
        if names.len() > (i32::MAX - AM_ID_START) as usize {
            None
        } else {
            Some(AmIds { names })
        }
    }

    /// The id of an active message. There is none if its name is not
    /// registered.
    pub fn get(&self, name: &Vec<u8>) -> (r: Option<AmId>)
        requires
            self.wf(),
        ensures
            r == (if self@.contains(name@) {
                Some(id_of(self@, name@) as i32)
            } else {
                None::<AmId>
            }),
            r is Some <==> exists|i: int|
                0 <= i < self.names@.len() && (#[trigger] self.names@[i])@ == name@,
            r matches Some(id) ==> id == id_of(self@, name@) && AM_ID_START <= id < AM_ID_START
                + self@.len(),
            r matches Some(id) ==> 5 <= id < 5 + self@.len(),
    {
        proof {
            if self@.contains(name@) {
                let k = self@.index_of(name@);
                assert(self@[k] == name@ && self.names@[k]@ == name@);
            }
            assert forall|i: int| 0 <= i < self.names@.len() && (
            #[trigger] self.names@[i])@ == name@ implies self@.contains(name@) by {
                assert(self@[i] == name@);
            }
        }
        let mut found = false;
        let mut count: i32 = 0;
        let mut i: usize = 0;
        assert(self@.take(0) == Seq::<Seq<u8>>::empty());
        while i < self.names.len()
            invariant
                i <= self.names@.len(),
                self.wf(),
                self@.len() == self.names@.len(),
                count == rank(self@.take(i as int), name@),
                count <= i,
                found ==> self@.contains(name@),
                !found ==> forall|j: int| 0 <= j < i ==> #[trigger] self@[j] != name@,
            decreases self.names@.len() - i,
        {
            let other = &self.names[i];
            proof {
                assert(self@.take(i as int + 1).drop_last() == self@.take(i as int));
                assert(self@[i as int] == other@);
            }
            if name_not_after(other, name) {
                count = count + 1;
            }
            if same_name(other, name) {
                found = true;
            }
            i = i + 1;
        }
        assert(self@.take(i as int) == self@);
        if found {
            proof {
                let k = self@.index_of(name@);
                assert(self@[k] == name@);
                rank_positive(self@, name@, k);
            }
            Some(AM_ID_START - 1 + count)
        } else {
            None
        }
    }
}

proof fn not_after_itself(a: Seq<u8>)
    ensures
        not_after(a, a),
    decreases a.len(),
{
    if a.len() > 0 {
        not_after_itself(a.drop_first());
    }
}

proof fn rank_positive(names: Seq<Seq<u8>>, name: Seq<u8>, k: int)
    requires
        0 <= k < names.len(),
        names[k] == name,
    ensures
        rank(names, name) >= 1,
    decreases names.len(),
{
    not_after_itself(name);
    if k < names.len() - 1 {
        rank_positive(names.drop_last(), name, k);
    }
}

proof fn not_after_both_ways(a: Seq<u8>, b: Seq<u8>)
    requires
        not_after(a, b),
        not_after(b, a),
    ensures
        a == b,
    decreases a.len(),
{
    if a.len() > 0 && b.len() > 0 {
        not_after_both_ways(a.drop_first(), b.drop_first());
        assert(a == seq![a[0]] + a.drop_first());
        assert(b == seq![b[0]] + b.drop_first());
    } else {
        assert(a == b);
    }
}

proof fn not_after_one_way(a: Seq<u8>, b: Seq<u8>)
    ensures
        not_after(a, b) || not_after(b, a),
    decreases a.len(),
{
    if a.len() > 0 && b.len() > 0 {
        not_after_one_way(a.drop_first(), b.drop_first());
    }
}

proof fn not_after_chain(a: Seq<u8>, b: Seq<u8>, c: Seq<u8>)
    requires
        not_after(a, b),
        not_after(b, c),
    ensures
        not_after(a, c),
    decreases a.len(),
{
    if a.len() > 0 && b.len() > 0 && c.len() > 0 && a[0] == b[0] && b[0] == c[0] {
        not_after_chain(a.drop_first(), b.drop_first(), c.drop_first());
    }
}

proof fn rank_grows(names: Seq<Seq<u8>>, a: Seq<u8>, b: Seq<u8>, k: int)
    requires
        not_after(a, b),
        a != b,
        0 <= k < names.len(),
        names[k] == b,
    ensures
        rank(names, a) < rank(names, b),
    decreases names.len(),
{
    let last = names.last();
    if not_after(last, a) {
        not_after_chain(last, a, b);
    }
    if k == names.len() - 1 {
        rank_keeps_order(names.drop_last(), a, b);
        not_after_itself(b);
        if not_after(b, a) {
            not_after_both_ways(a, b);
        }
    } else {
        rank_grows(names.drop_last(), a, b, k);
    }
}

proof fn rank_keeps_order(names: Seq<Seq<u8>>, a: Seq<u8>, b: Seq<u8>)
    requires
        not_after(a, b),
    ensures
        rank(names, a) <= rank(names, b),
    decreases names.len(),
{
    if names.len() > 0 {
        rank_keeps_order(names.drop_last(), a, b);
        if not_after(names.last(), a) {
            not_after_chain(names.last(), a, b);
        }
    }
}

/// Different active messages have different ids.
pub proof fn ids_are_distinct(names: Seq<Seq<u8>>, a: Seq<u8>, b: Seq<u8>)
    requires
        names.contains(a),
        names.contains(b),
        a != b,
    ensures
        id_of(names, a) != id_of(names, b),
{
    not_after_one_way(a, b);
    let i = names.index_of(a);
    let j = names.index_of(b);
    assert(names[i] == a && names[j] == b);
    if not_after(a, b) {
        rank_grows(names, a, b, j);
    } else {
        rank_grows(names, b, a, i);
    }
}

proof fn rank_without(names: Seq<Seq<u8>>, name: Seq<u8>, k: int)
    requires
        0 <= k < names.len(),
    ensures
        rank(names, name) == rank(names.remove(k), name) + if not_after(names[k], name) {
            1int
        } else {
            0
        },
    decreases names.len(),
{
    if k == names.len() - 1 {
        assert(names.remove(k) == names.drop_last());
    } else {
        rank_without(names.drop_last(), name, k);
        assert(names.remove(k).drop_last() == names.drop_last().remove(k));
        assert(names.remove(k).last() == names.last());
    }
}

/// The order in which active messages are registered does not matter for
/// their ids: all PEs agree on them.
pub proof fn ids_ignore_registration_order(
    names: Seq<Seq<u8>>,
    other: Seq<Seq<u8>>,
    name: Seq<u8>,
)
    requires
        names.to_multiset() == other.to_multiset(),
    ensures
        id_of(names, name) == id_of(other, name),
    decreases names.len(),
{
    broadcast use vstd::seq_lib::group_to_multiset_ensures;

    assert(names.to_multiset().len() == names.len());
    assert(other.to_multiset().len() == other.len());
    if names.len() > 0 {
        let last = names.last();
        assert(names.contains(last)) by {
            assert(names[names.len() - 1] == last);
        }
        assert(other.to_multiset().count(last) > 0);
        assert(other.contains(last));
        let k = other.index_of(last);
        assert(other[k] == last);
        rank_without(other, name, k);
        assert(names.drop_last() == names.remove(names.len() - 1));
        assert(names.drop_last().to_multiset() == other.remove(k).to_multiset());
        ids_ignore_registration_order(names.drop_last(), other.remove(k), name);
    }
}

/// The ids of registered active messages follow the order of their names: of two
/// names the one that has the smaller byte where they first differ, or that ends
/// first, has the smaller id.
pub proof fn ids_follow_names(names: Seq<Seq<u8>>, a: Seq<u8>, b: Seq<u8>, k: int)
    requires
        names.contains(a),
        names.contains(b),
        0 <= k <= a.len(),
        k < b.len(),
        a.take(k) == b.take(k),
        k == a.len() || a[k] < b[k],
    ensures
        id_of(names, a) < id_of(names, b),
{
    ordered_at(a, b, k);
    assert(a != b);
    let j = names.index_of(b);
    assert(names[j] == b);
    rank_grows(names, a, b, j);
}

proof fn ordered_at(a: Seq<u8>, b: Seq<u8>, k: int)
    requires
        0 <= k <= a.len(),
        k < b.len(),
        a.take(k) == b.take(k),
        k == a.len() || a[k] < b[k],
    ensures
        not_after(a, b),
    decreases k,
{
    if k > 0 {
        assert(a[0] == a.take(k)[0]);
        assert(b[0] == b.take(k)[0]);
        assert(a.drop_first().take(k - 1) =~= a.take(k).drop_first());
        assert(b.drop_first().take(k - 1) =~= b.take(k).drop_first());
        ordered_at(a.drop_first(), b.drop_first(), k - 1);
    }
}

/// The ids of registered active messages run from the first one on.
pub proof fn registered_has_id(names: Seq<Seq<u8>>, name: Seq<u8>)
    requires
        names.contains(name),
    ensures
        AM_ID_START <= id_of(names, name) < AM_ID_START + names.len(),
{
    let k = names.index_of(name);
    assert(names[k] == name);
    rank_positive(names, name, k);
    rank_bounded(names, name);
}

proof fn rank_bounded(names: Seq<Seq<u8>>, name: Seq<u8>)
    ensures
        rank(names, name) <= names.len(),
    decreases names.len(),
{
    if names.len() > 0 {
        rank_bounded(names.drop_last(), name);
    }
}

} // verus!
