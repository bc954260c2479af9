//! Batches that were sent and whose requests have not all been answered.

use std::collections::HashMap;

use vstd::prelude::*;

verus! {

broadcast use vstd::std_specs::hash::group_hash_axioms;

/// For each batch that was sent: its open requests, each with its number in
/// the batch and its own id.
pub struct TxedAms {
    pub batches: HashMap<usize, Vec<(usize, usize)>>,
}

/// Whether a batch still has an open request with this number.
pub open spec fn is_open(reqs: Seq<(usize, usize)>, number: usize) -> bool {
    exists|i: int| 0 <= i < reqs.len() && (#[trigger] reqs[i]).0 == number
}

/// Where the first open request with this number stands.
pub open spec fn place_of(reqs: Seq<(usize, usize)>, number: usize) -> int {
    choose|i: int|
        0 <= i < reqs.len() && (#[trigger] reqs[i]).0 == number && forall|j: int|
            0 <= j < i ==> (#[trigger] reqs[j]).0 != number
}

/// The ids of the requests that are answered when answers with these numbers
/// come in, in order, and the requests that are still open then. There is none
/// if some number belongs to no open request.
pub open spec fn answered(reqs: Seq<(usize, usize)>, numbers: Seq<usize>) -> Option<
    (Seq<usize>, Seq<(usize, usize)>),
>
    decreases numbers.len(),
{
    if numbers.len() == 0 {
        Some((Seq::empty(), reqs))
    } else {
        match answered(reqs, numbers.drop_last()) {
            Some((ids, rest)) => if is_open(rest, numbers.last()) {
                let at = place_of(rest, numbers.last());
                Some((ids.push(rest[at].1), rest.remove(at)))
            } else {
                None
            },
            None => None,
        }
    }
}

/// The ids of open requests.
pub open spec fn ids_of(reqs: Seq<(usize, usize)>) -> Seq<usize> {
    Seq::new(reqs.len(), |i: int| reqs[i].1)
}

proof fn place_is_least(reqs: Seq<(usize, usize)>, number: usize, at: int)
    requires
        0 <= at < reqs.len(),
        reqs[at].0 == number,
        forall|j: int| 0 <= j < at ==> (#[trigger] reqs[j]).0 != number,
    ensures
        is_open(reqs, number),
        place_of(reqs, number) == at,
{
    let p = place_of(reqs, number);
    assert(0 <= p < reqs.len() && reqs[p].0 == number && forall|j: int|
        0 <= j < p ==> (#[trigger] reqs[j]).0 != number);
    assert(!(at < p)) by {
        if at < p {
            assert(reqs[at].0 != number);
        }
    }
}

pub(crate) proof fn place_exists(reqs: Seq<(usize, usize)>, number: usize)
    requires
        is_open(reqs, number),
    ensures
        0 <= place_of(reqs, number) < reqs.len(),
        reqs[place_of(reqs, number)].0 == number,
    decreases reqs.len(),
{
    let k = choose|i: int| 0 <= i < reqs.len() && (#[trigger] reqs[i]).0 == number;
    least_place(reqs, number, k);
}

proof fn least_place(reqs: Seq<(usize, usize)>, number: usize, k: int) -> (at: int)
    requires
        0 <= k < reqs.len(),
        reqs[k].0 == number,
    ensures
        0 <= at < reqs.len(),
        reqs[at].0 == number,
        forall|j: int| 0 <= j < at ==> (#[trigger] reqs[j]).0 != number,
        place_of(reqs, number) == at,
    decreases k,
{
    if exists|j: int| 0 <= j < k && (#[trigger] reqs[j]).0 == number {
        let j = choose|j: int| 0 <= j < k && (#[trigger] reqs[j]).0 == number;
        least_place(reqs, number, j)
    } else {
        place_is_least(reqs, number, k);
        k
    }
}

/// No request is lost and none is answered twice: the answered and the open
/// requests together are the requests that were open before.
pub proof fn answers_conserve_requests(reqs: Seq<(usize, usize)>, numbers: Seq<usize>)
    requires
        answered(reqs, numbers) is Some,
    ensures
        (answered(reqs, numbers)->0).0.len() == numbers.len(),
        (answered(reqs, numbers)->0).0.to_multiset().add(
            ids_of((answered(reqs, numbers)->0).1).to_multiset(),
        ) == ids_of(reqs).to_multiset(),
    decreases numbers.len(),
{
    broadcast use vstd::seq_lib::group_to_multiset_ensures;

    if numbers.len() > 0 {
        answers_conserve_requests(reqs, numbers.drop_last());
        let (ids, rest) = answered(reqs, numbers.drop_last())->0;
        place_exists(rest, numbers.last());
        let at = place_of(rest, numbers.last());
        assert(ids_of(rest.remove(at)) == ids_of(rest).remove(at));
        assert(ids_of(rest)[at] == rest[at].1);
        let m = ids.to_multiset().add(ids_of(rest).to_multiset());
        assert(ids.push(rest[at].1).to_multiset() == ids.to_multiset().insert(rest[at].1));
        assert(ids_of(rest).remove(at).to_multiset() == ids_of(rest).to_multiset().remove(
            rest[at].1,
        ));
        assert(ids_of(rest).to_multiset().count(rest[at].1) > 0);
        assert(ids.push(rest[at].1).to_multiset().add(ids_of(rest.remove(at)).to_multiset()) == m);
    } else {
        assert(Seq::<usize>::empty().to_multiset().add(ids_of(reqs).to_multiset()) == ids_of(
            reqs,
        ).to_multiset());
    }
}

/// Every answer is for a request that was open under its number: the requests
/// that are answered, each with its answer's number, and those still open are
/// the requests that were open before.
pub proof fn answers_take_their_requests(reqs: Seq<(usize, usize)>, numbers: Seq<usize>)
    requires
        answered(reqs, numbers) is Some,
    ensures
        (answered(reqs, numbers)->0).0.len() == numbers.len(),
        Seq::new(
            numbers.len(),
            |i: int| (numbers[i], (answered(reqs, numbers)->0).0[i]),
        ).to_multiset().add((answered(reqs, numbers)->0).1.to_multiset()) == reqs.to_multiset(),
        forall|i: int|
            0 <= i < numbers.len() ==> reqs.contains(
                (#[trigger] numbers[i], (answered(reqs, numbers)->0).0[i]),
            ),
        forall|i: int|
            0 <= i < (answered(reqs, numbers)->0).1.len() ==> reqs.contains(
                #[trigger] (answered(reqs, numbers)->0).1[i],
            ),
    decreases numbers.len(),
{
    broadcast use vstd::seq_lib::group_to_multiset_ensures;

    let (ids, rest) = answered(reqs, numbers)->0;
    let pairs = Seq::new(numbers.len(), |i: int| (numbers[i], ids[i]));
    if numbers.len() > 0 {
        let front = numbers.drop_last();
        answers_take_their_requests(reqs, front);
        let (ids0, rest0) = answered(reqs, front)->0;
        let pairs0 = Seq::new(front.len(), |i: int| (front[i], ids0[i]));
        place_exists(rest0, numbers.last());
        let at = place_of(rest0, numbers.last());
        assert(pairs =~= pairs0.push(rest0[at]));
        assert(rest == rest0.remove(at));
        assert(rest0.to_multiset().count(rest0[at]) > 0);
        assert(rest.to_multiset() == rest0.to_multiset().remove(rest0[at]));
        assert(pairs.to_multiset().add(rest.to_multiset()) =~= pairs0.to_multiset().add(
            rest0.to_multiset(),
        ));
    } else {
        assert(pairs =~= Seq::<(usize, usize)>::empty());
        assert(pairs.to_multiset().add(reqs.to_multiset()) =~= reqs.to_multiset());
    }
    assert forall|i: int| 0 <= i < numbers.len() implies reqs.contains(
        (#[trigger] numbers[i], ids[i]),
    ) by {
        assert(pairs.contains(pairs[i]));
        assert(pairs.to_multiset().count(pairs[i]) > 0);
        assert(reqs.to_multiset().count(pairs[i]) > 0);
    }
    assert forall|i: int| 0 <= i < rest.len() implies reqs.contains(#[trigger] rest[i]) by {
        assert(rest.contains(rest[i]));
        assert(rest.to_multiset().count(rest[i]) > 0);
        assert(reqs.to_multiset().count(rest[i]) > 0);
    }
}

/// Numbers that occur once each and belong to open requests answer exactly
/// those requests and leave the others open.
pub proof fn distinct_answers_answer(reqs: Seq<(usize, usize)>, numbers: Seq<usize>)
    requires
        forall|i: int, j: int|
            0 <= i < j < reqs.len() ==> (#[trigger] reqs[i]).0 != (#[trigger] reqs[j]).0,
        numbers.no_duplicates(),
        forall|i: int| 0 <= i < numbers.len() ==> is_open(reqs, #[trigger] numbers[i]),
    ensures
        answered(reqs, numbers) is Some,
        (answered(reqs, numbers)->0).1.len() == reqs.len() - numbers.len(),
        forall|number: usize|
            is_open((answered(reqs, numbers)->0).1, number) <==> #[trigger] is_open(reqs, number)
                && !numbers.contains(number),
        forall|i: int, j: int|
            0 <= i < j < (answered(reqs, numbers)->0).1.len() ==> (#[trigger] (answered(
                reqs,
                numbers,
            )->0).1[i]).0 != (#[trigger] (answered(reqs, numbers)->0).1[j]).0,
    decreases numbers.len(),
{
    if numbers.len() > 0 {
        let front = numbers.drop_last();
        let last = numbers.last();
        assert forall|i: int| 0 <= i < front.len() implies is_open(reqs, #[trigger] front[i]) by {
            assert(front[i] == numbers[i]);
        }
        distinct_answers_answer(reqs, front);
        let rest = (answered(reqs, front)->0).1;
        assert(!front.contains(last));
        assert(numbers[numbers.len() - 1] == last);
        assert(is_open(reqs, last));
        assert(is_open(rest, last));
        place_exists(rest, last);
        let at = place_of(rest, last);
        let left = rest.remove(at);
        assert forall|i: int| 0 <= i < left.len() implies #[trigger] left[i] == rest[if i < at {
            i
        } else {
            i + 1
        }] by {}
        assert forall|number: usize| is_open(left, number) <==> #[trigger] is_open(reqs, number)
            && !numbers.contains(number) by {
            assert(numbers.contains(number) <==> front.contains(number) || number == last) by {
                if numbers.contains(number) {
                    let k = numbers.index_of(number);
                    assert(numbers[k] == number);
                    if k < numbers.len() - 1 {
                        assert(front[k] == number);
                    }
                }
                if front.contains(number) {
                    let k = front.index_of(number);
                    assert(numbers[k] == number);
                }
            }
            if is_open(left, number) {
                let k = choose|i: int| 0 <= i < left.len() && (#[trigger] left[i]).0 == number;
                let p = if k < at {
                    k
                } else {
                    k + 1
                };
                assert(rest[p].0 == number);
                assert(number != last) by {
                    assert(rest[at].0 == last);
                }
                assert(is_open(rest, number));
            }
            if is_open(rest, number) && number != last {
                let k = choose|i: int| 0 <= i < rest.len() && (#[trigger] rest[i]).0 == number;
                let p = if k < at {
                    k
                } else {
                    k - 1
                };
                assert(left[p].0 == number);
            }
        }
    }
}

/// Answers that come in two portions answer the same requests as all at once.
pub proof fn answers_in_portions(
    reqs: Seq<(usize, usize)>,
    first: Seq<usize>,
    second: Seq<usize>,
)
    ensures
        answered(reqs, first + second) == (match answered(reqs, first) {
            Some((ids, rest)) => match answered(rest, second) {
                Some((ids2, rest2)) => Some((ids + ids2, rest2)),
                None => None,
            },
            None => None,
        }),
    decreases second.len(),
{
    if second.len() == 0 {
        assert(first + second == first);
        if answered(reqs, first) is Some {
            let ids = (answered(reqs, first)->0).0;
            assert(ids + Seq::<usize>::empty() == ids);
        }
    } else {
        answers_in_portions(reqs, first, second.drop_last());
        assert((first + second).drop_last() == first + second.drop_last());
        assert((first + second).last() == second.last());
        if answered(reqs, first) is Some {
            let (ids, rest) = answered(reqs, first)->0;
            if answered(rest, second.drop_last()) is Some {
                let (ids2, rest2) = answered(rest, second.drop_last())->0;
                if is_open(rest2, second.last()) {
                    let id = rest2[place_of(rest2, second.last())].1;
                    assert((ids + ids2).push(id) == ids + ids2.push(id));
                }
            }
        }
    }
}

/// Looks up the requests that are answered by these numbers.
pub fn answer(reqs: &Vec<(usize, usize)>, numbers: &Vec<usize>) -> (r: Option<
    (Vec<usize>, Vec<(usize, usize)>),
>)
    ensures
        match r {
            Some((ids, rest)) => answered(reqs@, numbers@) == Some((ids@, rest@)),
            None => answered(reqs@, numbers@) is None,
        },
        r matches Some((ids, rest)) ==> ids@.len() == numbers@.len() && forall|i: int|
            0 <= i < numbers@.len() ==> reqs@.contains((#[trigger] numbers@[i], ids@[i])),
{
    let mut ids: Vec<usize> = Vec::new();
    let mut rest: Vec<(usize, usize)> = Vec::new();
    let mut i: usize = 0;
    while i < reqs.len()
        invariant
            i <= reqs@.len(),
            rest@ == reqs@.take(i as int),
        decreases reqs@.len() - i,
    {
        rest.push(reqs[i]);
        proof {
            assert(reqs@.take(i as int + 1) == reqs@.take(i as int).push(reqs@[i as int]));
        }
        i = i + 1;
    }
    assert(reqs@.take(i as int) == reqs@);
    assert(numbers@.take(0) == Seq::<usize>::empty());
    let mut k: usize = 0;
    while k < numbers.len()
        invariant
            k <= numbers@.len(),
            answered(reqs@, numbers@.take(k as int)) == Some((ids@, rest@)),
        decreases numbers@.len() - k,
    {
        let number = numbers[k];
        proof {
            assert(numbers@.take(k as int + 1).drop_last() == numbers@.take(k as int));
            assert(numbers@.take(k as int + 1).last() == number);
        }
        let mut at: usize = 0;
        while at < rest.len() && rest[at].0 != number
            invariant
                at <= rest@.len(),
                forall|j: int| 0 <= j < at ==> (#[trigger] rest@[j]).0 != number,
            decreases rest@.len() - at,
        {
            at = at + 1;
        }
        if at == rest.len() {
            proof {
                assert(!is_open(rest@, number));
                answered_none_stays(reqs@, numbers@, k as int + 1);
            }
            return None;
        }
        proof {
            place_is_least(rest@, number, at as int);
        }
        let found = rest.remove(at);
        ids.push(found.1);
        k = k + 1;
    }
    assert(numbers@.take(k as int) == numbers@);
    proof {
        answers_take_their_requests(reqs@, numbers@);
    }
    Some((ids, rest))
}

proof fn answered_none_stays(reqs: Seq<(usize, usize)>, numbers: Seq<usize>, k: int)
    requires
        0 <= k <= numbers.len(),
        answered(reqs, numbers.take(k)) is None,
    ensures
        answered(reqs, numbers) is None,
    decreases numbers.len(),
{
    if k == numbers.len() {
        assert(numbers.take(k) == numbers);
    } else {
        assert(numbers.drop_last().take(k) == numbers.take(k));
        answered_none_stays(reqs, numbers.drop_last(), k);
    }
}

impl View for TxedAms {
    type V = Map<usize, Seq<(usize, usize)>>;

    open spec fn view(&self) -> Self::V {
        self.batches@.map_values(|reqs: Vec<(usize, usize)>| reqs@)
    }
}

impl TxedAms {
    /// Nothing was sent.
    pub fn new() -> (s: Self)
        ensures
            s@ == Map::<usize, Seq<(usize, usize)>>::empty(),
    {
        let s = TxedAms { batches: HashMap::new() };
        assert(s@ =~= Map::<usize, Seq<(usize, usize)>>::empty());
        s
    }

    /// Whether a batch is known.
    pub fn contains(&self, batch_id: usize) -> (r: bool)
        ensures
            r == self@.contains_key(batch_id),
    {
        self.batches.contains_key(&batch_id)
    }

    /// Notes a batch that is sent.
    pub fn insert(&mut self, batch_id: usize, reqs: Vec<(usize, usize)>)
        ensures
            final(self)@ == old(self)@.insert(batch_id, reqs@),
    {
        self.batches.insert(batch_id, reqs);
        assert(self@ =~= old(self)@.insert(batch_id, reqs@));
    }

    /// Takes a batch out: all of its open requests are answered at once.
    pub fn remove(&mut self, batch_id: usize) -> (r: Option<Vec<(usize, usize)>>)
        ensures
            final(self)@ == old(self)@.remove(batch_id),
            match r {
                Some(reqs) => old(self)@.contains_key(batch_id) && reqs@ == old(self)@[batch_id],
                None => !old(self)@.contains_key(batch_id),
            },
    {
        let r = self.batches.remove(&batch_id);
        assert(self@ =~= old(self)@.remove(batch_id));
        r
    }
}

} // verus!
