//! Reading the answers to requests.

use vstd::prelude::*;
use vstd::slice::slice_subrange;

use crate::active_messaging::message;
use crate::active_messaging::submitted::RESULT_HEADER_LEN;
use crate::active_messaging::{
    AmId, LamellarFunc, BATCHED_REMOTE_DATA_ID, REMOTE_DATA_ID, UNIT_ID,
};
use crate::wire;
use crate::wire::{read_usize, WORD_LEN};

verus! {

/// A value that came back: the number of the request that it answers, and its
/// bytes.
pub struct Answer {
    pub id: usize,
    pub data: Vec<u8>,
}

impl View for Answer {
    type V = (usize, Seq<u8>);

    open spec fn view(&self) -> (usize, Seq<u8>) {
        (self.id, self.data@)
    }
}

/// The views of a list of answers.
pub open spec fn answer_views(answers: Seq<Answer>) -> Seq<(usize, Seq<u8>)> {
    Seq::new(answers.len(), |i: int| answers[i]@)
}

/// The numbers of the requests that a list of answers answers.
pub open spec fn answer_ids(answers: Seq<(usize, Seq<u8>)>) -> Seq<usize> {
    Seq::new(answers.len(), |i: int| answers[i].0)
}

/// The request ids that stand from position `at` on.
pub open spec fn ids_at(data: Seq<u8>, at: int) -> Option<Seq<usize>>
    decreases data.len() - at,
{
    if at >= data.len() {
        Some(Seq::empty())
    } else {
        match wire::usize_at(data, at) {
            Some(id) => match ids_at(data, at + WORD_LEN) {
                Some(more) => Some(seq![id] + more),
                None => None,
            },
            None => None,
        }
    }
}

/// The values that stand from position `at` on, each behind its request's id
/// and its size.
pub open spec fn results_at(data: Seq<u8>, at: int) -> Option<Seq<(usize, Seq<u8>)>>
    decreases data.len() - at,
{
    if at >= data.len() {
        Some(Seq::empty())
    } else {
        match (wire::usize_at(data, at), wire::usize_at(data, at + WORD_LEN)) {
            (Some(id), Some(size)) => {
                let start = at + RESULT_HEADER_LEN;
                if start + size <= data.len() {
                    match results_at(data, start + size) {
                        Some(more) => Some(seq![(id, data.subrange(start, start + size))] + more),
                        None => None,
                    }
                } else {
                    None
                }
            },
            _ => None,
        }
    }
}

/// The active messages that stand from position `at` on, each behind its
/// request's id. Only unpacking one tells how many bytes it takes: `sizes` are
/// those numbers, in order.
pub open spec fn ams_at(data: Seq<u8>, at: int, sizes: Seq<usize>) -> Option<
    Seq<(usize, Seq<u8>)>,
>
    decreases sizes.len(),
{
    if at >= data.len() {
        if sizes.len() == 0 {
            Some(Seq::empty())
        } else {
            None
        }
    } else if sizes.len() == 0 {
        None
    } else {
        let start = at + WORD_LEN;
        match wire::usize_at(data, at) {
            Some(id) => if start + sizes[0] <= data.len() {
                match ams_at(data, start + sizes[0], sizes.drop_first()) {
                    Some(more) => Some(seq![(id, data.subrange(start, start + sizes[0]))] + more),
                    None => None,
                }
            } else {
                None
            },
            None => None,
        }
    }
}

/// Reads the ids of requests that returned nothing. There is no result if the
/// data is malformed.
pub fn read_ids(data: &[u8]) -> (r: Option<Vec<usize>>)
    ensures
        match r {
            Some(ids) => ids_at(data@, 0) == Some(ids@),
            None => ids_at(data@, 0) is None,
        },
{
    let mut ids: Vec<usize> = Vec::new();
    let len: usize = data.len();
    let mut at: usize = 0;
    proof {
        if ids_at(data@, 0) is Some {
            assert(ids@ + ids_at(data@, 0)->0 == ids_at(data@, 0)->0);
        }
    }
    while at < len
        invariant
            at <= len,
            len == data@.len(),
            ids_at(data@, 0) == (match ids_at(data@, at as int) {
                Some(more) => Some(ids@ + more),
                None => None,
            }),
        decreases len - at,
    {
        match read_usize(data, at) {
            Some(id) => {
                proof {
                    let rest = ids_at(data@, at + WORD_LEN);
                    if rest is Some {
                        assert(ids@ + (seq![id] + rest->0) == ids@.push(id) + rest->0);
                    }
                }
                ids.push(id);
                at = at + WORD_LEN;
            },
            None => {
                return None;
            },
        }
    }
    assert(ids@ + Seq::<usize>::empty() == ids@);
    Some(ids)
}

/// Reads returned values. There is no result if the data is malformed.
pub fn read_results(data: &[u8]) -> (r: Option<Vec<Answer>>)
    ensures
        match r {
            Some(answers) => results_at(data@, 0) == Some(answer_views(answers@)),
            None => results_at(data@, 0) is None,
        },
        r matches Some(answers) ==> (results_at(data@, 0) matches Some(said) && said.len() == answers@.len()
            && forall|i: int|
            0 <= i < said.len() ==> (#[trigger] answers@[i]).id == said[i].0 && answers@[i].data@
                == said[i].1),
{
    let mut answers: Vec<Answer> = Vec::new();
    let len: usize = data.len();
    let mut at: usize = 0;
    proof {
        if results_at(data@, 0) is Some {
            assert(answer_views(answers@) + results_at(data@, 0)->0 == results_at(data@, 0)->0);
        }
    }
    while at < len
        invariant
            at <= len,
            len == data@.len(),
            results_at(data@, 0) == (match results_at(data@, at as int) {
                Some(more) => Some(answer_views(answers@) + more),
                None => None,
            }),
        decreases len - at,
    {
        let id: usize = match read_usize(data, at) {
            Some(x) => x,
            None => {
                return None;
            },
        };
        let size: usize = match read_usize(data, at + WORD_LEN) {
            Some(x) => x,
            None => {
                return None;
            },
        };
        let start: usize = at + RESULT_HEADER_LEN;
        if size > len - start {
            return None;
        }
        let answer = Answer { id, data: copy_range(data, start, start + size) };
        let ghost before = answers@;
        answers.push(answer);
        proof {
            assert(answer_views(answers@) == answer_views(before).push(answer@));
            let rest = results_at(data@, start + size);
            if rest is Some {
                assert(answer_views(before) + (seq![answer@] + rest->0) == answer_views(answers@)
                    + rest->0);
            }
        }
        at = start + size;
    }
    assert(answer_views(answers@) + Seq::<(usize, Seq<u8>)>::empty() == answer_views(answers@));
    Some(answers)
}

/// Copies a range of bytes.
pub fn copy_range(data: &[u8], start: usize, end: usize) -> (r: Vec<u8>)
    requires
        start <= end <= data@.len(),
    ensures
        r@ == data@.subrange(start as int, end as int),
{
    let mut bytes: Vec<u8> = Vec::new();
    bytes.extend_from_slice(slice_subrange(data, start, end));
    assert(bytes@ == data@.subrange(start as int, end as int));
    bytes
}

/// Where the active message stands whose request's id is at position `at`.
/// There is none if the data ends before.
pub fn payload_start(data: &[u8], at: usize) -> (r: Option<usize>)
    ensures
        r == (if at + WORD_LEN <= data@.len() {
            Some((at + WORD_LEN) as usize)
        } else {
            None::<usize>
        }),
{
    if data.len() >= WORD_LEN && at <= data.len() - WORD_LEN {
        Some(at + WORD_LEN)
    } else {
        None
    }
}

/// Reads returned active messages, whose sizes are given. There is no result
/// if the data is malformed or the sizes do not fit it.
pub fn read_ams(data: &[u8], sizes: &Vec<usize>) -> (r: Option<Vec<Answer>>)
    ensures
        match r {
            Some(answers) => ams_at(data@, 0, sizes@) == Some(answer_views(answers@)),
            None => ams_at(data@, 0, sizes@) is None,
        },
        r matches Some(answers) ==> (ams_at(data@, 0, sizes@) matches Some(said) && said.len() == answers@.len()
            && forall|i: int|
            0 <= i < said.len() ==> (#[trigger] answers@[i]).id == said[i].0 && answers@[i].data@
                == said[i].1),
{
    let mut answers: Vec<Answer> = Vec::new();
    let len: usize = data.len();
    let mut at: usize = 0;
    let mut k: usize = 0;
    proof {
        assert(sizes@.skip(0) == sizes@);
        if ams_at(data@, 0, sizes@) is Some {
            assert(answer_views(answers@) + ams_at(data@, 0, sizes@)->0 == ams_at(
                data@,
                0,
                sizes@,
            )->0);
        }
    }
    while at < len
        invariant
            at <= len,
            len == data@.len(),
            k <= sizes@.len(),
            ams_at(data@, 0, sizes@) == (match ams_at(data@, at as int, sizes@.skip(k as int)) {
                Some(more) => Some(answer_views(answers@) + more),
                None => None,
            }),
        decreases len - at,
    {
        if k == sizes.len() {
            return None;
        }
        let id: usize = match read_usize(data, at) {
            Some(x) => x,
            None => {
                return None;
            },
        };
        let start: usize = at + WORD_LEN;
        let size: usize = sizes[k];
        if size > len - start {
            return None;
        }
        let answer = Answer { id, data: copy_range(data, start, start + size) };
        let ghost before = answers@;
        answers.push(answer);
        proof {
            assert(answer_views(answers@) == answer_views(before).push(answer@));
            assert(sizes@.skip(k as int).drop_first() == sizes@.skip(k as int + 1));
            let rest = ams_at(data@, start + size, sizes@.skip(k as int + 1));
            if rest is Some {
                assert(answer_views(before) + (seq![answer@] + rest->0) == answer_views(answers@)
                    + rest->0);
            }
        }
        k = k + 1;
        at = start + size;
    }
    assert(answer_views(answers@) + Seq::<(usize, Seq<u8>)>::empty() == answer_views(answers@));
    if k < sizes.len() {
        return None;
    }
    Some(answers)
}

/// The ids of requests.
pub open spec fn request_ids(reqs: Seq<(usize, LamellarFunc)>) -> Seq<usize> {
    Seq::new(reqs.len(), |i: int| reqs[i].0)
}

/// Values that requests carry back, each with the request's number.
pub open spec fn carried(reqs: Seq<(usize, LamellarFunc)>) -> Seq<(usize, Seq<u8>)> {
    Seq::new(reqs.len(), |i: int| (reqs[i].0, reqs[i].1->Result_0@))
}

/// Active messages that requests carry back, each with the request's number.
pub open spec fn carried_ams(reqs: Seq<(usize, LamellarFunc)>) -> Seq<(usize, Seq<u8>)> {
    Seq::new(reqs.len(), |i: int| (reqs[i].0, reqs[i].1->Am_0.data@))
}

/// The sizes of active messages.
pub open spec fn am_sizes(reqs: Seq<(usize, LamellarFunc)>) -> Seq<usize> {
    Seq::new(reqs.len(), |i: int| reqs[i].1->Am_0.data@.len() as usize)
}

proof fn ids_step(data: Seq<u8>, reqs: Seq<(usize, LamellarFunc)>)
    requires
        message::requests_bytes(UNIT_ID, reqs).len() <= data.len(),
        data.subrange(0, message::requests_bytes(UNIT_ID, reqs).len() as int)
            == message::requests_bytes(UNIT_ID, reqs),
    ensures
        ids_at(data, 0) == (match ids_at(
            data,
            message::requests_bytes(UNIT_ID, reqs).len() as int,
        ) {
            Some(more) => Some(request_ids(reqs) + more),
            None => None,
        }),
    decreases reqs.len(),
{
    let bytes = message::requests_bytes(UNIT_ID, reqs);
    if reqs.len() == 0 {
        if ids_at(data, 0) is Some {
            assert(request_ids(reqs) + ids_at(data, 0)->0 == ids_at(data, 0)->0);
        }
    } else {
        let front = message::requests_bytes(UNIT_ID, reqs.drop_last());
        let mid = front.len() as int;
        let last = wire::word_bytes(reqs.last().0 as u64);
        assert(bytes == front + last);
        wire::word_len(reqs.last().0 as u64);
        let written = data.subrange(0, bytes.len() as int);
        assert(data.subrange(0, mid) == front) by {
            assert(data.subrange(0, mid) == written.subrange(0, mid));
            assert(bytes.subrange(0, mid) == front);
        }
        assert(data.subrange(mid, mid + 8) == last) by {
            assert(data.subrange(mid, mid + 8) == written.subrange(mid, mid + 8));
            assert(bytes.subrange(mid, mid + 8) == last);
        }
        ids_step(data, reqs.drop_last());
        wire::usize_read_back(data, mid, reqs.last().0);
        let rest = ids_at(data, bytes.len() as int);
        assert(request_ids(reqs) == request_ids(reqs.drop_last()).push(reqs.last().0));
        if rest is Some {
            assert(request_ids(reqs.drop_last()) + (seq![reqs.last().0] + rest->0) == request_ids(
                reqs,
            ) + rest->0);
        }
    }
}

/// The ids of requests that returned nothing are read back as they were
/// written.
pub proof fn ids_read_back(reqs: Seq<(usize, LamellarFunc)>)
    ensures
        ids_at(message::requests_bytes(UNIT_ID, reqs), 0) == Some(request_ids(reqs)),
        ids_at(message::requests_bytes(UNIT_ID, reqs), 0) matches Some(ids) && ids.len()
            == reqs.len() && forall|i: int| 0 <= i < ids.len() ==> #[trigger] ids[i] == reqs[i].0,
{
    let data = message::requests_bytes(UNIT_ID, reqs);
    assert(data.subrange(0, data.len() as int) == data);
    ids_step(data, reqs);
    assert(request_ids(reqs) + Seq::<usize>::empty() == request_ids(reqs));
}

proof fn results_step(data: Seq<u8>, func_id: AmId, reqs: Seq<(usize, LamellarFunc)>)
    requires
        func_id == REMOTE_DATA_ID || func_id == BATCHED_REMOTE_DATA_ID,
        forall|i: int| 0 <= i < reqs.len() ==> message::sendable(func_id, (#[trigger] reqs[i]).1),
        message::requests_bytes(func_id, reqs).len() <= data.len(),
        data.len() <= usize::MAX,
        data.subrange(0, message::requests_bytes(func_id, reqs).len() as int)
            == message::requests_bytes(func_id, reqs),
    ensures
        results_at(data, 0) == (match results_at(
            data,
            message::requests_bytes(func_id, reqs).len() as int,
        ) {
            Some(more) => Some(carried(reqs) + more),
            None => None,
        }),
    decreases reqs.len(),
{
    let bytes = message::requests_bytes(func_id, reqs);
    if reqs.len() == 0 {
        if results_at(data, 0) is Some {
            assert(carried(reqs) + results_at(data, 0)->0 == results_at(data, 0)->0);
        }
    } else {
        let front = message::requests_bytes(func_id, reqs.drop_last());
        let mid = front.len() as int;
        let id = reqs.last().0;
        let value = reqs.last().1->Result_0@;
        let size = value.len() as usize;
        assert(bytes == front + (wire::word_bytes(id as u64) + wire::word_bytes(size as u64)
            + value));
        wire::word_len(id as u64);
        wire::word_len(size as u64);
        let written = data.subrange(0, bytes.len() as int);
        assert(data.subrange(0, mid) == front) by {
            assert(data.subrange(0, mid) == written.subrange(0, mid));
            assert(bytes.subrange(0, mid) == front);
        }
        assert(data.subrange(mid, mid + 8) == wire::word_bytes(id as u64)) by {
            assert(data.subrange(mid, mid + 8) == written.subrange(mid, mid + 8));
            assert(bytes.subrange(mid, mid + 8) == wire::word_bytes(id as u64));
        }
        assert(data.subrange(mid + 8, mid + 16) == wire::word_bytes(size as u64)) by {
            assert(data.subrange(mid + 8, mid + 16) == written.subrange(mid + 8, mid + 16));
            assert(bytes.subrange(mid + 8, mid + 16) == wire::word_bytes(size as u64));
        }
        let behind = bytes.len() as int;
        assert(data.subrange(mid + 16, behind) == value) by {
            assert(data.subrange(mid + 16, behind) == written.subrange(mid + 16, behind));
            assert(bytes.subrange(mid + 16, behind) == value);
        }
        results_step(data, func_id, reqs.drop_last());
        wire::usize_read_back(data, mid, id);
        wire::usize_read_back(data, mid + 8, size);
        let rest = results_at(data, behind);
        assert(carried(reqs) == carried(reqs.drop_last()).push((id, value)));
        if rest is Some {
            assert(carried(reqs.drop_last()) + (seq![(id, value)] + rest->0) == carried(reqs)
                + rest->0);
        }
    }
}

/// Returned values are read back as they were written, each with the request
/// that it answers.
pub proof fn results_read_back(func_id: AmId, reqs: Seq<(usize, LamellarFunc)>)
    requires
        func_id == REMOTE_DATA_ID || func_id == BATCHED_REMOTE_DATA_ID,
        forall|i: int| 0 <= i < reqs.len() ==> message::sendable(func_id, (#[trigger] reqs[i]).1),
        message::requests_bytes(func_id, reqs).len() <= usize::MAX,
    ensures
        results_at(message::requests_bytes(func_id, reqs), 0) == Some(carried(reqs)),
        results_at(message::requests_bytes(func_id, reqs), 0) matches Some(results) && results.len()
            == reqs.len() && forall|i: int|
            0 <= i < results.len() ==> (#[trigger] results[i]).0 == reqs[i].0 && (
            reqs[i].1 matches LamellarFunc::Result(data) && results[i].1 == data@),
{
    let data = message::requests_bytes(func_id, reqs);
    assert(data.subrange(0, data.len() as int) == data);
    results_step(data, func_id, reqs);
    assert(carried(reqs) + Seq::<(usize, Seq<u8>)>::empty() == carried(reqs));
}

proof fn ams_step(
    data: Seq<u8>,
    func_id: AmId,
    reqs: Seq<(usize, LamellarFunc)>,
    sizes: Seq<usize>,
)
    requires
        func_id < 0,
        message::requests_bytes(func_id, reqs).len() <= data.len(),
        data.len() <= usize::MAX,
        data.subrange(0, message::requests_bytes(func_id, reqs).len() as int)
            == message::requests_bytes(func_id, reqs),
        reqs.len() <= sizes.len(),
        sizes.take(reqs.len() as int) == am_sizes(reqs),
    ensures
        ams_at(data, 0, sizes) == (match ams_at(
            data,
            message::requests_bytes(func_id, reqs).len() as int,
            sizes.skip(reqs.len() as int),
        ) {
            Some(more) => Some(carried_ams(reqs) + more),
            None => None,
        }),
    decreases reqs.len(),
{
    let bytes = message::requests_bytes(func_id, reqs);
    let n = reqs.len() as int;
    if n == 0 {
        assert(sizes.skip(0) == sizes);
        if ams_at(data, 0, sizes) is Some {
            assert(carried_ams(reqs) + ams_at(data, 0, sizes)->0 == ams_at(data, 0, sizes)->0);
        }
    } else {
        let front = message::requests_bytes(func_id, reqs.drop_last());
        let mid = front.len() as int;
        let id = reqs.last().0;
        let value = reqs.last().1->Am_0.data@;
        assert(bytes == front + (wire::word_bytes(id as u64) + value));
        wire::word_len(id as u64);
        let written = data.subrange(0, bytes.len() as int);
        assert(data.subrange(0, mid) == front) by {
            assert(data.subrange(0, mid) == written.subrange(0, mid));
            assert(bytes.subrange(0, mid) == front);
        }
        assert(data.subrange(mid, mid + 8) == wire::word_bytes(id as u64)) by {
            assert(data.subrange(mid, mid + 8) == written.subrange(mid, mid + 8));
            assert(bytes.subrange(mid, mid + 8) == wire::word_bytes(id as u64));
        }
        let behind = bytes.len() as int;
        assert(data.subrange(mid + 8, behind) == value) by {
            assert(data.subrange(mid + 8, behind) == written.subrange(mid + 8, behind));
            assert(bytes.subrange(mid + 8, behind) == value);
        }
        assert(sizes.take(n - 1) == am_sizes(reqs.drop_last())) by {
            assert(sizes.take(n - 1) == sizes.take(n).drop_last());
            assert(am_sizes(reqs).drop_last() == am_sizes(reqs.drop_last()));
        }
        ams_step(data, func_id, reqs.drop_last(), sizes);
        wire::usize_read_back(data, mid, id);
        let left = sizes.skip(n - 1);
        assert(left[0] == sizes[n - 1]);
        assert(sizes[n - 1] == sizes.take(n)[n - 1]);
        assert(sizes[n - 1] == value.len());
        assert(left.drop_first() == sizes.skip(n));
        let rest = ams_at(data, behind, sizes.skip(n));
        assert(carried_ams(reqs) == carried_ams(reqs.drop_last()).push((id, value)));
        if rest is Some {
            assert(carried_ams(reqs.drop_last()) + (seq![(id, value)] + rest->0) == carried_ams(
                reqs,
            ) + rest->0);
        }
    }
}

/// Returned active messages are read back as they were written, each with the
/// request that it answers, if unpacking each takes as many bytes as packing
/// it gave.
pub proof fn ams_read_back(func_id: AmId, reqs: Seq<(usize, LamellarFunc)>)
    requires
        func_id < 0,
        message::requests_bytes(func_id, reqs).len() <= usize::MAX,
    ensures
        ams_at(message::requests_bytes(func_id, reqs), 0, am_sizes(reqs)) == Some(
            carried_ams(reqs),
        ),
        ams_at(
            message::requests_bytes(func_id, reqs),
            0,
            Seq::new(reqs.len(), |i: int| reqs[i].1->Am_0.data@.len() as usize),
        ) matches Some(ams) && ams.len() == reqs.len() && forall|i: int|
            0 <= i < ams.len() ==> (#[trigger] ams[i]).0 == reqs[i].0 && ams[i].1
                == reqs[i].1->Am_0.data@,
{
    let data = message::requests_bytes(func_id, reqs);
    let sizes = am_sizes(reqs);
    let n = reqs.len() as int;
    assert(data.subrange(0, data.len() as int) == data);
    assert(sizes.take(n) == sizes);
    ams_step(data, func_id, reqs, sizes);
    assert(sizes.skip(n).len() == 0);
    assert(carried_ams(reqs) + Seq::<(usize, Seq<u8>)>::empty() == carried_ams(reqs));
}

/// A value is taken only whole: it has all the bytes that stand in front of it as its
/// size, and data that ends before is refused.
pub proof fn values_are_taken_whole(data: Seq<u8>, at: int)
    requires
        0 <= at < data.len(),
    ensures
        at + 16 > data.len() ==> results_at(data, at) is None,
        (wire::usize_at(data, at + 8) matches Some(size) && at + 16 + size > data.len())
            ==> results_at(data, at) is None,
        results_at(data, at) matches Some(results) ==> {
            &&& wire::usize_at(data, at) matches Some(id)
            &&& wire::usize_at(data, at + 8) matches Some(size)
            &&& results.len() > 0
            &&& results[0] == (id, data.subrange(at + 16, at + 16 + size))
            &&& results_at(data, at + 16 + size) == Some(results.drop_first())
        },
        ids_at(data, at) matches Some(ids) ==> {
            &&& wire::usize_at(data, at) matches Some(id)
            &&& ids.len() > 0
            &&& ids[0] == id
            &&& ids_at(data, at + 8) == Some(ids.drop_first())
        },
        at + 8 > data.len() ==> ids_at(data, at) is None,
{
    if let Some(results) = results_at(data, at) {
        let size = wire::usize_at(data, at + 8)->0;
        let more = results_at(data, at + 16 + size)->0;
        assert(results.drop_first() =~= more);
    }
    if let Some(ids) = ids_at(data, at) {
        let more = ids_at(data, at + 8)->0;
        assert(ids.drop_first() =~= more);
    }
}

/// A returned active message is taken only whole, from behind its request's id on, and
/// no more of them are taken than there are sizes.
pub proof fn returned_ams_are_taken_whole(data: Seq<u8>, at: int, sizes: Seq<usize>)
    requires
        0 <= at < data.len(),
    ensures
        sizes.len() == 0 ==> ams_at(data, at, sizes) is None,
        at + 8 > data.len() ==> ams_at(data, at, sizes) is None,
        sizes.len() > 0 && at + 8 + sizes[0] > data.len() ==> ams_at(data, at, sizes) is None,
        ams_at(data, at, sizes) matches Some(ams) ==> {
            &&& wire::usize_at(data, at) matches Some(id)
            &&& ams.len() == sizes.len()
            &&& ams[0] == (id, data.subrange(at + 8, at + 8 + sizes[0]))
            &&& ams_at(data, at + 8 + sizes[0], sizes.drop_first()) == Some(ams.drop_first())
        },
{
    if let Some(ams) = ams_at(data, at, sizes) {
        let more = ams_at(data, at + 8 + sizes[0], sizes.drop_first())->0;
        assert(ams.drop_first() =~= more);
        as_many_as_sizes(data, at, sizes);
    }
}

proof fn as_many_as_sizes(data: Seq<u8>, at: int, sizes: Seq<usize>)
    ensures
        ams_at(data, at, sizes) matches Some(ams) ==> ams.len() == sizes.len(),
    decreases sizes.len(),
{
    if sizes.len() > 0 {
        as_many_as_sizes(data, at + WORD_LEN + sizes[0], sizes.drop_first());
    }
}

} // verus!
