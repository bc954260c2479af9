//! What becomes of many requests for one destination.

use vstd::prelude::*;

use crate::active_messaging::submitted;
use crate::active_messaging::submitted::{
    Request, SubmittedAms, BATCH_HEADER_LEN, FUNC_HEADER_LEN, TEAM_HEADER_LEN,
};
use crate::active_messaging::{AmId, LamellarFunc};
use crate::math;

verus! {

/// How many different values a sequence holds.
pub open spec fn distinct<K>(s: Seq<K>) -> nat {
    s.to_set().len()
}

/// The teams of requests.
pub open spec fn teams(reqs: Seq<Request>) -> Seq<u64> {
    reqs.map_values(|r: Request| r.team_hash)
}

/// The functions of requests, each with its team.
pub open spec fn funcs(reqs: Seq<Request>) -> Seq<(u64, AmId)> {
    reqs.map_values(|r: Request| (r.team_hash, r.func_id))
}

/// The batches of requests, each with its team and function.
pub open spec fn batches(reqs: Seq<Request>) -> Seq<(u64, AmId, Option<usize>)> {
    reqs.map_values(|r: Request| (r.team_hash, r.func_id, r.batch_id))
}

/// The bytes of requests.
pub open spec fn sizes(reqs: Seq<Request>) -> Seq<int> {
    reqs.map_values(|r: Request| r.size)
}

/// The requests of one batch, in their order.
pub open spec fn in_batch(reqs: Seq<Request>, t: u64, f: AmId, b: Option<usize>) -> Seq<
    (usize, LamellarFunc),
>
    decreases reqs.len(),
{
    if reqs.len() == 0 {
        Seq::empty()
    } else {
        let front = in_batch(reqs.drop_last(), t, f, b);
        let r = reqs.last();
        if r.team_hash == t && r.func_id == f && r.batch_id == b {
            front.push((r.id, r.func))
        } else {
            front
        }
    }
}

/// The bytes that requests take in one message: their own, and a header for each
/// team, each function of a team, and each batch of a function.
pub open spec fn message_len(reqs: Seq<Request>) -> int {
    math::total(sizes(reqs)) + TEAM_HEADER_LEN * distinct(teams(reqs)) + FUNC_HEADER_LEN * distinct(
        funcs(reqs),
    ) + BATCH_HEADER_LEN * distinct(batches(reqs))
}

/// Whether requests for a destination, for which nothing waited, were added one
/// after the other.
pub open spec fn all_added(
    states: Seq<SubmittedAms>,
    reqs: Seq<Request>,
    dst: Option<usize>,
) -> bool {
    &&& states.len() == reqs.len() + 1
    &&& states[0].wf()
    &&& !states[0].has(dst)
    &&& forall|k: int|
        0 <= k < reqs.len() ==> submitted::added(
            states[k],
            states[k + 1],
            dst,
            #[trigger] reqs[k],
        )
}

proof fn distinct_push<K>(s: Seq<K>, x: K)
    ensures
        distinct(s.push(x)) == distinct(s) + if s.contains(x) {
            0int
        } else {
            1
        },
{
    s.lemma_push_to_set_commute(x);
    vstd::seq_lib::seq_to_set_is_finite(s);
    assert(s.to_set().contains(x) <==> s.contains(x));
}

/// Requests that are made for a destination before its message is put together
/// share that one message: only the first starts one, the message is as long as
/// the requests and a header for each of their groups, and each batch holds its
/// requests once, in the order in which they were made.
pub proof fn requests_share_a_message(
    states: Seq<SubmittedAms>,
    reqs: Seq<Request>,
    dst: Option<usize>,
)
    requires
        all_added(states, reqs, dst),
    ensures
        states.last().wf(),
        states.last().has(dst) <==> reqs.len() > 0,
        forall|k: int| 0 <= k < reqs.len() ==> ((#[trigger] states[k]).has(dst) <==> k > 0),
        states.last().total_size(dst) == message_len(reqs),
        forall|t: u64, f: AmId, b: Option<usize>|
            #[trigger] states.last().requests(dst, t, f, b) == in_batch(reqs, t, f, b)
                && states.last().has_batch(dst, t, f, b) == batches(reqs).contains((t, f, b)),
    decreases reqs.len(),
{
    if reqs.len() == 0 {
        assert(teams(reqs).to_set() =~= Set::empty());
        assert(funcs(reqs).to_set() =~= Set::empty());
        assert(batches(reqs).to_set() =~= Set::empty());
    } else {
        let n = reqs.len() - 1;
        let r = reqs[n];
        let front = reqs.drop_last();
        let before = states[n];
        let after = states[n + 1];
        assert forall|k: int| 0 <= k < front.len() implies submitted::added(
            states.drop_last()[k],
            states.drop_last()[k + 1],
            dst,
            #[trigger] front[k],
        ) by {
            assert(submitted::added(states[k], states[k + 1], dst, reqs[k]));
        }
        requests_share_a_message(states.drop_last(), front, dst);
        assert(states.drop_last().last() == before);
        assert(submitted::added(before, after, dst, reqs[n]));
        assert(teams(reqs) =~= teams(front).push(r.team_hash));
        assert(funcs(reqs) =~= funcs(front).push((r.team_hash, r.func_id)));
        assert(batches(reqs) =~= batches(front).push((r.team_hash, r.func_id, r.batch_id)));
        assert(sizes(reqs) =~= sizes(front).push(r.size));
        math::total_push(sizes(front), r.size);
        distinct_push(teams(front), r.team_hash);
        distinct_push(funcs(front), (r.team_hash, r.func_id));
        distinct_push(batches(front), (r.team_hash, r.func_id, r.batch_id));
        groups_follow_requests(before, front, dst, r.team_hash, r.func_id);
        let key = (r.team_hash, r.func_id, r.batch_id);
        assert(before.requests(dst, key.0, key.1, key.2) == in_batch(front, key.0, key.1, key.2));
        assert forall|t: u64, f: AmId, b: Option<usize>|
            #[trigger] after.requests(dst, t, f, b) == in_batch(reqs, t, f, b) && after.has_batch(
                dst,
                t,
                f,
                b,
            ) == batches(reqs).contains((t, f, b)) by {
            assert(before.requests(dst, t, f, b) == in_batch(front, t, f, b));
            let all = batches(reqs);
            if batches(front).contains((t, f, b)) {
                let i = batches(front).index_of((t, f, b));
                assert(all[i] == (t, f, b));
            }
            if all.contains((t, f, b)) {
                let i = all.index_of((t, f, b));
                if i < n {
                    assert(batches(front)[i] == (t, f, b));
                }
            }
            assert(all[n] == key);
        }
        assert forall|k: int| 0 <= k < reqs.len() implies ((#[trigger] states[k]).has(dst) <==> k
            > 0) by {
            if k < n {
                assert(states.drop_last()[k] == states[k]);
            }
        }
    }
}

proof fn groups_follow_requests(
    s: SubmittedAms,
    reqs: Seq<Request>,
    dst: Option<usize>,
    t: u64,
    f: AmId,
)
    requires
        s.wf(),
        forall|t: u64, f: AmId, b: Option<usize>|
            #[trigger] s.requests(dst, t, f, b) == in_batch(reqs, t, f, b) && s.has_batch(
                dst,
                t,
                f,
                b,
            ) == batches(reqs).contains((t, f, b)),
    ensures
        s.has_team(dst, t) <==> teams(reqs).contains(t),
        s.has_func(dst, t, f) <==> funcs(reqs).contains((t, f)),
{
    submitted::groups_have_batches(s, dst, t, f);
    if s.has_team(dst, t) {
        let (g, b) = choose|g: AmId, b: Option<usize>| #[trigger] s.has_batch(dst, t, g, b);
        let known = s.requests(dst, t, g, b);
        let i = batches(reqs).index_of((t, g, b));
        assert(teams(reqs)[i] == t);
    }
    if teams(reqs).contains(t) {
        let i = teams(reqs).index_of(t);
        let r = reqs[i];
        assert(batches(reqs)[i] == (t, r.func_id, r.batch_id));
        let known = s.requests(dst, t, r.func_id, r.batch_id);
        assert(s.has_batch(dst, t, r.func_id, r.batch_id));
    }
    if s.has_func(dst, t, f) {
        let b = choose|b: Option<usize>| #[trigger] s.has_batch(dst, t, f, b);
        let known = s.requests(dst, t, f, b);
        let i = batches(reqs).index_of((t, f, b));
        assert(funcs(reqs)[i] == (t, f));
    }
    if funcs(reqs).contains((t, f)) {
        let i = funcs(reqs).index_of((t, f));
        let r = reqs[i];
        assert(batches(reqs)[i] == (t, f, r.batch_id));
        let known = s.requests(dst, t, f, r.batch_id);
        assert(s.has_batch(dst, t, f, r.batch_id));
    }
}

} // verus!
