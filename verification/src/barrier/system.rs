//! All PEs of a team, going through barriers.

use vstd::arithmetic::div_mod::*;
use vstd::prelude::*;

use crate::barrier;
use crate::math;

verus! {

/// All PEs. The barrier that a PE has entered last has the number `entered`,
/// and the PE has done `rounds` of its rounds.
#[verifier::ext_equal]
pub struct System {
    pub n: int,
    pub num_rounds: nat,
    pub entered: Seq<int>,
    pub rounds: Seq<int>,
    /// `slots[p][k][r]`: what was written on `p` as number `k + 1` in round `r`.
    pub slots: Seq<Seq<Seq<int>>>,
}

/// What can happen.
pub enum Event {
    /// A PE that has left the last barrier enters the next.
    Enter { pe: int },
    /// What a PE tells another arrives there: as number `k + 1`, of a round that
    /// the PE has come to of the barrier with number `id`.
    Tell { pe: int, k: int, round: int, id: int },
    /// A PE that everyone has told finishes its round.
    Advance { pe: int },
}

impl System {
    pub open spec fn num_pes(self) -> nat {
        self.entered.len()
    }

    pub open spec fn shaped(self) -> bool {
        &&& self.n >= 1
        &&& self.rounds.len() == self.num_pes()
        &&& self.slots.len() == self.num_pes()
        &&& forall|p: int|
            0 <= p < self.num_pes() ==> (#[trigger] self.slots[p]).len() == self.n
        &&& forall|p: int, k: int|
            0 <= p < self.num_pes() && 0 <= k < self.n ==> (#[trigger] self.slots[p][k]).len()
                == self.num_rounds
    }

    pub open spec fn send(self, p: int, k: int, r: int) -> int {
        barrier::send_pe(p, k + 1, self.n, r as nat, self.num_pes() as int)
    }

    pub open spec fn recv(self, p: int, k: int, r: int) -> int {
        barrier::recv_pe(p, k + 1, self.n, r as nat, self.num_pes() as int)
    }

    pub open spec fn slot(self, p: int, k: int, r: int) -> int {
        self.slots[p][k][r]
    }

    /// Whether a PE has done `r` rounds of the barrier with number `id`.
    pub open spec fn reached(self, p: int, id: int, r: int) -> bool {
        self.entered[p] > id || (self.entered[p] == id && self.rounds[p] >= r)
    }
}

/// No PE has entered a barrier.
pub open spec fn initial(s: System) -> bool {
    &&& s.shaped()
    &&& forall|p: int| 0 <= p < s.num_pes() ==> #[trigger] s.entered[p] == 0
    &&& forall|p: int| 0 <= p < s.num_pes() ==> #[trigger] s.rounds[p] == s.num_rounds
    &&& forall|p: int, k: int, r: int|
        0 <= p < s.num_pes() && 0 <= k < s.n && 0 <= r < s.num_rounds ==> #[trigger] s.slot(
            p,
            k,
            r,
        ) == 0
}

/// How the system goes on.
pub open spec fn next(s: System, t: System, e: Event) -> bool {
    match e {
        Event::Enter { pe } => {
            &&& 0 <= pe < s.num_pes()
            &&& s.rounds[pe] == s.num_rounds
            &&& t == (System {
                entered: s.entered.update(pe, s.entered[pe] + 1),
                rounds: s.rounds.update(pe, 0),
                ..s
            })
        },
        Event::Tell { pe, k, round, id } => {
            let to = s.send(pe, k, round);
            &&& 0 <= pe < s.num_pes()
            &&& 0 <= k < s.n
            &&& 0 <= round < s.num_rounds
            &&& id > 0
            &&& s.reached(pe, id, round)
            &&& to != pe
            &&& t == (System {
                slots: s.slots.update(
                    to,
                    s.slots[to].update(k, s.slots[to][k].update(round, id)),
                ),
                ..s
            })
        },
        Event::Advance { pe } => {
            let r = s.rounds[pe];
            &&& 0 <= pe < s.num_pes()
            &&& r < s.num_rounds
            &&& forall|k: int|
                0 <= k < s.n ==> s.recv(pe, k, r) == pe || #[trigger] s.slot(pe, k, r)
                    >= s.entered[pe]
            &&& t == (System { rounds: s.rounds.update(pe, r + 1), ..s })
        },
    }
}

/// What holds of every state that the system can reach: what was written is the
/// number of a barrier whose round the writer has come to, and who has done a
/// round has been told by everyone who tells in it.
pub open spec fn invariant_holds(s: System) -> bool {
    &&& s.shaped()
    &&& forall|p: int|
        0 <= p < s.num_pes() ==> 0 <= #[trigger] s.rounds[p] <= s.num_rounds && s.entered[p] >= 0
    &&& forall|p: int, k: int, r: int|
        0 <= p < s.num_pes() && 0 <= k < s.n && 0 <= r < s.num_rounds && #[trigger] s.slot(p, k, r)
            > 0 ==> s.reached(s.recv(p, k, r), s.slot(p, k, r), r)
    &&& forall|p: int, id: int, k: int, r: int|
        0 <= p < s.num_pes() && 0 <= k < s.n && 0 <= r < s.num_rounds && id > 0 && s.reached(
            p,
            id,
            r + 1,
        ) ==> #[trigger] s.reached(s.recv(p, k, r), id, r)
}

proof fn recv_in_range(s: System, p: int, k: int, r: int)
    requires
        s.num_pes() > 0,
    ensures
        0 <= s.recv(p, k, r) < s.num_pes(),
        0 <= s.send(p, k, r) < s.num_pes(),
{
    lemma_mod_bound(p - (k + 1) * math::power(s.n + 1, r as nat), s.num_pes() as int);
    lemma_mod_bound(p + (k + 1) * math::power(s.n + 1, r as nat), s.num_pes() as int);
}

/// Whatever happens, the invariant goes on to hold.
pub proof fn invariant_goes_on(s: System, t: System, e: Event)
    requires
        invariant_holds(s),
        next(s, t, e),
    ensures
        invariant_holds(t),
{
    assert(t.num_pes() == s.num_pes());
    assert forall|p: int, k: int, r: int| t.recv(p, k, r) == s.recv(p, k, r) by {}
    // What a PE has reached it has reached for good.
    assert forall|p: int, id: int, r: int|
        0 <= p < s.num_pes() && r <= s.num_rounds && s.reached(p, id, r) implies 
    #[trigger] t.reached(p, id, r) by {
        assert(0 <= s.rounds[p] <= s.num_rounds);
    }
    assert forall|p: int, k: int, r: int|
        0 <= p < t.num_pes() && 0 <= k < t.n && 0 <= r < t.num_rounds && #[trigger] t.slot(p, k, r)
            > 0 implies t.reached(t.recv(p, k, r), t.slot(p, k, r), r) by {
        recv_in_range(s, p, k, r);
        match e {
            Event::Tell { pe, k: k0, round, id } => {
                recv_in_range(s, pe, k0, round);
                let to = s.send(pe, k0, round);
                if p == to && k == k0 && r == round {
                    barrier::sends_and_receives_match(
                        pe,
                        p,
                        k + 1,
                        s.n,
                        r as nat,
                        s.num_pes() as int,
                    );
                    assert(s.recv(p, k, r) == pe);
                } else {
                    assert(s.slot(p, k, r) == t.slot(p, k, r));
                    assert(s.reached(s.recv(p, k, r), s.slot(p, k, r), r));
                }
            },
            _ => {
                assert(s.slot(p, k, r) == t.slot(p, k, r));
                assert(s.reached(s.recv(p, k, r), s.slot(p, k, r), r));
            },
        }
    }
    assert forall|p: int, id: int, k: int, r: int|
        0 <= p < t.num_pes() && 0 <= k < t.n && 0 <= r < t.num_rounds && id > 0 && t.reached(
            p,
            id,
            r + 1,
        ) implies #[trigger] t.reached(t.recv(p, k, r), id, r) by {
        recv_in_range(s, p, k, r);
        assert(0 <= s.rounds[p] <= s.num_rounds);
        if s.reached(p, id, r + 1) {
            assert(s.reached(s.recv(p, k, r), id, r));
        } else {
            match e {
                Event::Advance { pe } => {
                    assert(p == pe && s.rounds[pe] == r && s.entered[pe] == id);
                    if s.recv(p, k, r) != p {
                        assert(s.slot(p, k, r) >= id);
                        assert(s.reached(s.recv(p, k, r), s.slot(p, k, r), r));
                        assert(s.reached(s.recv(p, k, r), id, r));
                    } else {
                        assert(s.reached(p, id, r));
                    }
                },
                Event::Enter { pe } => {
                    assert(p == pe);
                    assert(t.rounds[p] == 0);
                    assert(s.entered[p] >= id);
                },
                _ => {},
            }
        }
    }
    assert forall|p: int| 0 <= p < t.num_pes() implies 0 <= #[trigger] t.rounds[p] <= t.num_rounds
        && t.entered[p] >= 0 by {
        assert(0 <= s.rounds[p] <= s.num_rounds);
    }
    shape_kept(s, t, e);
}

proof fn shape_kept(s: System, t: System, e: Event)
    requires
        invariant_holds(s),
        next(s, t, e),
    ensures
        t.shaped(),
{
    match e {
        Event::Tell { pe, k, round, id: _ } => {
            recv_in_range(s, pe, k, round);
            assert forall|p: int, j: int|
                0 <= p < t.num_pes() && 0 <= j < t.n implies (#[trigger] t.slots[p][j]).len()
                == t.num_rounds by {
                assert(s.slots[p][j].len() == s.num_rounds);
            }
            assert forall|p: int| 0 <= p < t.num_pes() implies (#[trigger] t.slots[p]).len()
                == t.n by {
                assert(s.slots[p].len() == s.n);
            }
        },
        _ => {},
    }
}

/// A run of the system.
pub open spec fn is_run(states: Seq<System>, events: Seq<Event>) -> bool {
    &&& states.len() == events.len() + 1
    &&& initial(states[0])
    &&& forall|i: int| 0 <= i < events.len() ==> next(states[i], states[i + 1], #[trigger] events[i])
}

proof fn run_keeps_invariant(states: Seq<System>, events: Seq<Event>, k: int)
    requires
        is_run(states, events),
        0 <= k < states.len(),
    ensures
        invariant_holds(states[k]),
        states[k].num_pes() == states[0].num_pes(),
        states[k].n == states[0].n,
        states[k].num_rounds == states[0].num_rounds,
    decreases k,
{
    if k > 0 {
        run_keeps_invariant(states, events, k - 1);
        assert(next(states[k - 1], states[(k - 1) + 1], events[k - 1]));
        invariant_goes_on(states[k - 1], states[k], events[k - 1]);
    } else {
        invariant_starts(states[0]);
    }
}

/// The invariant holds before any PE has entered a barrier.
pub proof fn invariant_starts(s: System)
    requires
        initial(s),
    ensures
        invariant_holds(s),
{
    assert forall|p: int, id: int, k: int, r: int|
        0 <= p < s.num_pes() && 0 <= k < s.n && 0 <= r < s.num_rounds && id > 0 && s.reached(
            p,
            id,
            r + 1,
        ) implies #[trigger] s.reached(s.recv(p, k, r), id, r) by {
        assert(s.entered[p] == 0);
    }
    assert forall|p: int| 0 <= p < s.num_pes() implies 0 <= #[trigger] s.rounds[p] <= s.num_rounds
        && s.entered[p] >= 0 by {
        assert(s.entered[p] == 0);
    }
}

/// Who has done `r` rounds of a barrier knows that all PEs at distances below
/// the `r`-th power of `n + 1` have entered it.
proof fn knows(s: System, id: int, p: int, r: nat, d: int)
    requires
        invariant_holds(s),
        id > 0,
        0 <= p < s.num_pes(),
        r <= s.num_rounds,
        s.reached(p, id, r as int),
        0 <= d < math::power(s.n + 1, r),
    ensures
        s.entered[(p - d) % (s.num_pes() as int)] >= id,
    decreases r,
{
    let m = s.num_pes() as int;
    if r == 0 {
        lemma_small_mod(p as nat, m as nat);
    } else {
        let r1 = (r - 1) as nat;
        let step = math::power(s.n + 1, r1);
        math::power_positive(s.n + 1, r1);
        let i = d / step;
        let rest = d % step;
        lemma_fundamental_div_mod(d, step);
        lemma_mod_bound(d, step);
        assert(d == i * step + rest) by (nonlinear_arith)
            requires
                d == step * i + rest,
        ;
        assert(0 <= i < s.n + 1) by (nonlinear_arith)
            requires
                d == i * step + rest,
                0 <= rest < step,
                0 <= d < step * (s.n + 1),
                step >= 1,
        ;
        assert(s.reached(p, id, r1 as int));
        if i == 0 {
            assert(d == rest) by (nonlinear_arith)
                requires
                    d == i * step + rest,
                    i == 0,
            ;
            knows(s, id, p, r1, rest);
        } else {
            let k = i - 1;
            recv_in_range(s, p, k, r1 as int);
            let q = s.recv(p, k, r1 as int);
            assert(s.reached(p, id, r1 as int + 1));
            assert(s.reached(q, id, r1 as int));
            knows(s, id, q, r1, rest);
            assert(q == (p - i * step) % m);
            lemma_sub_mod_noop(p - i * step, rest, m);
            lemma_sub_mod_noop(q, rest, m);
            lemma_mod_twice(p - i * step, m);
            assert(q % m == (p - i * step) % m);
            assert((q - rest) % m == (p - i * step - rest) % m);
            assert(p - i * step - rest == p - d);
        }
    }
}

/// A barrier holds everyone back until all have come: if its rounds cover the
/// team, then when one PE has done all rounds, every PE has entered.
pub proof fn no_one_leaves_early(
    states: Seq<System>,
    events: Seq<Event>,
    k: int,
    p: int,
    q: int,
    id: int,
)
    requires
        is_run(states, events),
        0 <= k < states.len(),
        0 <= p < states[0].num_pes(),
        0 <= q < states[0].num_pes(),
        id > 0,
        barrier::covers(states[0].n + 1, states[0].num_rounds, states[0].num_pes() as int),
        states[k].reached(p, id, states[0].num_rounds as int),
    ensures
        states[k].entered[q] >= id,
{
    run_keeps_invariant(states, events, k);
    everyone_entered(states[k], p, q, id);
}

/// If its rounds cover the team, who has done all rounds of a barrier knows that
/// every PE has entered it.
pub proof fn everyone_entered(s: System, p: int, q: int, id: int)
    requires
        invariant_holds(s),
        0 <= p < s.num_pes(),
        0 <= q < s.num_pes(),
        id > 0,
        barrier::covers(s.n + 1, s.num_rounds, s.num_pes() as int),
        s.reached(p, id, s.num_rounds as int),
    ensures
        s.entered[q] >= id,
{
    let m = s.num_pes() as int;
    let d = (p - q) % m;
    lemma_mod_bound(p - q, m);
    knows(s, id, p, s.num_rounds, d);
    lemma_sub_mod_noop_right(p, p - q, m);
    assert(p - (p - q) == q);
    lemma_small_mod(q as nat, m as nat);
}

/// The rounds that a barrier is set up with cover its team.
pub proof fn rounds_cover_team(factor: usize, num_pes: int, rounds: nat)
    requires
        barrier::least_cover(barrier::growth(factor, num_pes), rounds, num_pes),
    ensures
        barrier::covers(barrier::factor_used(factor, num_pes) + 1, rounds, num_pes),
{
    math::power_monotone(
        barrier::growth(factor, num_pes),
        barrier::factor_used(factor, num_pes) + 1,
        rounds,
    );
}

/// A barrier keeps no one waiting for ever: when every PE has entered it, when
/// everything that PEs have told by the rounds that they have come to has arrived,
/// and when no PE can finish its round, then every PE has done all rounds.
pub proof fn no_one_waits_for_ever(s: System, id: int, p: int)
    requires
        invariant_holds(s),
        id > 0,
        0 <= p < s.num_pes(),
        forall|q: int| 0 <= q < s.num_pes() ==> #[trigger] s.entered[q] == id,
        forall|q: int, k: int, r: int|
            0 <= q < s.num_pes() && 0 <= k < s.n && 0 <= r <= s.rounds[q] && r < s.num_rounds
                && #[trigger] s.send(q, k, r) != q ==> s.slot(s.send(q, k, r), k, r) >= id,
        forall|q: int, t: System|
            0 <= q < s.num_pes() ==> !#[trigger] next(s, t, Event::Advance { pe: q }),
    ensures
        s.rounds[p] == s.num_rounds,
    decreases s.rounds[p],
{
    assert(0 <= s.rounds[p] <= s.num_rounds && s.entered[p] == id);
    if s.rounds[p] < s.num_rounds {
        let r = s.rounds[p];
        let t = System { rounds: s.rounds.update(p, r + 1), ..s };
        assert(!next(s, t, Event::Advance { pe: p }));
        let k = choose|k: int|
            0 <= k < s.n && s.recv(p, k, r) != p && #[trigger] s.slot(p, k, r) < id;
        assert(0 <= k < s.n && s.recv(p, k, r) != p && s.slot(p, k, r) < id);
        let q = s.recv(p, k, r);
        recv_in_range(s, p, k, r);
        barrier::sends_and_receives_match(q, p, k + 1, s.n, r as nat, s.num_pes() as int);
        assert(s.send(q, k, r) == p);
        assert(0 <= s.rounds[q] <= s.num_rounds);
        if s.rounds[q] < r {
            no_one_waits_for_ever(s, id, q);
        }
        assert(s.slot(s.send(q, k, r), k, r) >= id);
    }
}

} // verus!
