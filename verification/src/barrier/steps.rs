//! How the parts of all PEs take their steps: each step is an event of the
//! system of PEs, or changes nothing there.

use vstd::arithmetic::div_mod::*;
use vstd::prelude::*;

use crate::barrier;
use crate::barrier::system;
use crate::barrier::system::{Event, System};
use crate::barrier::{Barrier, BarrierStep, Progress, Put};
use crate::lamellar_team::LamellarTeamRT;
use crate::math;

verus! {

/// The parts of all PEs, in the order of the team: where each PE is in a
/// barrier, if it is in one, and which numbers PEs have written on others. A
/// number may arrive at any time after it was written.
#[verifier::ext_equal]
pub struct Parts {
    pub parts: Seq<Barrier>,
    pub at: Seq<Option<Progress>>,
    pub written: Set<(int, Put)>,
}

/// What a PE can do.
pub enum Action {
    /// A PE outside of a barrier enters one.
    Enter { pe: int },
    /// A PE takes a step, and leaves when the step says that it is done.
    Step { pe: int, step: BarrierStep },
    /// A number that `from` has written arrives.
    Arrive { from: int, to: int, put: Put },
}

impl Parts {
    pub open spec fn num_pes(self) -> nat {
        self.parts.len()
    }

    /// How many PEs each PE tells in a round.
    pub open spec fn n(self) -> int {
        self.parts[0].n as int
    }

    pub open spec fn num_rounds(self) -> nat {
        self.parts[0].num_rounds as nat
    }

    /// The members of the team, by their places in the world.
    pub open spec fn pes(self) -> Seq<usize> {
        self.parts[0].pes@
    }

    /// The rounds that a PE has done.
    pub open spec fn rounds_of(self, p: int) -> int {
        match self.at[p] {
            Some(at) => at.round as int,
            None => self.num_rounds() as int,
        }
    }

    /// What the parts come to as a system.
    pub open spec fn system(self) -> System {
        System {
            n: self.n(),
            num_rounds: self.num_rounds(),
            entered: Seq::new(self.num_pes(), |p: int| self.parts[p].barrier_cnt - 1),
            rounds: Seq::new(self.num_pes(), |p: int| self.rounds_of(p)),
            slots: Seq::new(
                self.num_pes(),
                |p: int|
                    Seq::new(
                        self.n() as nat,
                        |k: int|
                            Seq::new(
                                self.num_rounds(),
                                |r: int| self.parts[p].barrier_buf@[k]@[r] as int,
                            ),
                    ),
            ),
        }
    }

    /// Whether a number was written as a barrier asks for.
    pub open spec fn put_ok(self, from: int, put: Put) -> bool {
        let to = barrier::send_pe(
            from,
            put.buf + 1,
            self.n(),
            put.slot as nat,
            self.num_pes() as int,
        );
        &&& 0 <= from < self.num_pes()
        &&& put.buf < self.n()
        &&& put.slot < self.num_rounds()
        &&& put.id > 0
        &&& to != from
        &&& put.pe == self.pes()[to]
        &&& self.system().reached(from, put.id as int, put.slot as int)
    }

    /// Whether these are the parts of one barrier.
    pub open spec fn wf(self) -> bool {
        &&& 1 < self.num_pes() <= usize::MAX
        &&& self.at.len() == self.num_pes()
        &&& self.pes().len() == self.num_pes()
        &&& self.pes().no_duplicates()
        &&& forall|p: int|
            0 <= p < self.num_pes() ==> (#[trigger] self.parts[p]).wf() && self.parts[p].my_index
                == Some(p as usize) && self.parts[p].n == self.n() && self.parts[p].num_rounds
                == self.num_rounds() && self.parts[p].pes@ == self.pes()
                && self.parts[p].barrier_cnt > 0
        &&& forall|p: int|
            0 <= p < self.num_pes() && #[trigger] self.at[p] is Some ==> {
                let at = self.at[p]->0;
                at.id == self.parts[p].barrier_cnt - 1 && at.id > 0 && at.round
                    <= self.num_rounds()
            }
        &&& forall|from: int, put: Put| #[trigger]
            self.written.contains((from, put)) ==> self.put_ok(from, put)
    }
}

/// Whether no PE has entered: every part is one that was just set up for the
/// team.
pub open spec fn starts(s: Parts, factor: usize, team: LamellarTeamRT) -> bool {
    &&& team.wf()
    &&& s.num_pes() == team.pes@.len()
    &&& s.at.len() == s.num_pes()
    &&& forall|p: int|
        0 <= p < s.num_pes() ==> (#[trigger] s.parts[p]).wf() && s.parts[p].is_new(
            team.pes@[p],
            factor,
            team,
        )
    &&& forall|p: int| 0 <= p < s.num_pes() ==> #[trigger] s.at[p] is None
    &&& s.written == Set::<(int, Put)>::empty()
}

/// What the PEs' functions make of the parts.
pub open spec fn acts(s: Parts, t: Parts, a: Action) -> bool {
    match a {
        Action::Enter { pe } => {
            &&& 0 <= pe < s.num_pes()
            &&& s.at[pe] is None
            &&& s.parts[pe].barrier_cnt < usize::MAX
            &&& s.parts[pe].entered(t.parts[pe], false, t.at[pe])
            &&& t == (Parts {
                parts: s.parts.update(pe, t.parts[pe]),
                at: s.at.update(pe, t.at[pe]),
                ..s
            })
        },
        Action::Step { pe, step } => {
            &&& 0 <= pe < s.num_pes()
            &&& s.at[pe] matches Some(at)
            &&& exists|to: Progress| #[trigger]
                s.parts[pe].stepped(at, to, step) && t.at == s.at.update(
                    pe,
                    if step is Done {
                        None
                    } else {
                        Some(to)
                    },
                )
            &&& t.parts == s.parts
            &&& t.written == (match step {
                BarrierStep::Send(list) => s.written.union(
                    Set::new(|w: (int, Put)| w.0 == pe && list@.contains(w.1)),
                ),
                _ => s.written,
            })
        },
        Action::Arrive { from, to, put } => {
            &&& s.written.contains((from, put))
            &&& 0 <= to < s.num_pes()
            &&& s.parts[to].my_pe == put.pe
            &&& t.parts[to].wf()
            &&& s.parts[to].noted(t.parts[to], put.buf as int, put.slot as int, put.id)
            &&& t == (Parts { parts: s.parts.update(to, t.parts[to]), ..s })
        },
    }
}

/// Which event of the system an action is, if it is one.
pub open spec fn event_of(s: Parts, a: Action) -> Option<Event> {
    match a {
        Action::Enter { pe } => Some(Event::Enter { pe }),
        Action::Step { pe, step } => {
            let at = s.at[pe]->0;
            if at.round < s.num_rounds() && at.sent && step is Send {
                Some(Event::Advance { pe })
            } else {
                None
            }
        },
        Action::Arrive { from, to: _, put } => Some(
            Event::Tell {
                pe: from,
                k: put.buf as int,
                round: put.slot as int,
                id: put.id as int,
            },
        ),
    }
}

proof fn put_was_asked_for(b: Barrier, me: int, round: int, id: usize, upto: int, put: Put)
    requires
        b.puts(me, round, id, upto).contains(put),
        0 <= upto <= b.n,
        0 <= round <= usize::MAX,
    ensures
        put.slot == round,
        put.id == id,
        put.buf < upto,
        ({
            let to = barrier::send_pe(
                me,
                put.buf + 1,
                b.n as int,
                round as nat,
                b.pes@.len() as int,
            );
            to != me && put.pe == b.pes@[to]
        }),
    decreases upto,
{
    if upto > 0 {
        let front = b.puts(me, round, id, upto - 1);
        let all = b.puts(me, round, id, upto);
        let i = all.index_of(put);
        assert(all[i] == put);
        if i < front.len() {
            assert(front[i] == put);
            assert(front.contains(put));
            put_was_asked_for(b, me, round, id, upto - 1, put);
        }
    }
}

proof fn reached_stays(s: Parts, t: Parts, a: Action, p: int, id: int, r: int)
    requires
        s.wf(),
        acts(s, t, a),
        0 <= p < s.num_pes(),
        r <= s.num_rounds(),
        s.system().reached(p, id, r),
    ensures
        t.num_pes() == s.num_pes(),
        t.n() == s.n(),
        t.num_rounds() == s.num_rounds(),
        t.system().reached(p, id, r),
{
    assert(s.parts[p].wf() && s.parts[0].wf());
    match a {
        Action::Enter { pe } => {
            assert(s.parts[pe].wf());
        },
        Action::Step { pe, step } => {
            let at = s.at[pe]->0;
            let to = choose|to: Progress| #[trigger]
                s.parts[pe].stepped(at, to, step) && t.at == s.at.update(
                    pe,
                    if step is Done {
                        None
                    } else {
                        Some(to)
                    },
                );
            assert(s.parts[pe].wf());
            assert(at.round <= s.num_rounds());
        },
        Action::Arrive { from, to, put } => {
            assert(s.parts[to].wf());
        },
    }
}

/// The parts stay those of one barrier, whatever the PEs do.
pub proof fn parts_stay_in_order(s: Parts, t: Parts, a: Action)
    requires
        s.wf(),
        acts(s, t, a),
    ensures
        t.wf(),
        t.num_pes() == s.num_pes(),
        t.n() == s.n(),
        t.num_rounds() == s.num_rounds(),
{
    assert(s.parts[0].wf());
    reached_stays(s, t, a, 0, s.parts[0].barrier_cnt - 1, 0);
    assert forall|p: int| 0 <= p < t.num_pes() implies (#[trigger] t.parts[p]).wf()
        && t.parts[p].my_index == Some(p as usize) && t.parts[p].n == t.n()
        && t.parts[p].num_rounds == t.num_rounds() && t.parts[p].pes@ == t.pes()
        && t.parts[p].barrier_cnt > 0 by {
        assert(s.parts[p].wf());
    }
    assert forall|p: int| 0 <= p < t.num_pes() && #[trigger] t.at[p] is Some implies {
        let at = t.at[p]->0;
        at.id == t.parts[p].barrier_cnt - 1 && at.id > 0 && at.round <= t.num_rounds()
    } by {
        assert(s.parts[p].wf());
        assert(s.at[p] is Some ==> s.at[p]->0.id == s.parts[p].barrier_cnt - 1);
    }
    assert forall|from: int, put: Put| #[trigger] t.written.contains((from, put)) implies t.put_ok(
        from,
        put,
    ) by {
        if s.written.contains((from, put)) {
            assert(s.put_ok(from, put));
            reached_stays(s, t, a, from, put.id as int, put.slot as int);
        } else {
            match a {
                Action::Step { pe, step } => {
                    let at = s.at[pe]->0;
                    assert(s.parts[pe].wf());
                    assert(from == pe);
                    put_was_asked_for(
                        s.parts[pe],
                        pe,
                        at.round as int,
                        at.id,
                        s.n(),
                        put,
                    );
                    assert(s.system().reached(pe, at.id as int, at.round as int));
                    reached_stays(s, t, a, pe, at.id as int, at.round as int);
                },
                _ => {},
            }
        }
    }
}

/// What a PE's functions do is an event of the system, or changes nothing there:
/// `enter` is entering, `note_put` is what another PE tells, and a step of
/// `barrier` that finishes a round is that.
pub proof fn actions_are_events(s: Parts, t: Parts, a: Action)
    requires
        s.wf(),
        acts(s, t, a),
    ensures
        match event_of(s, a) {
            Some(e) => system::next(s.system(), t.system(), e),
            None => t.system() == s.system(),
        },
{
    parts_stay_in_order(s, t, a);
    let x = s.system();
    let y = t.system();
    match a {
        Action::Enter { pe } => {
            assert(s.parts[pe].wf());
            assert(y =~= System {
                entered: x.entered.update(pe, x.entered[pe] + 1),
                rounds: x.rounds.update(pe, 0),
                ..x
            }) by {
                assert(y.entered =~= x.entered.update(pe, x.entered[pe] + 1));
                assert(y.rounds =~= x.rounds.update(pe, 0));
                slots_equal(s, t);
            }
        },
        Action::Step { pe, step } => {
            let at = s.at[pe]->0;
            assert(s.parts[pe].wf());
            assert(y.entered =~= x.entered);
            slots_equal(s, t);
            if event_of(s, a) is Some {
                assert(y.rounds =~= x.rounds.update(pe, x.rounds[pe] + 1));
                assert forall|k: int| 0 <= k < x.n implies x.recv(pe, k, x.rounds[pe]) == pe
                    || #[trigger] x.slot(pe, k, x.rounds[pe]) >= x.entered[pe] by {
                    assert(s.parts[pe].told(pe, at.round as int, at.id));
                    assert(s.parts[pe].barrier_buf@[k]@[at.round as int] == x.slot(
                        pe,
                        k,
                        at.round as int,
                    ));
                }
            } else {
                assert(y.rounds =~= x.rounds);
            }
        },
        Action::Arrive { from, to, put } => {
            arrival_is_telling(s, t, from, to, put);
        },
    }
}

proof fn slots_equal(s: Parts, t: Parts)
    requires
        s.num_pes() == t.num_pes(),
        s.n() == t.n(),
        s.num_rounds() == t.num_rounds(),
        forall|p: int|
            0 <= p < s.num_pes() ==> (#[trigger] s.parts[p]).barrier_buf == t.parts[p].barrier_buf,
    ensures
        s.system().slots == t.system().slots,
{
    let x = s.system();
    let y = t.system();
    assert forall|p: int| 0 <= p < s.num_pes() implies x.slots[p] =~= y.slots[p] by {
        assert(s.parts[p].barrier_buf == t.parts[p].barrier_buf);
        assert forall|k: int| 0 <= k < s.n() implies x.slots[p][k] =~= y.slots[p][k] by {}
    }
    assert(x.slots =~= y.slots);
}

proof fn arrival_is_telling(s: Parts, t: Parts, from: int, to: int, put: Put)
    requires
        s.wf(),
        t.wf(),
        acts(s, t, Action::Arrive { from, to, put }),
        t.n() == s.n(),
        t.num_rounds() == s.num_rounds(),
    ensures
        system::next(
            s.system(),
            t.system(),
            Event::Tell {
                pe: from,
                k: put.buf as int,
                round: put.slot as int,
                id: put.id as int,
            },
        ),
{
    let x = s.system();
    let y = t.system();
    let k = put.buf as int;
    let r = put.slot as int;
    assert(s.put_ok(from, put));
    let there = x.send(from, k, r);
    lemma_mod_bound(from + (k + 1) * math::power(s.n() + 1, r as nat), s.num_pes() as int);
    assert(s.parts[to].wf() && s.parts[there].wf());
    assert(s.pes()[to] == s.pes()[there]);
    assert(there == to);
    let z = x.slots.update(to, x.slots[to].update(k, x.slots[to][k].update(r, put.id as int)));
    assert forall|p: int| 0 <= p < s.num_pes() implies y.slots[p] =~= z[p] by {
        assert forall|j: int| 0 <= j < s.n() implies y.slots[p][j] =~= z[p][j] by {
            if p == to {
                assert forall|i: int| 0 <= i < s.num_rounds() implies y.slots[p][j][i]
                    == z[p][j][i] by {
                    assert(t.parts[to].barrier_buf@[j]@[i] == if j == k && i == r {
                        put.id
                    } else {
                        s.parts[to].barrier_buf@[j]@[i]
                    });
                }
            } else {
                assert(t.parts[p] == s.parts[p]);
            }
        }
    }
    assert(y.slots =~= z);
    assert(y.entered =~= x.entered);
    assert(y.rounds =~= x.rounds);
}

/// Parts that were just set up are those of one barrier, and no PE has entered
/// it.
pub proof fn new_parts_start(s: Parts, factor: usize, team: LamellarTeamRT)
    requires
        starts(s, factor, team),
        team.pes@.len() > 1,
    ensures
        s.wf(),
        system::initial(s.system()),
        barrier::covers(s.n() + 1, s.num_rounds(), s.num_pes() as int),
{
    assert(s.parts[0].wf());
    assert(team.pes@.len() == team.pes.len());
    system::rounds_cover_team(factor, team.pes@.len() as int, s.num_rounds());
    assert forall|p: int| 0 <= p < s.num_pes() implies (#[trigger] s.parts[p]).my_index == Some(
        p as usize,
    ) && s.parts[p].n == s.n() && s.parts[p].num_rounds == s.num_rounds() by {
        assert(s.parts[p].wf() && s.parts[p].is_new(team.pes@[p], factor, team));
        assert(team.place_of(team.pes@[p]) == p) by {
            let place = team.place_of(team.pes@[p]);
            assert(team.pes@[place] == team.pes@[p]);
        }
        same_rounds(
            barrier::growth(factor, team.pes@.len() as int),
            s.parts[p].num_rounds as nat,
            s.num_rounds(),
            team.pes@.len() as int,
        );
    }
    let x = s.system();
    assert forall|p: int, k: int, r: int|
        0 <= p < x.num_pes() && 0 <= k < x.n && 0 <= r < x.num_rounds implies #[trigger] x.slot(
        p,
        k,
        r,
    ) == 0 by {
        assert(s.parts[p].my_index is Some);
        assert(s.parts[p].barrier_buf@[k]@[r] == 0);
    }
}

proof fn same_rounds(n: int, a: nat, b: nat, num_pes: int)
    requires
        n >= 2,
        barrier::least_cover(n, a, num_pes),
        barrier::least_cover(n, b, num_pes),
    ensures
        a == b,
{
    if a < b {
        powers_grow(n, a, (b - 1) as nat);
    } else if b < a {
        powers_grow(n, b, (a - 1) as nat);
    }
}

proof fn powers_grow(n: int, a: nat, b: nat)
    requires
        n >= 2,
        a <= b,
    ensures
        math::power(n, a) <= math::power(n, b),
    decreases b,
{
    if a < b {
        powers_grow(n, a, (b - 1) as nat);
        let x = math::power(n, (b - 1) as nat);
        math::power_positive(n, (b - 1) as nat);
        assert(x <= x * n) by (nonlinear_arith)
            requires
                n >= 2,
                x >= 1,
        ;
    }
}

/// A run of the parts, from when they were set up.
pub open spec fn is_run(
    states: Seq<Parts>,
    actions: Seq<Action>,
    factor: usize,
    team: LamellarTeamRT,
) -> bool {
    &&& states.len() == actions.len() + 1
    &&& starts(states[0], factor, team)
    &&& forall|i: int|
        0 <= i < actions.len() ==> acts(states[i], states[i + 1], #[trigger] actions[i])
}

proof fn run_stays_in_order(
    states: Seq<Parts>,
    actions: Seq<Action>,
    factor: usize,
    team: LamellarTeamRT,
    k: int,
)
    requires
        is_run(states, actions, factor, team),
        team.pes@.len() > 1,
        0 <= k < states.len(),
    ensures
        states[k].wf(),
        states[k].num_pes() == team.pes@.len(),
        system::invariant_holds(states[k].system()),
        barrier::covers(states[k].n() + 1, states[k].num_rounds(), states[k].num_pes() as int),
    decreases k,
{
    if k == 0 {
        new_parts_start(states[0], factor, team);
        system::invariant_starts(states[0].system());
    } else {
        run_stays_in_order(states, actions, factor, team, k - 1);
        let s = states[k - 1];
        let t = states[k];
        assert(acts(s, states[(k - 1) + 1], actions[k - 1]));
        parts_stay_in_order(s, t, actions[k - 1]);
        actions_are_events(s, t, actions[k - 1]);
        match event_of(s, actions[k - 1]) {
            Some(e) => {
                system::invariant_goes_on(s.system(), t.system(), e);
            },
            None => {},
        }
    }
}

/// A barrier holds every PE back until all have come: when a step says that a PE
/// is done with the barrier with number `id`, every PE of the team has entered
/// that barrier, so the number of its next one is larger.
pub proof fn done_when_all_have_entered(
    states: Seq<Parts>,
    actions: Seq<Action>,
    factor: usize,
    team: LamellarTeamRT,
    k: int,
    q: int,
)
    requires
        is_run(states, actions, factor, team),
        team.pes@.len() > 1,
        0 <= k < actions.len(),
        0 <= q < team.pes@.len(),
        actions[k] matches Action::Step { step, .. } && step is Done,
    ensures
        actions[k] matches Action::Step { pe, .. } && states[k].at[pe] matches Some(at)
            && states[k].parts[q].barrier_cnt > at.id,
{
    run_stays_in_order(states, actions, factor, team, k);
    let s = states[k];
    match actions[k] {
        Action::Step { pe, step } => {
            assert(acts(s, states[k + 1], actions[k]));
            let at = s.at[pe]->0;
            assert(s.parts[pe].wf());
            system::everyone_entered(s.system(), pe, q, at.id as int);
        },
        _ => {},
    }
}

} // verus!
