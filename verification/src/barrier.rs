//! A barrier of a team: no PE leaves it before every PE has entered it.
//!
//! In each round a PE tells `n` others that it has come, at distances that grow
//! by the factor `n + 1`, and waits until `n` others have told it. What has
//! reached a PE after a round it passes on in the next.

use vstd::arithmetic::div_mod::*;
use vstd::prelude::*;

use crate::lamellae::AllocationType;
use crate::lamellar_team::LamellarTeamRT;
use crate::math;

pub mod steps;
pub mod system;

verus! {

/// How many PEs each PE tells in a round, if nothing else is asked for.
pub const DISSEMINATION_FACTOR: usize = 2;

/// Whether `n` to the power of `rounds` is at least `num_pes`.
pub open spec fn covers(n: int, rounds: nat, num_pes: int) -> bool {
    math::power(n, rounds) >= num_pes
}

/// Whether `rounds` is the least number of rounds that covers all PEs when
/// each round multiplies by `n`.
pub open spec fn least_cover(n: int, rounds: nat, num_pes: int) -> bool {
    &&& covers(n, rounds, num_pes)
    &&& rounds > 0 ==> !covers(n, (rounds - 1) as nat, num_pes)
}

/// How many PEs each PE tells in a round when `factor` is asked for: small
/// teams, and a factor below two, use one.
pub open spec fn factor_used(factor: usize, num_pes: int) -> usize {
    if factor > 1 && num_pes > 2 {
        factor
    } else {
        1
    }
}

/// By which number the count of rounds goes: with one PE told per round, what
/// is known doubles.
pub open spec fn growth(factor: usize, num_pes: int) -> int {
    if factor > 1 && num_pes > 2 {
        factor as int
    } else {
        2
    }
}

/// Which PE is told in a round as number `i`.
pub open spec fn send_pe(me: int, i: int, n: int, round: nat, num_pes: int) -> int {
    (me + i * math::power(n + 1, round)) % num_pes
}

/// Which PE tells in a round as number `i`.
pub open spec fn recv_pe(me: int, i: int, n: int, round: nat, num_pes: int) -> int {
    (me - i * math::power(n + 1, round)) % num_pes
}

/// A number to be written on another PE: into which buffer, at which place.
#[derive(Clone, Copy, Debug, PartialEq, Eq, Structural)]
pub struct Put {
    pub pe: usize,
    pub buf: usize,
    pub slot: usize,
    pub id: usize,
}

/// One PE's part of a barrier.
pub struct Barrier {
    /// This PE's place in the world.
    pub my_pe: usize,
    /// The members of the team, by their places in the world.
    pub pes: Vec<usize>,
    /// This PE's place in the team, if it takes part.
    pub my_index: Option<usize>,
    /// How many PEs each PE tells in a round.
    pub n: usize,
    pub num_rounds: usize,
    /// The number of the next barrier.
    pub barrier_cnt: usize,
    /// What other PEs have written here, for each of the `n`, for each round.
    pub barrier_buf: Vec<Vec<usize>>,
}

/// Computes the least number of rounds.
fn rounds_for(n: usize, num_pes: usize) -> (r: usize)
    requires
        n >= 2,
    ensures
        least_cover(n as int, r as nat, num_pes as int),
        r <= 64,
{
    let mut r: usize = 0;
    let mut p: u128 = 1;
    let ghost mut two: int = 1;
    while p < num_pes as u128
        invariant
            n >= 2,
            p == math::power(n as int, r as nat),
            r > 0 ==> !covers(n as int, (r - 1) as nat, num_pes as int),
            r <= 64,
            two == math::power(2, r as nat),
            1 <= two <= p,
        decreases 64 - r,
    {
        proof {
            assert(p * n <= 0xffff_ffff_ffff_ffff * 0xffff_ffff_ffff_ffff) by (nonlinear_arith)
                requires
                    p <= 0xffff_ffff_ffff_ffff,
                    n <= 0xffff_ffff_ffff_ffff,
            ;
            if r == 64 {
                assert(math::power(2, 64) == 0x1_0000_0000_0000_0000) by {
                    reveal_with_fuel(math::power, 65);
                }
            }
            assert(two * 2 <= p * n) by (nonlinear_arith)
                requires
                    1 <= two <= p,
                    n >= 2,
            ;
            assert(math::power(n as int, (r + 1) as nat) == math::power(n as int, r as nat) * n);
            assert(math::power(2, (r + 1) as nat) == math::power(2, r as nat) * 2);
            two = two * 2;
        }
        p = p * (n as u128);
        r = r + 1;
    }
    r
}

/// Puts numbers into order.
fn sorted(list: &Vec<usize>) -> (r: Vec<usize>)
    ensures
        r@.to_multiset() == list@.to_multiset(),
        forall|i: int, j: int| 0 <= i <= j < r@.len() ==> r@[i] <= r@[j],
{
    broadcast use vstd::seq_lib::group_to_multiset_ensures;

    let mut r: Vec<usize> = Vec::new();
    let mut k: usize = 0;
    assert(list@.take(0) == Seq::<usize>::empty());
    while k < list.len()
        invariant
            k <= list@.len(),
            r@.to_multiset() == list@.take(k as int).to_multiset(),
            forall|i: int, j: int| 0 <= i <= j < r@.len() ==> r@[i] <= r@[j],
        decreases list@.len() - k,
    {
        let x: usize = list[k];
        let mut at: usize = 0;
        while at < r.len() && r[at] <= x
            invariant
                at <= r@.len(),
                forall|i: int| 0 <= i < at ==> r@[i] <= x,
            decreases r@.len() - at,
        {
            at = at + 1;
        }
        let ghost before = r@;
        r.insert(at, x);
        proof {
            broadcast use vstd::seq_lib::group_to_multiset_ensures;

            assert(r@ == before.insert(at as int, x));
            vstd::seq_lib::to_multiset_insert(before, at as int, x);
            assert(list@.take(k as int + 1) == list@.take(k as int).push(x));
            assert(list@.take(k as int).push(x).to_multiset() == list@.take(
                k as int,
            ).to_multiset().insert(x));
            assert forall|i: int, j: int| 0 <= i <= j < r@.len() implies r@[i] <= r@[j] by {
                let a = if i < at {
                    i
                } else {
                    i - 1
                };
                let b = if j < at {
                    j
                } else {
                    j - 1
                };
                if i != at && j != at {
                    assert(before[a] <= before[b]);
                } else if i == at && j > at {
                    assert(before[at as int] <= before[b]);
                }
            }
        }
        k = k + 1;
    }
    assert(list@.take(k as int) == list@);
    r
}

/// Computes a power's remainder.
fn power_mod(b: u128, e: usize, m: usize) -> (r: usize)
    requires
        0 < m,
        b <= 0x1_0000_0000_0000_0000,
    ensures
        r == math::power(b as int, e as nat) % (m as int),
        r < m,
{
    let mut r: u128 = 1 % (m as u128);
    let mut k: usize = 0;
    while k < e
        invariant
            0 < m,
            k <= e,
            b <= 0x1_0000_0000_0000_0000,
            r == math::power(b as int, k as nat) % (m as int),
            r < m,
        decreases e - k,
    {
        proof {
            assert(r * b <= 0xffff_ffff_ffff_ffff * 0x1_0000_0000_0000_0000) by (nonlinear_arith)
                requires
                    r <= 0xffff_ffff_ffff_ffff,
                    b <= 0x1_0000_0000_0000_0000,
            ;
            lemma_mul_mod_noop_left(math::power(b as int, k as nat), b as int, m as int);
            assert(math::power(b as int, (k + 1) as nat) == math::power(b as int, k as nat) * b);
            lemma_mod_bound(r * b, m as int);
        }
        r = (r * b) % (m as u128);
        k = k + 1;
    }
    r as usize
}

/// What a step of a barrier asks for.
#[derive(Debug)]
pub enum BarrierStep {
    /// Write these numbers on other PEs, then go on with the same round's
    /// waiting.
    Send(Vec<Put>),
    /// Look again later.
    Wait,
    /// Everyone has entered.
    Done,
}

/// How far a PE is in a barrier: rounds that are done, and whether it has told
/// others in the round that comes next.
#[derive(Clone, Copy, Debug, PartialEq, Eq, Structural)]
pub struct Progress {
    pub id: usize,
    pub round: usize,
    pub sent: bool,
}

impl Barrier {
    pub open spec fn wf(self) -> bool {
        &&& self.n >= 1
        &&& self.num_rounds <= 64
        &&& self.my_index matches Some(me) ==> {
            &&& me < self.pes@.len()
            &&& self.pes@.len() > 1
            &&& self.pes@[me as int] == self.my_pe
            &&& self.barrier_buf@.len() == self.n
            &&& forall|i: int|
                0 <= i < self.n ==> (#[trigger] self.barrier_buf@[i])@.len() == self.num_rounds
        }
    }

    /// Whether this is a PE's part of a barrier that no PE has entered.
    pub open spec fn is_new(self, my_pe: usize, factor: usize, team: LamellarTeamRT) -> bool {
        let num_pes = team.pes@.len() as int;
        &&& self.my_pe == my_pe
        &&& self.pes@ == team.pes@
        &&& self.n == factor_used(factor, num_pes)
        &&& least_cover(growth(factor, num_pes), self.num_rounds as nat, num_pes)
        &&& self.barrier_cnt == 1
        &&& self.my_index == (if team.has_member(my_pe) && num_pes > 1 {
            Some(team.place_of(my_pe) as usize)
        } else {
            None::<usize>
        })
        &&& self.my_index is Some ==> forall|i: int, j: int|
            0 <= i < self.n && 0 <= j < self.num_rounds ==> #[trigger] self.barrier_buf@[i]@[j]
                == 0
    }

    /// Sets up a PE's part of a barrier, and says who takes part in allocating
    /// its buffers: no one, if there is no other PE or this PE is not a member.
    pub fn new(my_pe: usize, global_pes: usize, factor: usize, team: &LamellarTeamRT) -> (r: (
        Barrier,
        Option<AllocationType>,
    ))
        requires
            team.wf(),
        ensures
            r.0.wf(),
            r.0.is_new(my_pe, factor, *team),
            r.0.my_pe == my_pe,
            r.0.pes@ == team.pes@,
            r.0.barrier_cnt == 1,
            r.0.my_index is Some <==> team.pes@.len() > 1 && team.pes@.contains(my_pe),
            r.0.my_index matches Some(me) ==> team.pes@[me as int] == my_pe,
            factor > 1 && team.pes@.len() > 2 ==> {
                &&& r.0.n == factor
                &&& math::power(factor as int, r.0.num_rounds as nat) >= team.pes@.len()
                &&& r.0.num_rounds > 0 ==> math::power(
                    factor as int,
                    (r.0.num_rounds - 1) as nat,
                ) < team.pes@.len()
            },
            factor <= 1 || team.pes@.len() <= 2 ==> {
                &&& r.0.n == 1
                &&& math::power(2, r.0.num_rounds as nat) >= team.pes@.len()
                &&& r.0.num_rounds > 0 ==> math::power(2, (r.0.num_rounds - 1) as nat)
                    < team.pes@.len()
            },
            r.0.my_index is None ==> r.0.barrier_buf@.len() == 0 && r.1 is None,
            r.0.my_index is Some && global_pes == team.pes@.len() ==> r.1 == Some(
                AllocationType::Global,
            ),
            r.0.my_index is Some && global_pes != team.pes@.len() ==> (r.1 matches Some(
                AllocationType::Sub(pes),
            ) && pes@.to_multiset() == team.pes@.to_multiset() && forall|i: int, j: int|
                0 <= i <= j < pes@.len() ==> pes@[i] <= pes@[j]),
    {
        let num_pes: usize = team.num_pes();
        let n: usize = if factor > 1 && num_pes > 2 {
            factor
        } else {
            1
        };
        let num_rounds: usize = if factor > 1 && num_pes > 2 {
            rounds_for(factor, num_pes)
        } else {
            rounds_for(2, num_pes)
        };
        let mut my_index: Option<usize> = None;
        let mut alloc: Option<AllocationType> = None;
        let mut barrier_buf: Vec<Vec<usize>> = Vec::new();
        if let Ok(me) = team.team_pe(my_pe) {
            if num_pes > 1 {
                my_index = Some(me);
                alloc = Some(
                    if global_pes == num_pes {
                        AllocationType::Global
                    } else {
                        AllocationType::Sub(sorted(&team.pes))
                    },
                );
                let mut k: usize = 0;
                while k < n
                    invariant
                        k <= n,
                        barrier_buf@.len() == k,
                        forall|i: int|
                            0 <= i < k ==> (#[trigger] barrier_buf@[i])@ == Seq::new(
                                num_rounds as nat,
                                |j: int| 0usize,
                            ),
                    decreases n - k,
                {
                    let mut buf: Vec<usize> = Vec::new();
                    let mut j: usize = 0;
                    while j < num_rounds
                        invariant
                            j <= num_rounds,
                            buf@ == Seq::new(j as nat, |x: int| 0usize),
                        decreases num_rounds - j,
                    {
                        buf.push(0);
                        j = j + 1;
                        assert(buf@ =~= Seq::new(j as nat, |x: int| 0usize));
                    }
                    barrier_buf.push(buf);
                    k = k + 1;
                }
            }
        }
        let mut pes: Vec<usize> = Vec::new();
        let mut i: usize = 0;
        while i < team.pes.len()
            invariant
                i <= team.pes@.len(),
                pes@ == team.pes@.take(i as int),
            decreases team.pes@.len() - i,
        {
            pes.push(team.pes[i]);
            i = i + 1;
            assert(pes@ == team.pes@.take(i as int));
        }
        assert(team.pes@.take(i as int) == team.pes@);
        (Barrier { my_pe, pes, my_index, n, num_rounds, barrier_cnt: 1, barrier_buf }, alloc)
    }

    /// What entering makes of a PE's part, and where the PE then is.
    pub open spec fn entered(self, after: Barrier, panicked: bool, at: Option<Progress>) -> bool {
        &&& at == (if !panicked && self.my_index is Some {
            Some(Progress { id: self.barrier_cnt, round: 0, sent: false })
        } else {
            None::<Progress>
        })
        &&& after == (Barrier {
            barrier_cnt: if at is Some {
                (self.barrier_cnt + 1) as usize
            } else {
                self.barrier_cnt
            },
            ..self
        })
    }

    /// Enters the barrier. A PE that does not take part, or whose team has
    /// failed, passes at once.
    pub fn enter(&mut self, panicked: bool) -> (r: Option<Progress>)
        requires
            old(self).wf(),
            old(self).barrier_cnt < usize::MAX,
        ensures
            final(self).wf(),
            old(self).entered(*final(self), panicked, r),
            r is Some <==> !panicked && old(self).my_index is Some,
            r matches Some(at) ==> at.id == old(self).barrier_cnt && at.round == 0 && !at.sent
                && final(self).barrier_cnt == old(self).barrier_cnt + 1,
            r is None ==> *final(self) == *old(self),
            final(self).barrier_buf == old(self).barrier_buf,
    {
        if panicked || self.my_index.is_none() {
            return None;
        }
        let id: usize = self.barrier_cnt;
        self.barrier_cnt = id + 1;
        Some(Progress { id, round: 0, sent: false })
    }

    /// The PE that is told in a round as number `i`, by its place in the team.
    pub fn send_to(&self, me: usize, i: usize, round: usize) -> (pe: usize)
        requires
            self.wf(),
            me < self.pes@.len(),
            i <= self.n,
        ensures
            pe == send_pe(me as int, i as int, self.n as int, round as nat, self.pes@.len() as int),
            pe == (me + i * math::power(self.n + 1, round as nat)) % self.pes@.len() as int,
            pe < self.pes@.len(),
    {
        let p: usize = self.pes.len();
        let step: usize = power_mod(self.n as u128 + 1, round, p);
        let ghost full = math::power(self.n + 1, round as nat);
        proof {
            assert(i * step <= 0xffff_ffff_ffff_ffff * 0xffff_ffff_ffff_fffe) by (nonlinear_arith)
                requires
                    0 <= i <= 0xffff_ffff_ffff_ffff,
                    0 <= step <= 0xffff_ffff_ffff_fffe,
            ;
            lemma_mul_mod_noop_right(i as int, full, p as int);
            lemma_add_mod_noop(me as int, i * step, p as int);
            lemma_add_mod_noop(me as int, i * full, p as int);
            lemma_mod_bound(me + i * step, p as int);
        }
        ((me as u128 + (i as u128) * (step as u128)) % (p as u128)) as usize
    }

    /// The PE that tells in a round as number `i`, by its place in the team.
    pub fn recv_from(&self, me: usize, i: usize, round: usize) -> (pe: usize)
        requires
            self.wf(),
            me < self.pes@.len(),
            i <= self.n,
        ensures
            pe == recv_pe(me as int, i as int, self.n as int, round as nat, self.pes@.len() as int),
            pe == (me - i * math::power(self.n + 1, round as nat)) % self.pes@.len() as int,
            pe < self.pes@.len(),
    {
        let p: usize = self.pes.len();
        let step: usize = power_mod(self.n as u128 + 1, round, p);
        let ghost full = math::power(self.n + 1, round as nat);
        proof {
            assert(i * step <= 0xffff_ffff_ffff_ffff * 0xffff_ffff_ffff_fffe) by (nonlinear_arith)
                requires
                    0 <= i <= 0xffff_ffff_ffff_ffff,
                    0 <= step <= 0xffff_ffff_ffff_fffe,
            ;
            lemma_mul_mod_noop_right(i as int, full, p as int);
            lemma_mod_bound(i * step, p as int);
        }
        let back: usize = (((i as u128) * (step as u128)) % (p as u128)) as usize;
        proof {
            lemma_sub_mod_noop_right(me as int, i * full, p as int);
            lemma_mod_multiples_vanish(1, me - back, p as int);
            lemma_mod_bound(me + p - back, p as int);
        }
        ((me as u128 + p as u128 - back as u128) % (p as u128)) as usize
    }

    /// What this PE tells others in a round of the barrier with number `id`.
    pub open spec fn puts(self, me: int, round: int, id: usize, upto: int) -> Seq<Put>
        decreases upto,
    {
        if upto <= 0 {
            Seq::empty()
        } else {
            let front = self.puts(me, round, id, upto - 1);
            let to = send_pe(me, upto, self.n as int, round as nat, self.pes@.len() as int);
            if to != me {
                front.push(
                    Put {
                        pe: self.pes@[to],
                        buf: (upto - 1) as usize,
                        slot: round as usize,
                        id,
                    },
                )
            } else {
                front
            }
        }
    }

    proof fn put_is_there(self, me: int, round: usize, id: usize, upto: int, i: int)
        requires
            1 <= i <= upto,
            send_pe(me, i, self.n as int, round as nat, self.pes@.len() as int) != me,
        ensures
            self.puts(me, round as int, id, upto).contains(
                (Put {
                    pe: self.pes@[send_pe(
                        me,
                        i,
                        self.n as int,
                        round as nat,
                        self.pes@.len() as int,
                    )],
                    buf: (i - 1) as usize,
                    slot: round,
                    id,
                }),
            ),
        decreases upto,
    {
        let list = self.puts(me, round as int, id, upto);
        let front = self.puts(me, round as int, id, upto - 1);
        if i == upto {
            assert(list.last() == list[list.len() - 1]);
        } else {
            self.put_is_there(me, round, id, upto - 1, i);
            let put = Put {
                pe: self.pes@[send_pe(me, i, self.n as int, round as nat, self.pes@.len() as int)],
                buf: (i - 1) as usize,
                slot: round,
                id,
            };
            let k = front.index_of(put);
            assert(list[k] == put);
        }
    }

    proof fn only_these_are_told(self, me: int, round: usize, id: usize, upto: int)
        requires
            0 <= upto <= self.n,
        ensures
            forall|j: int|
                0 <= j < self.puts(me, round as int, id, upto).len() ==> {
                    let put = #[trigger] self.puts(me, round as int, id, upto)[j];
                    let to = send_pe(
                        me,
                        put.buf + 1,
                        self.n as int,
                        round as nat,
                        self.pes@.len() as int,
                    );
                    &&& put.buf < upto
                    &&& put.slot == round
                    &&& put.id == id
                    &&& to != me
                    &&& put.pe == self.pes@[to]
                },
            forall|j: int, k: int|
                0 <= j < k < self.puts(me, round as int, id, upto).len() ==> (#[trigger] self.puts(
                    me,
                    round as int,
                    id,
                    upto,
                )[j]).buf < (#[trigger] self.puts(me, round as int, id, upto)[k]).buf,
        decreases upto,
    {
        if upto > 0 {
            self.only_these_are_told(me, round, id, upto - 1);
            let list = self.puts(me, round as int, id, upto);
            let front = self.puts(me, round as int, id, upto - 1);
            assert(forall|j: int| 0 <= j < front.len() ==> list[j] == #[trigger] front[j]);
        }
    }

    proof fn all_are_told(self, me: int, round: usize, id: usize)
        ensures
            forall|i: int|
                #![trigger send_pe(me, i, self.n as int, round as nat, self.pes@.len() as int)]
                1 <= i <= self.n && send_pe(
                    me,
                    i,
                    self.n as int,
                    round as nat,
                    self.pes@.len() as int,
                ) != me ==> self.puts(me, round as int, id, self.n as int).contains(
                    (Put {
                        pe: self.pes@[send_pe(
                            me,
                            i,
                            self.n as int,
                            round as nat,
                            self.pes@.len() as int,
                        )],
                        buf: (i - 1) as usize,
                        slot: round,
                        id,
                    }),
                ),
    {
        assert forall|i: int|
            #![trigger send_pe(me, i, self.n as int, round as nat, self.pes@.len() as int)]
            1 <= i <= self.n && send_pe(
                me,
                i,
                self.n as int,
                round as nat,
                self.pes@.len() as int,
            ) != me implies self.puts(me, round as int, id, self.n as int).contains(
            (Put {
                pe: self.pes@[send_pe(me, i, self.n as int, round as nat, self.pes@.len() as int)],
                buf: (i - 1) as usize,
                slot: round,
                id,
            }),
        ) by {
            self.put_is_there(me, round, id, self.n as int, i);
        }
    }

    /// Whether everyone who tells this PE in a round has done so.
    pub open spec fn told(self, me: int, round: int, id: usize) -> bool {
        forall|k: int|
            0 <= k < self.n ==> recv_pe(
                me,
                k + 1,
                self.n as int,
                round as nat,
                self.pes@.len() as int,
            ) == me || #[trigger] self.barrier_buf@[k]@[round] >= id
    }

    /// What another PE's number makes of a PE's part.
    pub open spec fn noted(self, after: Barrier, buf: int, slot: int, id: usize) -> bool {
        &&& after.my_pe == self.my_pe
        &&& after.pes == self.pes
        &&& after.my_index == self.my_index
        &&& after.n == self.n
        &&& after.num_rounds == self.num_rounds
        &&& after.barrier_cnt == self.barrier_cnt
        &&& forall|i: int, j: int|
            0 <= i < self.n && 0 <= j < self.num_rounds ==> #[trigger] after.barrier_buf@[i]@[j]
                == if i == buf && j == slot {
                id
            } else {
                self.barrier_buf@[i]@[j]
            }
    }

    /// Another PE writes a number here.
    pub fn note_put(&mut self, buf: usize, slot: usize, id: usize)
        requires
            old(self).wf(),
            old(self).my_index is Some,
            buf < old(self).n,
            slot < old(self).num_rounds,
        ensures
            final(self).wf(),
            old(self).noted(*final(self), buf as int, slot as int, id),
            final(self).barrier_buf@[buf as int]@[slot as int] == id,
            forall|i: int, j: int|
                0 <= i < old(self).n && 0 <= j < old(self).num_rounds && (i != buf || j != slot)
                    ==> #[trigger] final(self).barrier_buf@[i]@[j] == old(self).barrier_buf@[i]@[j],
    {
        self.barrier_buf[buf].set(slot, id);
    }

    /// Where a PE is after a step, and what the step asks for.
    pub open spec fn stepped(self, at: Progress, to: Progress, step: BarrierStep) -> bool {
        let me = self.my_index->0 as int;
        if at.round == self.num_rounds {
            to == at && step is Done
        } else if !at.sent {
            &&& to == (Progress { sent: true, ..at })
            &&& step matches BarrierStep::Send(list)
            &&& list@ == self.puts(me, at.round as int, at.id, self.n as int)
        } else if self.told(me, at.round as int, at.id) {
            &&& to == (Progress { round: (at.round + 1) as usize, sent: false, id: at.id })
            &&& step matches BarrierStep::Send(list)
            &&& list@.len() == 0
        } else {
            to == at && step is Wait
        }
    }

    /// One step of a barrier.
    pub fn barrier(&self, at: Progress) -> (r: (Progress, BarrierStep))
        requires
            self.wf(),
            self.my_index is Some,
            at.round <= self.num_rounds,
        ensures
            r.0.round <= self.num_rounds,
            self.stepped(at, r.0, r.1),
            r.0.id == at.id,
            r.1 is Done <==> at.round == self.num_rounds,
            r.1 is Done ==> r.0 == at,
            // A round that has not told others yet tells them.
            at.round < self.num_rounds && !at.sent ==> r.0.round == at.round && r.0.sent && r.1 is Send,
            // A round in which others have been told ends as soon as all have told
            // this PE, and not before.
            at.round < self.num_rounds && at.sent ==> {
                let all_told = forall|k: int|
                    0 <= k < self.n ==> (self.my_index->0 - (k + 1) * math::power(
                        self.n + 1,
                        at.round as nat,
                    )) % self.pes@.len() as int == self.my_index->0
                        || #[trigger] self.barrier_buf@[k]@[at.round as int] >= at.id;
                &&& all_told ==> r.0.round == at.round + 1 && !r.0.sent
                &&& !all_told ==> r.0 == at && r.1 is Wait
            },
            // Each PE that is told is told in its own buffer, for this round, the number
            // of this barrier.
            r.1 matches BarrierStep::Send(list) ==> (!at.sent ==> (forall|i: int|
                1 <= i <= self.n && #[trigger] send_pe(
                    self.my_index->0 as int,
                    i,
                    self.n as int,
                    at.round as nat,
                    self.pes@.len() as int,
                ) != self.my_index->0 ==> list@.contains(
                    (Put {
                        pe: self.pes@[(self.my_index->0 + i * math::power(
                            self.n + 1,
                            at.round as nat,
                        )) % self.pes@.len() as int],
                        buf: (i - 1) as usize,
                        slot: at.round,
                        id: at.id,
                    }),
                ))),
            // No other is told anything, and none twice in one buffer.
            r.1 matches BarrierStep::Send(list) ==> (!at.sent ==> (forall|j: int|
                0 <= j < list@.len() ==> {
                    let put = #[trigger] list@[j];
                    let to = (self.my_index->0 + (put.buf + 1) * math::power(
                        self.n + 1,
                        at.round as nat,
                    )) % self.pes@.len() as int;
                    &&& put.buf < self.n
                    &&& put.slot == at.round
                    &&& put.id == at.id
                    &&& to != self.my_index->0
                    &&& put.pe == self.pes@[to]
                }) && (forall|j: int, k: int|
                0 <= j < k < list@.len() ==> (#[trigger] list@[j]).buf < (
                #[trigger] list@[k]).buf)),
            r.1 matches BarrierStep::Send(list) ==> (at.sent ==> list@.len() == 0),
    {
        proof {
            self.only_these_are_told(
                self.my_index->0 as int,
                at.round,
                at.id,
                self.n as int,
            );
            self.all_are_told(self.my_index->0 as int, at.round, at.id);
        }
        let me: usize = match self.my_index {
            Some(me) => me,
            None => 0,
        };
        if at.round == self.num_rounds {
            return (at, BarrierStep::Done);
        }
        if !at.sent {
            let mut list: Vec<Put> = Vec::new();
            let mut i: usize = 0;
            while i < self.n
                invariant
                    self.wf(),
                    self.my_index == Some(me),
                    i <= self.n,
                    list@ == self.puts(me as int, at.round as int, at.id, i as int),
                decreases self.n - i,
            {
                i = i + 1;
                let to: usize = self.send_to(me, i, at.round);
                if to != me {
                    list.push(Put { pe: self.pes[to], buf: i - 1, slot: at.round, id: at.id });
                }
            }
            return (Progress { sent: true, ..at }, BarrierStep::Send(list));
        }
        let mut i: usize = 0;
        while i < self.n
            invariant
                self.wf(),
                self.my_index == Some(me),
                at.round < self.num_rounds,
                at.sent,
                i <= self.n,
                forall|k: int|
                    0 <= k < i ==> recv_pe(
                        me as int,
                        k + 1,
                        self.n as int,
                        at.round as nat,
                        self.pes@.len() as int,
                    ) == me || #[trigger] self.barrier_buf@[k]@[at.round as int] >= at.id,
            decreases self.n - i,
        {
            i = i + 1;
            let from: usize = self.recv_from(me, i, at.round);
            if from != me && self.barrier_buf[i - 1][at.round] < at.id {
                assert(!(self.barrier_buf@[i - 1]@[at.round as int] >= at.id));
                return (at, BarrierStep::Wait);
            }
        }
        (
            Progress { round: at.round + 1, sent: false, id: at.id },
            BarrierStep::Send(Vec::new()),
        )
    }
}

/// The PE that is told by another in a round is told by that one alone: who
/// sends to whom, and who receives from whom, is the same relation.
pub proof fn sends_and_receives_match(p: int, q: int, i: int, n: int, round: nat, num_pes: int)
    requires
        0 <= p < num_pes,
        0 <= q < num_pes,
    ensures
        send_pe(p, i, n, round, num_pes) == q <==> recv_pe(q, i, n, round, num_pes) == p,
{
    let d = i * math::power(n + 1, round);
    lemma_small_mod(p as nat, num_pes as nat);
    lemma_small_mod(q as nat, num_pes as nat);
    lemma_mod_equivalence(p + d, q, num_pes);
    lemma_mod_equivalence(q - d, p, num_pes);
    lemma_mod_equivalence(p + d - q, 0, num_pes);
    if (p + d) % num_pes == q {
        lemma_sub_mod_noop(p + d, d, num_pes);
        lemma_sub_mod_noop(q, d, num_pes);
        assert((p + d) % num_pes == q % num_pes);
        assert(p + d - d == p);
    }
    if (q - d) % num_pes == p {
        lemma_add_mod_noop(q - d, d, num_pes);
        lemma_add_mod_noop(p, d, num_pes);
        assert((q - d) % num_pes == p % num_pes);
        assert(q - d + d == q);
    }
}

} // verus!
