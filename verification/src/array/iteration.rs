//! How the elements that live on one PE are divided among its workers.

use vstd::arithmetic::div_mod::*;
use vstd::prelude::*;

use crate::array::unsafe_array::UnsafeArrayInner;
use crate::array::Distribution;

verus! {

/// How elements are divided among workers.
#[derive(Clone, Copy, Debug, PartialEq, Eq, Structural)]
pub enum Schedule {
    /// Each worker gets one range.
    Static,
    /// Workers take element by element.
    Dynamic,
    /// Workers take ranges of a given length.
    Chunk(usize),
    /// Workers take ranges that become shorter.
    Guided,
    /// Each worker gets one range, and takes from others when it is done.
    WorkStealing,
}

/// A range of elements, without its end.
#[derive(Clone, Copy, Debug, PartialEq, Eq, Structural)]
pub struct ElemRange {
    pub start: usize,
    pub end: usize,
}

/// Whether a list of numbers starts at zero, goes up, and reaches `span`.
pub open spec fn are_cuts(table: Seq<usize>, span: int) -> bool {
    &&& table.len() > 0
    &&& table[0] == 0
    &&& forall|i: int, j: int| 0 <= i < j < table.len() ==> table[i] < table[j]
    &&& table[table.len() - 1] >= span
}

/// How many elements lie between two cuts that follow each other.
pub open spec fn gap(table: Seq<usize>, k: int) -> int {
    table[k + 1] - table[k]
}

/// An even share, rounded down; at least one.
pub open spec fn least_share(span: int, workers: int) -> int {
    if span < workers {
        1
    } else {
        span / workers
    }
}

/// An even share, rounded up; at least one.
pub open spec fn most_share(span: int, workers: int) -> int {
    if span < workers {
        1
    } else {
        (span + workers - 1) / workers
    }
}

/// Whether cuts give each worker one even share, or none if there are fewer
/// elements than workers.
pub open spec fn is_even(table: Seq<usize>, span: int, workers: int) -> bool {
    &&& table.len() <= workers + 1
    &&& forall|k: int|
        0 <= k < table.len() - 1 ==> least_share(span, workers) <= #[trigger] gap(table, k)
            <= most_share(span, workers)
}

/// Whether all cuts of a table are as far apart, but for one.
pub open spec fn is_regular(table: Seq<usize>) -> bool {
    forall|i: int, j: int|
        0 <= i < table.len() - 1 && 0 <= j < table.len() - 1 ==> #[trigger] gap(table, i)
            <= #[trigger] gap(table, j) + 1
}

/// Whether no cuts of the second table are farther apart than cuts of the first.
pub open spec fn is_shorter(a: Seq<usize>, b: Seq<usize>) -> bool {
    forall|i: int, j: int|
        0 <= i < a.len() - 1 && 0 <= j < b.len() - 1 ==> #[trigger] gap(b, j) <= #[trigger] gap(
            a,
            i,
        )
}

/// Where a span of elements is cut: the multiples of an even share, rounded.
/// How they are rounded is up to whoever makes the table.
#[derive(Debug)]
pub struct Cuts {
    table: Vec<usize>,
    span: usize,
}

impl View for Cuts {
    type V = Seq<usize>;

    closed spec fn view(&self) -> Seq<usize> {
        self.table@
    }
}

impl Cuts {
    /// How many elements the cuts are for.
    pub closed spec fn spec_span(self) -> int {
        self.span as int
    }

    pub open spec fn wf(self) -> bool {
        are_cuts(self@, self.spec_span())
    }

    /// Takes a table, if it is one for this many elements.
    pub fn new(table: Vec<usize>, span: usize) -> (r: Option<Cuts>)
        ensures
            r is Some <==> are_cuts(table@, span as int),
            r is Some <==> table@.len() > 0 && table@[0] == 0 && table@[table@.len() - 1] >= span && (
            forall|i: int, j: int| 0 <= i < j < table@.len() ==> table@[i] < table@[j]),
            r matches Some(c) ==> c.wf() && c@ == table@ && c.spec_span() == span,
    {
        if table.len() == 0 || table[0] != 0 || table[table.len() - 1] < span {
            return None;
        }
        let mut k: usize = 0;
        while k < table.len() - 1
            invariant
                k < table@.len(),
                forall|i: int, j: int| 0 <= i < j <= k ==> table@[i] < table@[j],
            decreases table@.len() - k,
        {
            if table[k + 1] <= table[k] {
                assert(table@[k as int] >= table@[k + 1]);
                return None;
            }
            k = k + 1;
        }
        Some(Cuts { table, span })
    }

    /// How far cuts that follow each other are apart, at least and at most. None
    /// if there are no two cuts.
    fn gaps(&self) -> (r: Option<(usize, usize)>)
        requires
            self.wf(),
        ensures
            match r {
                None => self@.len() == 1,
                Some((least, most)) => {
                    &&& self@.len() > 1
                    &&& forall|k: int|
                        0 <= k < self@.len() - 1 ==> least <= #[trigger] gap(self@, k) <= most
                    &&& exists|k: int| 0 <= k < self@.len() - 1 && #[trigger] gap(self@, k) == least
                    &&& exists|k: int| 0 <= k < self@.len() - 1 && #[trigger] gap(self@, k) == most
                },
            },
    {
        if self.table.len() == 1 {
            return None;
        }
        assert(self@[0] < self@[1]);
        let mut least: usize = self.table[1] - self.table[0];
        let mut most: usize = least;
        assert(gap(self@, 0) == least);
        let mut k: usize = 1;
        while k < self.table.len() - 1
            invariant
                self.wf(),
                self@ == self.table@,
                1 <= k < self@.len(),
                forall|i: int| 0 <= i < k ==> least <= #[trigger] gap(self@, i) <= most,
                exists|i: int| 0 <= i < k && #[trigger] gap(self@, i) == least,
                exists|i: int| 0 <= i < k && #[trigger] gap(self@, i) == most,
            decreases self@.len() - k,
        {
            assert(self@[k as int] < self@[k + 1]);
            let next: usize = self.table[k + 1] - self.table[k];
            assert(gap(self@, k as int) == next);
            if next < least {
                least = next;
            }
            if next > most {
                most = next;
            }
            k = k + 1;
        }
        Some((least, most))
    }

    /// Whether these are cuts into even shares for this many workers.
    pub fn even_for(&self, num_workers: usize) -> (r: bool)
        requires
            self.wf(),
            num_workers > 0,
        ensures
            r == is_even(self@, self.spec_span(), num_workers as int),
    {
        let len: usize = self.table.len();
        if len - 1 > num_workers {
            return false;
        }
        let span: usize = self.span;
        let (floor, ceiling): (usize, usize) = if span < num_workers {
            (1, 1)
        } else {
            let floor: usize = span / num_workers;
            proof {
                share_rounded_up(span as int, num_workers as int);
            }
            if span % num_workers == 0 {
                (floor, floor)
            } else {
                (floor, floor + 1)
            }
        };
        match self.gaps() {
            None => true,
            Some((least, most)) => floor <= least && most <= ceiling,
        }
    }

    /// How many elements the cuts are for.
    pub fn span(&self) -> (r: usize)
        ensures
            r == self.spec_span(),
    {
        self.span
    }
}

proof fn share_rounded_up(span: int, workers: int)
    requires
        span >= 0,
        workers > 0,
    ensures
        (span + workers - 1) / workers == if span % workers == 0 {
            span / workers
        } else {
            span / workers + 1
        },
        span / workers >= 0,
        span % workers != 0 ==> span / workers < span,
{
    let q = span / workers;
    let r = span % workers;
    let x = span + workers - 1;
    lemma_fundamental_div_mod(span, workers);
    lemma_mod_bound(span, workers);
    lemma_fundamental_div_mod(x, workers);
    lemma_mod_bound(x, workers);
    let p = x / workers;
    assert(q >= 0 && (r != 0 ==> q < span) && p == if r == 0 {
        q
    } else {
        q + 1
    }) by (nonlinear_arith)
        requires
            span == workers * q + r,
            0 <= r < workers,
            x == workers * p + x % workers,
            0 <= x % workers < workers,
            x == span + workers - 1,
            span >= 0,
            workers > 0,
    ;
}

/// How many cuts lie before `limit`, counted from `start`.
pub open spec fn cuts_before(table: Seq<usize>, start: int, limit: int) -> nat
    decreases table.len(),
{
    if table.len() == 0 || start + table[0] >= limit {
        0
    } else {
        1 + cuts_before(table.drop_first(), start, limit)
    }
}

/// The ranges between cuts, counted from `start`, as long as they start before
/// `limit`.
pub open spec fn cut_ranges(table: Seq<usize>, start: int, limit: int) -> Seq<ElemRange> {
    Seq::new(
        cuts_before(table, start, limit),
        |k: int| ElemRange {
            start: (start + table[k]) as usize,
            end: (start + table[k + 1]) as usize,
        },
    )
}

/// Where cutting stops.
pub open spec fn cut_end(table: Seq<usize>, start: int, limit: int) -> int {
    start + table[cuts_before(table, start, limit) as int]
}

proof fn cuts_before_is(table: Seq<usize>, start: int, limit: int, m: int)
    requires
        0 <= m < table.len(),
        forall|k: int| 0 <= k < m ==> start + #[trigger] table[k] < limit,
        start + table[m] >= limit,
    ensures
        cuts_before(table, start, limit) == m,
    decreases table.len(),
{
    if m > 0 {
        assert(start + table[0] < limit);
        let rest = table.drop_first();
        assert forall|k: int| 0 <= k < m - 1 implies start + #[trigger] rest[k] < limit by {
            assert(rest[k] == table[k + 1]);
        }
        assert(rest[m - 1] == table[m]);
        cuts_before_is(rest, start, limit, m - 1);
    }
}

/// What is known of the cuts before a limit that a table reaches.
pub proof fn cuts_before_limit(table: Seq<usize>, start: int, limit: int)
    requires
        table.len() > 0,
        start + table[table.len() - 1] >= limit,
    ensures
        cuts_before(table, start, limit) < table.len(),
        forall|k: int|
            0 <= k < cuts_before(table, start, limit) ==> start + #[trigger] table[k] < limit,
        cut_end(table, start, limit) >= limit,
    decreases table.len(),
{
    if start + table[0] < limit {
        let rest = table.drop_first();
        assert(rest.len() > 0);
        assert(rest[rest.len() - 1] == table[table.len() - 1]);
        cuts_before_limit(rest, start, limit);
        let m = cuts_before(rest, start, limit) as int;
        assert(rest[m] == table[m + 1]);
        assert forall|k: int| 0 <= k < m + 1 implies start + #[trigger] table[k] < limit by {
            if k > 0 {
                assert(rest[k - 1] == table[k]);
            }
        }
    }
}

/// Appends the ranges between cuts, and gives where cutting stops.
fn push_ranges(cuts: &Cuts, start: usize, limit: usize, out: &mut Vec<ElemRange>) -> (end: usize)
    requires
        cuts.wf(),
        start <= limit,
        limit - start <= cuts.spec_span(),
        start + cuts@[cuts@.len() - 1] <= usize::MAX,
    ensures
        final(out)@ == old(out)@ + cut_ranges(cuts@, start as int, limit as int),
        end == cut_end(cuts@, start as int, limit as int),
        end >= limit,
        start <= end,
{
    let len: usize = cuts.table.len();
    let mut k: usize = 0;
    let mut at: usize = start;
    let ghost table = cuts@;
    assert(out@ =~= old(out)@ + Seq::new(
        0,
        |j: int| ElemRange {
            start: (start + table[j]) as usize,
            end: (start + table[j + 1]) as usize,
        },
    ));
    while at < limit
        invariant
            cuts.wf(),
            table == cuts@,
            table == cuts.table@,
            len == table.len(),
            limit - start <= cuts.spec_span(),
            start + table[table.len() - 1] <= usize::MAX,
            k < table.len(),
            at == start + table[k as int],
            forall|j: int| 0 <= j < k ==> start + #[trigger] table[j] < limit,
            out@ == old(out)@ + Seq::new(
                k as nat,
                |j: int| ElemRange {
                    start: (start + table[j]) as usize,
                    end: (start + table[j + 1]) as usize,
                },
            ),
        decreases table.len() - k,
    {
        assert(k + 1 < table.len());
        assert(table[k + 1] <= table[table.len() - 1]);
        let next: usize = start + cuts.table[k + 1];
        let ghost before = out@;
        out.push(ElemRange { start: at, end: next });
        k = k + 1;
        at = next;
        proof {
            assert(out@ =~= old(out)@ + Seq::new(
                k as nat,
                |j: int| ElemRange {
                    start: (start + table[j]) as usize,
                    end: (start + table[j + 1]) as usize,
                },
            ));
        }
    }
    proof {
        cuts_before_is(table, start as int, limit as int, k as int);
        assert(out@ =~= old(out)@ + cut_ranges(table, start as int, limit as int));
    }
    at
}

/// One round of shrinking ranges: the cuts of an even share, up to a span.
#[derive(Debug)]
pub struct GuidedRound {
    pub cuts: Cuts,
}

/// The ranges of all rounds from `at` on, and behind them ranges of one length.
pub open spec fn guided_ranges(
    rounds: Seq<GuidedRound>,
    tail: Seq<usize>,
    at: int,
    n: int,
) -> Seq<ElemRange>
    decreases rounds.len(),
{
    if rounds.len() == 0 || at >= n {
        cut_ranges(tail, at, n)
    } else {
        let first = rounds[0];
        let limit = if at + first.cuts.spec_span() < n {
            at + first.cuts.spec_span()
        } else {
            n
        };
        cut_ranges(first.cuts@, at, limit) + guided_ranges(
            rounds.drop_first(),
            tail,
            cut_end(first.cuts@, at, limit),
            n,
        )
    }
}

/// Whether all tables of shrinking ranges are in order and small enough, and the
/// ranges of each are no longer than those before.
pub open spec fn guided_ok(rounds: Seq<GuidedRound>, tail: Cuts, n: int) -> bool {
    &&& tail.wf()
    &&& tail.spec_span() == n
    &&& forall|i: int| 0 <= i < rounds.len() ==> (#[trigger] rounds[i]).cuts.wf()
    &&& forall|i: int|
        0 <= i < rounds.len() ==> n + (#[trigger] rounds[i]).cuts@[rounds[i].cuts@.len() - 1]
            <= usize::MAX
    &&& n + tail@[tail@.len() - 1] <= usize::MAX
    &&& is_regular(tail@)
    &&& forall|i: int| 0 <= i < rounds.len() ==> is_regular((#[trigger] rounds[i]).cuts@)
    &&& forall|i: int|
        0 <= i < rounds.len() ==> is_shorter((#[trigger] rounds[i]).cuts@, tail@)
    &&& forall|i: int, j: int|
        0 <= i < j < rounds.len() ==> is_shorter(
            (#[trigger] rounds[i]).cuts@,
            (#[trigger] rounds[j]).cuts@,
        )
}

/// How many elements each task of a schedule takes, and how.
#[derive(Debug)]
pub enum IterPlan {
    /// One task for each range.
    Static(Vec<ElemRange>),
    /// Tasks that take element by element up to `max_i`.
    Dynamic { tasks: usize, max_i: usize },
    /// Tasks that take range by range.
    Chunk { ranges: Vec<ElemRange>, tasks: usize },
    /// One task for each range, which takes from the others when it is done.
    WorkStealing(Vec<ElemRange>),
}

/// The smaller of two numbers.
pub open spec fn least(a: usize, b: usize) -> usize {
    if a <= b {
        a
    } else {
        b
    }
}

fn least_of(a: usize, b: usize) -> (r: usize)
    ensures
        r == least(a, b),
{
    if a <= b {
        a
    } else {
        b
    }
}

/// One range for each worker. A PE that is not a member of the team has none.
pub fn local_sched_static(member: bool, num_workers: usize, n: usize, cuts: &Cuts) -> (r: Vec<
    ElemRange,
>)
    requires
        cuts.wf(),
        cuts.spec_span() == n,
        is_even(cuts@, n as int, num_workers as int),
    ensures
        member ==> r@ == cut_ranges(cuts@, 0, n as int),
        !member ==> r@.len() == 0,
{
    let mut out: Vec<ElemRange> = Vec::new();
    if member {
        push_ranges(cuts, 0, n, &mut out);
        assert(out@ =~= cut_ranges(cuts@, 0, n as int));
    }
    out
}

/// One range for each worker, from which others may take.
pub fn local_sched_work_stealing(member: bool, num_workers: usize, n: usize, cuts: &Cuts) -> (r:
    Vec<ElemRange>)
    requires
        cuts.wf(),
        cuts.spec_span() == n,
        is_even(cuts@, n as int, num_workers as int),
    ensures
        member ==> r@ == cut_ranges(cuts@, 0, n as int),
        !member ==> r@.len() == 0,
{
    local_sched_static(member, num_workers, n, cuts)
}

/// How many tasks take element by element.
pub fn local_sched_dynamic(member: bool, num_workers: usize, n: usize) -> (tasks: usize)
    ensures
        tasks == if member {
            least(num_workers, n)
        } else {
            0
        },
        tasks <= num_workers,
        tasks <= n,
        member ==> tasks == num_workers || tasks == n,
        !member ==> tasks == 0,
{
    if member {
        least_of(num_workers, n)
    } else {
        0
    }
}

/// Ranges that become shorter, and how many tasks take them.
pub fn local_sched_guided(
    member: bool,
    num_workers: usize,
    n: usize,
    rounds: &Vec<GuidedRound>,
    tail: &Cuts,
) -> (r: (Vec<ElemRange>, usize))
    requires
        guided_ok(rounds@, *tail, n as int),
    ensures
        member ==> r.0@ == guided_ranges(rounds@, tail@, 0, n as int) && r.1 == least(
            num_workers,
            n,
        ),
        !member ==> r.0@.len() == 0 && r.1 == 0,
        r.1 <= num_workers,
        r.1 <= n,
        member ==> r.1 == num_workers || r.1 == n,
{
    let mut out: Vec<ElemRange> = Vec::new();
    if !member {
        return (out, 0);
    }
    let mut k: usize = 0;
    let mut at: usize = 0;
    let ghost whole = guided_ranges(rounds@, tail@, 0, n as int);
    proof {
        assert(rounds@.skip(0) == rounds@);
        assert(out@ + whole =~= whole);
    }
    while k < rounds.len() && at < n
        invariant
            guided_ok(rounds@, *tail, n as int),
            k <= rounds@.len(),
            whole == out@ + guided_ranges(rounds@.skip(k as int), tail@, at as int, n as int),
        decreases rounds@.len() - k,
    {
        let round = &rounds[k];
        let span: usize = round.cuts.span();
        let limit: usize = if span < n - at {
            at + span
        } else {
            n
        };
        proof {
            assert(rounds@.skip(k as int)[0] == rounds@[k as int]);
            assert(rounds@.skip(k as int).drop_first() == rounds@.skip(k as int + 1));
        }
        let ghost before = out@;
        let end: usize = push_ranges(&round.cuts, at, limit, &mut out);
        proof {
            let part = cut_ranges(round.cuts@, at as int, limit as int);
            let rest = guided_ranges(rounds@.skip(k as int + 1), tail@, end as int, n as int);
            assert(before + (part + rest) =~= before + part + rest);
        }
        at = end;
        k = k + 1;
    }
    if at < n {
        push_ranges(tail, at, n, &mut out);
        proof {
            assert(rounds@.skip(k as int).len() == 0);
        }
    } else {
        proof {
            assert(cuts_before(tail@, at as int, n as int) == 0);
            assert(cut_ranges(tail@, at as int, n as int) =~= Seq::<ElemRange>::empty());
            assert(out@ + Seq::<ElemRange>::empty() =~= out@);
        }
    }
    (out, least_of(num_workers, n))
}

/// How many ranges of a given length cover `n` elements.
pub open spec fn chunk_count(n: int, chunk_size: int) -> int {
    (n + chunk_size - 1) / chunk_size
}

/// Whether the end of the last range of a given length is a number.
pub open spec fn chunks_fit(n: int, chunk_size: int) -> bool {
    chunk_count(n, chunk_size) * chunk_size <= usize::MAX
}

/// The ranges of a given length.
pub open spec fn chunk_ranges(n: int, chunk_size: int) -> Seq<ElemRange> {
    Seq::new(
        chunk_count(n, chunk_size) as nat,
        |k: int| ElemRange {
            start: (k * chunk_size) as usize,
            end: ((k + 1) * chunk_size) as usize,
        },
    )
}

/// Cuts elements into ranges of a given length.
fn chunks(n: usize, chunk_size: usize) -> (r: Vec<ElemRange>)
    requires
        chunk_size > 0,
        chunks_fit(n as int, chunk_size as int),
    ensures
        r@ == chunk_ranges(n as int, chunk_size as int),
        forall|k: int|
            0 <= k < r@.len() ==> (#[trigger] r@[k]).start == k * chunk_size && r@[k].end == (k + 1)
                * chunk_size,
{
    let mut out: Vec<ElemRange> = Vec::new();
    let mut at: usize = 0;
    let ghost mut k: int = 0;
    let ghost c = chunk_size as int;
    while at < n
        invariant
            chunk_size > 0,
            c == chunk_size,
            chunks_fit(n as int, c),
            k >= 0,
            at == k * c,
            k > 0 ==> (k - 1) * c < n,
            out@ == Seq::new(
                k as nat,
                |j: int| ElemRange { start: (j * c) as usize, end: ((j + 1) * c) as usize },
            ),
        decreases
                (if at < n {
                    n - at
                } else {
                    0
                }),
    {
        proof {
            assert((k + 1) * c == k * c + c) by (nonlinear_arith);
            chunk_is_counted(n as int, c, k);
        }
        out.push(ElemRange { start: at, end: at + chunk_size });
        at = at + chunk_size;
        proof {
            k = k + 1;
            assert(out@ =~= Seq::new(
                k as nat,
                |j: int| ElemRange { start: (j * c) as usize, end: ((j + 1) * c) as usize },
            ));
        }
    }
    proof {
        chunk_count_is(n as int, c, k);
        assert(out@ =~= chunk_ranges(n as int, c));
        assert forall|j: int| 0 <= j < out@.len() implies (#[trigger] out@[j]).start == j * c
            && out@[j].end == (j + 1) * c by {
            assert(0 <= j * c && j * c <= (j + 1) * c && (j + 1) * c <= k * c) by (nonlinear_arith)
                requires
                    0 <= j,
                    j + 1 <= k,
                    c > 0,
            ;
        }
    }
    out
}

proof fn chunk_is_counted(n: int, c: int, k: int)
    requires
        c > 0,
        n >= 0,
        k >= 0,
        k * c < n,
    ensures
        (k + 1) * c <= chunk_count(n, c) * c,
{
    let x = n + c - 1;
    let q = chunk_count(n, c);
    lemma_fundamental_div_mod(x, c);
    lemma_mod_bound(x, c);
    assert((k + 1) * c <= q * c) by (nonlinear_arith)
        requires
            x == c * q + x % c,
            0 <= x % c < c,
            x == n + c - 1,
            k * c < n,
            c > 0,
    ;
}

proof fn chunk_count_is(n: int, c: int, k: int)
    requires
        c > 0,
        n >= 0,
        k >= 0,
        k * c >= n,
        k > 0 ==> (k - 1) * c < n,
        k == 0 ==> n == 0,
    ensures
        chunk_count(n, c) == k,
{
    let x = n + c - 1;
    lemma_fundamental_div_mod(x, c);
    lemma_mod_bound(x, c);
    let q = x / c;
    if k > 0 {
        assert(q == k) by (nonlinear_arith)
            requires
                x == c * q + x % c,
                0 <= x % c < c,
                x == n + c - 1,
                k * c >= n,
                (k - 1) * c < n,
                c > 0,
        ;
    } else {
        assert(q == 0) by (nonlinear_arith)
            requires
                x == c * q + x % c,
                0 <= x % c < c,
                x == c - 1,
                c > 0,
        ;
    }
}

/// Ranges of a given length, and how many tasks take them: not more than there
/// are ranges.
pub fn local_sched_chunk(member: bool, num_workers: usize, n: usize, chunk_size: usize) -> (r: (
    Vec<ElemRange>,
    usize,
))
    requires
        chunk_size > 0,
        chunks_fit(n as int, chunk_size as int),
    ensures
        member ==> r.0@ == chunk_ranges(n as int, chunk_size as int) && r.1 == least(
            num_workers,
            chunk_count(n as int, chunk_size as int) as usize,
        ),
        !member ==> r.0@.len() == 0 && r.1 == 0,
        forall|k: int|
            0 <= k < r.0@.len() ==> (#[trigger] r.0@[k]).start == k * chunk_size && r.0@[k].end == (k
                + 1) * chunk_size,
        r.1 <= num_workers,
        r.1 <= r.0@.len(),
        member ==> r.1 == num_workers || r.1 == r.0@.len(),
{
    if !member {
        return (Vec::new(), 0);
    }
    let ranges = chunks(n, chunk_size);
    proof {
        let x = n + chunk_size - 1;
        let c = chunk_size as int;
        lemma_fundamental_div_mod(x, c);
        lemma_mod_bound(x, c);
        assert(x / c >= 0) by (nonlinear_arith)
            requires
                x == c * (x / c) + x % c,
                0 <= x % c < c,
                x >= 0,
                c > 0,
        ;
    }
    let num_chunks: usize = ranges.len();
    (ranges, least_of(num_workers, num_chunks))
}

/// One range for each worker, for tasks that may wait.
pub fn local_for_each_async_static(member: bool, num_workers: usize, n: usize, cuts: &Cuts) -> (r:
    Vec<ElemRange>)
    requires
        cuts.wf(),
        cuts.spec_span() == n,
        is_even(cuts@, n as int, num_workers as int),
    ensures
        member ==> r@ == cut_ranges(cuts@, 0, n as int),
        !member ==> r@.len() == 0,
{
    local_sched_static(member, num_workers, n, cuts)
}

/// How many tasks that may wait take element by element.
pub fn local_for_each_async_dynamic(member: bool, num_workers: usize, n: usize) -> (tasks: usize)
    ensures
        tasks == if member {
            least(num_workers, n)
        } else {
            0
        },
        tasks <= num_workers,
        tasks <= n,
        member ==> tasks == num_workers || tasks == n,
        !member ==> tasks == 0,
{
    local_sched_dynamic(member, num_workers, n)
}

/// One range for each worker, from which others may take, for tasks that may
/// wait.
pub fn local_for_each_async_work_stealing(
    member: bool,
    num_workers: usize,
    n: usize,
    cuts: &Cuts,
) -> (r: Vec<ElemRange>)
    requires
        cuts.wf(),
        cuts.spec_span() == n,
        is_even(cuts@, n as int, num_workers as int),
    ensures
        member ==> r@ == cut_ranges(cuts@, 0, n as int),
        !member ==> r@.len() == 0,
{
    local_sched_work_stealing(member, num_workers, n, cuts)
}

/// Ranges that become shorter, for tasks that may wait, and how many tasks take
/// them.
pub fn local_for_each_async_guided(
    member: bool,
    num_workers: usize,
    n: usize,
    rounds: &Vec<GuidedRound>,
    tail: &Cuts,
) -> (r: (Vec<ElemRange>, usize))
    requires
        guided_ok(rounds@, *tail, n as int),
    ensures
        member ==> r.0@ == guided_ranges(rounds@, tail@, 0, n as int) && r.1 == least(
            num_workers,
            n,
        ),
        !member ==> r.0@.len() == 0 && r.1 == 0,
{
    local_sched_guided(member, num_workers, n, rounds, tail)
}

/// Ranges of a given length for tasks that may wait, and how many tasks take
/// them: not more than there are elements.
pub fn local_for_each_async_chunk(
    member: bool,
    num_workers: usize,
    n: usize,
    chunk_size: usize,
) -> (r: (Vec<ElemRange>, usize))
    requires
        chunk_size > 0,
        chunks_fit(n as int, chunk_size as int),
    ensures
        member ==> r.0@ == chunk_ranges(n as int, chunk_size as int) && r.1 == least(
            num_workers,
            n,
        ),
        !member ==> r.0@.len() == 0 && r.1 == 0,
        forall|k: int|
            0 <= k < r.0@.len() ==> (#[trigger] r.0@[k]).start == k * chunk_size && r.0@[k].end == (k
                + 1) * chunk_size,
        r.1 <= num_workers,
        r.1 <= n,
        member ==> r.1 == num_workers || r.1 == n,
{
    if !member {
        return (Vec::new(), 0);
    }
    (chunks(n, chunk_size), least_of(num_workers, n))
}

/// Whether ranges follow each other from zero on and reach `n`, none is empty,
/// and none starts behind `n`. Without elements there are no ranges.
pub open spec fn tiles(ranges: Seq<ElemRange>, n: int) -> bool {
    &&& ranges.len() == 0 <==> n <= 0
    &&& ranges.len() > 0 ==> ranges[0].start == 0 && ranges[ranges.len() - 1].end >= n
    &&& forall|k: int|
        0 <= k < ranges.len() ==> (#[trigger] ranges[k]).start < ranges[k].end && ranges[k].start
            < n
    &&& forall|k: int|
        0 <= k < ranges.len() - 1 ==> (#[trigger] ranges[k]).end == ranges[k + 1].start
}

/// Every element lies in one range of ranges that follow each other, and in no
/// other.
pub proof fn each_element_once(ranges: Seq<ElemRange>, n: int, i: int)
    requires
        tiles(ranges, n),
        0 <= i < n,
    ensures
        exists|k: int|
            0 <= k < ranges.len() && (#[trigger] ranges[k]).start <= i < ranges[k].end,
        forall|j: int, k: int|
            0 <= j < ranges.len() && 0 <= k < ranges.len() && (#[trigger] ranges[j]).start <= i
                < ranges[j].end && (#[trigger] ranges[k]).start <= i < ranges[k].end ==> j == k,
{
    let k = range_with(ranges, n, i, ranges.len() as int);
    assert(ranges[k].start <= i < ranges[k].end);
    assert forall|j: int, k: int|
        0 <= j < ranges.len() && 0 <= k < ranges.len() && (#[trigger] ranges[j]).start <= i
            < ranges[j].end && (#[trigger] ranges[k]).start <= i < ranges[k].end implies j == k by {
        if j < k {
            ends_before(ranges, n, j, k);
        } else if k < j {
            ends_before(ranges, n, k, j);
        }
    }
}

proof fn range_with(ranges: Seq<ElemRange>, n: int, i: int, upto: int) -> (k: int)
    requires
        tiles(ranges, n),
        0 <= i < n,
        0 < upto <= ranges.len(),
        i < ranges[upto - 1].end,
    ensures
        0 <= k < ranges.len(),
        ranges[k].start <= i < ranges[k].end,
    decreases upto,
{
    if ranges[upto - 1].start <= i {
        upto - 1
    } else {
        assert(upto > 1);
        assert(ranges[upto - 2].end == ranges[(upto - 2) + 1].start);
        range_with(ranges, n, i, upto - 1)
    }
}

proof fn ends_before(ranges: Seq<ElemRange>, n: int, j: int, k: int)
    requires
        tiles(ranges, n),
        0 <= j < k < ranges.len(),
    ensures
        ranges[j].end <= ranges[k].start,
    decreases k - j,
{
    if j < k - 1 {
        ends_before(ranges, n, j, k - 1);
        assert(ranges[k - 1].start < ranges[k - 1].end);
    }
    assert(ranges[k - 1].end == ranges[(k - 1) + 1].start);
}

/// One range for each worker: together they hold every element once.
pub proof fn static_ranges_tile(cuts: Cuts, n: int)
    requires
        cuts.wf(),
        cuts.spec_span() == n,
        n >= 0,
    ensures
        tiles(cut_ranges(cuts@, 0, n), n),
{
    let ranges = cut_ranges(cuts@, 0, n);
    cuts_before_limit(cuts@, 0, n);
    assert forall|k: int| 0 <= k < ranges.len() implies (#[trigger] ranges[k]).start
        < ranges[k].end && ranges[k].start < n by {
        assert(0 + cuts@[k] < n);
        assert(cuts@[k] < cuts@[k + 1]);
    }
}

/// Ranges of one length: together they hold every element once.
pub proof fn chunk_ranges_tile(n: int, chunk_size: int)
    requires
        0 <= n,
        0 < chunk_size,
        chunks_fit(n, chunk_size),
    ensures
        tiles(chunk_ranges(n, chunk_size), n),
{
    let c = chunk_size;
    let ranges = chunk_ranges(n, c);
    let m = chunk_count(n, c);
    let x = n + c - 1;
    lemma_fundamental_div_mod(x, c);
    lemma_mod_bound(x, c);
    assert(m >= 0 && m * c >= n && (m > 0 ==> (m - 1) * c < n) && (m == 0 ==> n == 0))
        by (nonlinear_arith)
        requires
            x == c * m + x % c,
            0 <= x % c < c,
            x == n + c - 1,
            n >= 0,
            c > 0,
    ;
    assert forall|k: int| 0 <= k < m implies 0 <= #[trigger] (k * c) < n && (k + 1) * c <= m * c
        && k * c < (k + 1) * c by {
        assert(0 <= k * c <= (m - 1) * c && (k + 1) * c == k * c + c && (k + 1) * c <= m * c)
            by (nonlinear_arith)
            requires
                0 <= k <= m - 1,
                c > 0,
        ;
    }
    if m > 0 {
        assert(0 * c == 0);
        assert(0 <= (m - 1) * c < n);
    }
    assert forall|k: int| 0 <= k < ranges.len() implies (#[trigger] ranges[k]).start
        < ranges[k].end && ranges[k].start < n by {
        assert(0 <= k * c < n);
    }
    assert forall|k: int| 0 <= k < ranges.len() - 1 implies (#[trigger] ranges[k]).end == ranges[k
        + 1].start by {
        assert(0 <= k * c < n);
    }
}

proof fn guided_part(rounds: Seq<GuidedRound>, tail: Cuts, at: int, n: int)
    requires
        guided_ok(rounds, tail, n),
        0 <= at,
        at <= n,
    ensures
        ({
            let ranges = guided_ranges(rounds, tail@, at, n);
            &&& ranges.len() == 0 <==> at >= n
            &&& ranges.len() > 0 ==> ranges[0].start == at && ranges[ranges.len() - 1].end >= n
            &&& forall|k: int|
                0 <= k < ranges.len() ==> (#[trigger] ranges[k]).start < ranges[k].end
                    && ranges[k].start < n
            &&& forall|k: int|
                0 <= k < ranges.len() - 1 ==> (#[trigger] ranges[k]).end == ranges[k + 1].start
        }),
    decreases rounds.len(),
{
    let ranges = guided_ranges(rounds, tail@, at, n);
    if rounds.len() == 0 || at >= n {
        cut_part(tail, at, n);
    } else {
        let first = rounds[0];
        let limit = if at + first.cuts.spec_span() < n {
            at + first.cuts.spec_span()
        } else {
            n
        };
        cut_part(first.cuts, at, limit);
        let front = cut_ranges(first.cuts@, at, limit);
        let end = cut_end(first.cuts@, at, limit);
        let rest_rounds = rounds.drop_first();
        assert forall|i: int| 0 <= i < rest_rounds.len() implies (
        #[trigger] rest_rounds[i]).cuts.wf() by {
            assert(rounds[i + 1].cuts.wf());
        }
        assert forall|i: int| 0 <= i < rest_rounds.len() implies n + (
        #[trigger] rest_rounds[i]).cuts@[rest_rounds[i].cuts@.len() - 1] <= usize::MAX by {
            let r = rounds[i + 1];
            assert(r.cuts.wf());
        }
        let rest = guided_ranges(rest_rounds, tail@, end, n);
        if end <= n {
            guided_part(rest_rounds, tail, end, n);
        } else {
            assert(cuts_before(tail@, end, n) == 0);
            assert(rest.len() == 0);
        }
        let f = front.len() as int;
        assert(ranges == front + rest);
        assert forall|k: int| 0 <= k < ranges.len() implies (#[trigger] ranges[k]).start
            < ranges[k].end && ranges[k].start < n by {
            if k < f {
                assert(ranges[k] == front[k]);
            } else {
                assert(ranges[k] == rest[k - f]);
            }
        }
        assert forall|k: int| 0 <= k < ranges.len() - 1 implies (#[trigger] ranges[k]).end
            == ranges[k + 1].start by {
            if k + 1 < f {
                assert(ranges[k] == front[k] && ranges[k + 1] == front[k + 1]);
                assert(front[k].end == front[k + 1].start);
            } else if k + 1 == f {
                assert(ranges[k] == front[k] && ranges[k + 1] == rest[0]);
            } else {
                assert(ranges[k] == rest[k - f] && ranges[k + 1] == rest[k - f + 1]);
                assert(rest[k - f].end == rest[(k - f) + 1].start);
            }
        }
    }
}

proof fn cut_part(cuts: Cuts, at: int, limit: int)
    requires
        cuts.wf(),
        0 <= at <= limit,
        limit - at <= cuts.spec_span(),
        limit + cuts@[cuts@.len() - 1] <= usize::MAX,
    ensures
        ({
            let ranges = cut_ranges(cuts@, at, limit);
            let end = cut_end(cuts@, at, limit);
            &&& at <= end
            &&& limit <= end
            &&& ranges.len() == 0 <==> at >= limit
            &&& ranges.len() == 0 ==> end == at
            &&& ranges.len() > 0 ==> ranges[0].start == at && ranges[ranges.len() - 1].end == end
            &&& forall|k: int|
                0 <= k < ranges.len() ==> (#[trigger] ranges[k]).start < ranges[k].end
                    && ranges[k].start < limit
            &&& forall|k: int|
                0 <= k < ranges.len() - 1 ==> (#[trigger] ranges[k]).end == ranges[k + 1].start
        }),
{
    let ranges = cut_ranges(cuts@, at, limit);
    cuts_before_limit(cuts@, at, limit);
    assert forall|k: int| 0 <= k < ranges.len() implies (#[trigger] ranges[k]).start
        < ranges[k].end && ranges[k].start < limit by {
        assert(at + cuts@[k] < limit);
        assert(cuts@[k] < cuts@[k + 1]);
        assert(cuts@[k + 1] <= cuts@[cuts@.len() - 1]);
    }
    if ranges.len() > 0 {
        let m = ranges.len() as int;
        assert(cuts@[m] <= cuts@[cuts@.len() - 1]);
        assert(ranges[0].start == at + cuts@[0]);
    }
}

/// Ranges that become shorter: together they hold every element once.
pub proof fn guided_ranges_tile(rounds: Seq<GuidedRound>, tail: Cuts, n: int)
    requires
        guided_ok(rounds, tail, n),
        n >= 0,
    ensures
        tiles(guided_ranges(rounds, tail@, 0, n), n),
{
    guided_part(rounds, tail, 0, n);
}

/// With one range for each worker there are no more ranges than workers, and each
/// is an even share, rounded down or up.
pub proof fn static_ranges_are_even(cuts: Cuts, num_workers: int, n: int)
    requires
        cuts.wf(),
        cuts.spec_span() == n,
        0 <= n <= usize::MAX,
        num_workers > 0,
        is_even(cuts@, n, num_workers),
    ensures
        cut_ranges(cuts@, 0, n).len() <= num_workers,
        forall|k: int|
            0 <= k < cut_ranges(cuts@, 0, n).len() ==> least_share(n, num_workers)
                <= range_len(#[trigger] cut_ranges(cuts@, 0, n)[k]) <= most_share(n, num_workers),
{
    let ranges = cut_ranges(cuts@, 0, n);
    cuts_before_limit(cuts@, 0, n);
    assert forall|k: int| 0 <= k < ranges.len() implies least_share(n, num_workers) <= range_len(
        #[trigger] ranges[k],
    ) <= most_share(n, num_workers) by {
        assert(range_len(ranges[k]) == gap(cuts@, k));
    }
}

/// How many elements a range has.
pub open spec fn range_len(r: ElemRange) -> int {
    r.end - r.start
}

/// No range is longer than one before it, but for one element.
pub open spec fn ranges_shrink(ranges: Seq<ElemRange>) -> bool {
    forall|i: int, j: int|
        0 <= i <= j < ranges.len() ==> range_len(#[trigger] ranges[j]) <= range_len(
            #[trigger] ranges[i],
        ) + 1
}

proof fn cut_lens(cuts: Cuts, at: int, limit: int)
    requires
        cuts.wf(),
        0 <= at <= limit,
        limit - at <= cuts.spec_span(),
        limit + cuts@[cuts@.len() - 1] <= usize::MAX,
    ensures
        cut_ranges(cuts@, at, limit).len() < cuts@.len(),
        forall|k: int|
            0 <= k < cut_ranges(cuts@, at, limit).len() ==> range_len(
                #[trigger] cut_ranges(cuts@, at, limit)[k],
            ) == gap(cuts@, k),
{
    let ranges = cut_ranges(cuts@, at, limit);
    cuts_before_limit(cuts@, at, limit);
    assert forall|k: int| 0 <= k < ranges.len() implies range_len(#[trigger] ranges[k]) == gap(
        cuts@,
        k,
    ) by {
        let last = cuts@.len() - 1;
        assert(cuts@[k] <= cuts@[last]);
        assert(cuts@[k + 1] <= cuts@[last]);
    }
}

proof fn rest_ok(rounds: Seq<GuidedRound>, tail: Cuts, n: int)
    requires
        guided_ok(rounds, tail, n),
        rounds.len() > 0,
    ensures
        guided_ok(rounds.drop_first(), tail, n),
{
    let rest = rounds.drop_first();
    assert forall|i: int| 0 <= i < rest.len() implies #[trigger] rest[i] == rounds[i + 1] by {}
}

proof fn guided_lens(rounds: Seq<GuidedRound>, tail: Cuts, at: int, n: int, most: int)
    requires
        guided_ok(rounds, tail, n),
        0 <= at,
        forall|j: int| 0 <= j < tail@.len() - 1 ==> #[trigger] gap(tail@, j) <= most,
        forall|i: int, j: int|
            0 <= i < rounds.len() && 0 <= j < rounds[i].cuts@.len() - 1 ==> #[trigger] gap(
                rounds[i].cuts@,
                j,
            ) <= most,
    ensures
        forall|k: int|
            0 <= k < guided_ranges(rounds, tail@, at, n).len() ==> range_len(
                #[trigger] guided_ranges(rounds, tail@, at, n)[k],
            ) <= most,
    decreases rounds.len(),
{
    let ranges = guided_ranges(rounds, tail@, at, n);
    if at >= n {
        assert(cuts_before(tail@, at, n) == 0);
    } else if rounds.len() == 0 {
        cut_lens(tail, at, n);
        assert forall|k: int| 0 <= k < ranges.len() implies range_len(#[trigger] ranges[k])
            <= most by {
            assert(gap(tail@, k) <= most);
        }
    } else {
        let first = rounds[0].cuts;
        let limit = if at + first.spec_span() < n {
            at + first.spec_span()
        } else {
            n
        };
        let front = cut_ranges(first@, at, limit);
        let end = cut_end(first@, at, limit);
        let others = rounds.drop_first();
        cut_part(first, at, limit);
        cut_lens(first, at, limit);
        rest_ok(rounds, tail, n);
        assert forall|i: int, j: int|
            0 <= i < others.len() && 0 <= j < others[i].cuts@.len() - 1 implies #[trigger] gap(
            others[i].cuts@,
            j,
        ) <= most by {
            assert(gap(rounds[i + 1].cuts@, j) <= most);
        }
        guided_lens(others, tail, end, n, most);
        let rest = guided_ranges(others, tail@, end, n);
        assert(ranges == front + rest);
        assert forall|k: int| 0 <= k < ranges.len() implies range_len(#[trigger] ranges[k])
            <= most by {
            if k < front.len() {
                assert(ranges[k] == front[k]);
                assert(gap(rounds[0].cuts@, k) <= most);
            } else {
                assert(ranges[k] == rest[k - front.len()]);
            }
        }
    }
}

proof fn guided_part_shrinks(rounds: Seq<GuidedRound>, tail: Cuts, at: int, n: int)
    requires
        guided_ok(rounds, tail, n),
        0 <= at,
    ensures
        ranges_shrink(guided_ranges(rounds, tail@, at, n)),
    decreases rounds.len(),
{
    let ranges = guided_ranges(rounds, tail@, at, n);
    if at >= n {
        assert(cuts_before(tail@, at, n) == 0);
    } else if rounds.len() == 0 {
        cut_lens(tail, at, n);
        assert forall|i: int, j: int| 0 <= i <= j < ranges.len() implies range_len(
            #[trigger] ranges[j],
        ) <= range_len(#[trigger] ranges[i]) + 1 by {
            assert(gap(tail@, j) <= gap(tail@, i) + 1);
        }
    } else {
        let first = rounds[0].cuts;
        let limit = if at + first.spec_span() < n {
            at + first.spec_span()
        } else {
            n
        };
        let front = cut_ranges(first@, at, limit);
        let end = cut_end(first@, at, limit);
        let others = rounds.drop_first();
        cut_part(first, at, limit);
        cut_lens(first, at, limit);
        rest_ok(rounds, tail, n);
        guided_part_shrinks(others, tail, end, n);
        let rest = guided_ranges(others, tail@, end, n);
        let f = front.len() as int;
        assert(ranges == front + rest);
        assert forall|i: int, j: int| 0 <= i <= j < ranges.len() implies range_len(
            #[trigger] ranges[j],
        ) <= range_len(#[trigger] ranges[i]) + 1 by {
            if j < f {
                assert(ranges[i] == front[i] && ranges[j] == front[j]);
                assert(gap(first@, j) <= gap(first@, i) + 1);
            } else if i >= f {
                assert(ranges[i] == rest[i - f] && ranges[j] == rest[j - f]);
            } else {
                let most = gap(first@, i);
                assert(ranges[i] == front[i] && ranges[j] == rest[j - f]);
                assert forall|k: int| 0 <= k < tail@.len() - 1 implies #[trigger] gap(tail@, k)
                    <= most by {
                    assert(is_shorter(rounds[0].cuts@, tail@));
                }
                assert forall|a: int, k: int|
                    0 <= a < others.len() && 0 <= k < others[a].cuts@.len() - 1 implies 
                #[trigger] gap(others[a].cuts@, k) <= most by {
                    assert(is_shorter(rounds[0].cuts@, rounds[a + 1].cuts@));
                }
                guided_lens(others, tail, end, n, most);
            }
        }
    }
}

/// Ranges lie between cuts that follow each other, from the first one on, and there is
/// one for each cut before the limit.
pub proof fn ranges_lie_between_cuts(cuts: Cuts, start: int, limit: int, k: int)
    requires
        cuts.wf(),
        0 <= start <= limit,
        limit - start <= cuts.spec_span(),
        start + cuts@[cuts@.len() - 1] <= usize::MAX,
        0 <= k < cuts@.len() - 1,
    ensures
        start + cuts@[k] < limit <==> k < cut_ranges(cuts@, start, limit).len(),
        k < cut_ranges(cuts@, start, limit).len() ==> cut_ranges(cuts@, start, limit)[k].start
            == start + cuts@[k] && cut_ranges(cuts@, start, limit)[k].end == start + cuts@[k + 1],
{
    cuts_before_limit(cuts@, start, limit);
    let m = cuts_before(cuts@, start, limit) as int;
    assert(cuts@[k + 1] <= cuts@[cuts@.len() - 1]);
    if k >= m {
        assert(cuts@[m] <= cuts@[k]);
    }
}

/// Ranges that become shorter take the rounds in turn: first come the ranges of the
/// first round, up to its span, and from where they stop those of the other rounds;
/// behind the last round come ranges of one length.
pub proof fn rounds_are_taken_in_turn(rounds: Seq<GuidedRound>, tail: Cuts, at: int, n: int)
    requires
        guided_ok(rounds, tail, n),
        0 <= at < n,
    ensures
        rounds.len() == 0 ==> guided_ranges(rounds, tail@, at, n) == cut_ranges(tail@, at, n),
        rounds.len() > 0 ==> {
            let cuts = rounds[0].cuts;
            let limit = if at + cuts.spec_span() < n {
                at + cuts.spec_span()
            } else {
                n
            };
            let first = cut_ranges(cuts@, at, limit);
            let all = guided_ranges(rounds, tail@, at, n);
            &&& first.len() <= all.len()
            &&& all.take(first.len() as int) == first
            &&& all.skip(first.len() as int) == guided_ranges(
                rounds.drop_first(),
                tail@,
                at + cuts@[first.len() as int],
                n,
            )
        },
{
    if rounds.len() > 0 {
        let cuts = rounds[0].cuts;
        let limit = if at + cuts.spec_span() < n {
            at + cuts.spec_span()
        } else {
            n
        };
        let first = cut_ranges(cuts@, at, limit);
        let rest = guided_ranges(rounds.drop_first(), tail@, cut_end(cuts@, at, limit), n);
        let all = guided_ranges(rounds, tail@, at, n);
        assert(all == first + rest);
        assert(all.take(first.len() as int) =~= first);
        assert(all.skip(first.len() as int) =~= rest);
    }
}

/// Ranges that become shorter do: none is longer than one before it, but for one
/// element that rounding may add.
pub proof fn guided_ranges_shrink(rounds: Seq<GuidedRound>, tail: Cuts, n: int)
    requires
        guided_ok(rounds, tail, n),
    ensures
        ranges_shrink(guided_ranges(rounds, tail@, 0, n)),
{
    guided_part_shrinks(rounds, tail, 0, n);
}

/// What a schedule needs to know of even shares: the cuts for the workers, and
/// for ranges that become shorter the cuts of each round and of the rest.
#[derive(Debug)]
pub struct ShareTables {
    pub even: Cuts,
    pub rounds: Vec<GuidedRound>,
    pub tail: Cuts,
}

/// Whether the tables are for this many workers and `n` elements.
pub open spec fn tables_ok(tables: ShareTables, num_workers: int, n: int) -> bool {
    &&& tables.even.wf()
    &&& tables.even.spec_span() == n
    &&& is_even(tables.even@, n, num_workers)
    &&& guided_ok(tables.rounds@, tables.tail, n)
}

impl ShareTables {
    /// Whether the tables are for this many workers and `n` elements.
    pub fn fits(&self, num_workers: usize, n: usize) -> (r: bool)
        requires
            self.even.wf(),
            self.tail.wf(),
            forall|i: int| 0 <= i < self.rounds@.len() ==> (#[trigger] self.rounds@[i]).cuts.wf(),
            num_workers > 0,
        ensures
            r == tables_ok(*self, num_workers as int, n as int),
    {
        if self.even.span() != n || !self.even.even_for(num_workers) || self.tail.span() != n {
            return false;
        }
        shrinks(&self.rounds, &self.tail, n)
    }
}

/// Whether the cuts go no farther than numbers reach behind `n`.
fn within_reach(cuts: &Cuts, n: usize) -> (r: bool)
    requires
        cuts.wf(),
    ensures
        r == (n + cuts@[cuts@.len() - 1] <= usize::MAX),
{
    cuts.table[cuts.table.len() - 1] <= usize::MAX - n
}

/// Whether tables of shrinking ranges are in order and small enough.
fn shrinks(rounds: &Vec<GuidedRound>, tail: &Cuts, n: usize) -> (r: bool)
    requires
        tail.wf(),
        tail.spec_span() == n,
        forall|i: int| 0 <= i < rounds@.len() ==> (#[trigger] rounds@[i]).cuts.wf(),
    ensures
        r == guided_ok(rounds@, *tail, n as int),
{
    // The shortest gap so far.
    let mut shortest: usize = usize::MAX;
    let ghost mut at: (int, int) = (-1, -1);
    let mut k: usize = 0;
    while k < rounds.len()
        invariant
            k <= rounds@.len(),
            forall|i: int| 0 <= i < rounds@.len() ==> (#[trigger] rounds@[i]).cuts.wf(),
            forall|i: int|
                0 <= i < k ==> n + (#[trigger] rounds@[i]).cuts@[rounds@[i].cuts@.len() - 1]
                    <= usize::MAX && is_regular(rounds@[i].cuts@),
            forall|i: int, j: int|
                0 <= i < j < k ==> is_shorter(
                    (#[trigger] rounds@[i]).cuts@,
                    (#[trigger] rounds@[j]).cuts@,
                ),
            forall|i: int, g: int|
                0 <= i < k && 0 <= g < rounds@[i].cuts@.len() - 1 ==> shortest <= #[trigger] gap(
                    rounds@[i].cuts@,
                    g,
                ),
            shortest < usize::MAX ==> 0 <= at.0 < k && 0 <= at.1 < rounds@[at.0].cuts@.len() - 1
                && gap(rounds@[at.0].cuts@, at.1) == shortest,
        decreases rounds@.len() - k,
    {
        let cuts = &rounds[k].cuts;
        if !within_reach(cuts, n) {
            return false;
        }
        match cuts.gaps() {
            None => {},
            Some((least, most)) => {
                let ghost low = choose|g: int|
                    0 <= g < cuts@.len() - 1 && #[trigger] gap(cuts@, g) == least;
                let ghost high = choose|g: int|
                    0 <= g < cuts@.len() - 1 && #[trigger] gap(cuts@, g) == most;
                if most - least > 1 {
                    assert(gap(rounds@[k as int].cuts@, high) > gap(rounds@[k as int].cuts@, low)
                        + 1);
                    return false;
                }
                if most > shortest {
                    assert(!is_shorter(rounds@[at.0].cuts@, rounds@[k as int].cuts@)) by {
                        assert(gap(rounds@[k as int].cuts@, high) > gap(
                            rounds@[at.0].cuts@,
                            at.1,
                        ));
                    }
                    return false;
                }
                if least < shortest {
                    shortest = least;
                    proof {
                        at = (k as int, low);
                    }
                }
            },
        }
        k = k + 1;
    }
    if !within_reach(tail, n) {
        return false;
    }
    match tail.gaps() {
        None => true,
        Some((least, most)) => {
            let ghost low = choose|g: int|
                0 <= g < tail@.len() - 1 && #[trigger] gap(tail@, g) == least;
            let ghost high = choose|g: int|
                0 <= g < tail@.len() - 1 && #[trigger] gap(tail@, g) == most;
            if most - least > 1 {
                assert(gap(tail@, high) > gap(tail@, low) + 1);
                return false;
            }
            if most > shortest {
                assert(!is_shorter(rounds@[at.0].cuts@, tail@)) by {
                    assert(gap(tail@, high) > gap(rounds@[at.0].cuts@, at.1));
                }
                return false;
            }
            true
        },
    }
}

/// What tasks a schedule makes of `n` elements. Tasks that may wait differ from
/// others in how many of them take ranges of a given length.
pub open spec fn is_plan(
    plan: IterPlan,
    sched: Schedule,
    member: bool,
    num_workers: usize,
    n: usize,
    tables: ShareTables,
    waits: bool,
) -> bool {
    match sched {
        Schedule::Static => plan matches IterPlan::Static(ranges) && (if member {
            ranges@ == cut_ranges(tables.even@, 0, n as int)
        } else {
            ranges@.len() == 0
        }),
        Schedule::WorkStealing => plan matches IterPlan::WorkStealing(ranges) && (if member {
            ranges@ == cut_ranges(tables.even@, 0, n as int)
        } else {
            ranges@.len() == 0
        }),
        Schedule::Dynamic => plan == (IterPlan::Dynamic {
            tasks: if member {
                least(num_workers, n)
            } else {
                0
            },
            max_i: n,
        }),
        Schedule::Chunk(size) => plan matches IterPlan::Chunk { ranges, tasks } && (if member {
            ranges@ == chunk_ranges(n as int, size as int) && tasks == least(
                num_workers,
                if waits {
                    n
                } else {
                    chunk_count(n as int, size as int) as usize
                },
            )
        } else {
            ranges@.len() == 0 && tasks == 0
        }),
        Schedule::Guided => plan matches IterPlan::Chunk { ranges, tasks } && (if member {
            ranges@ == guided_ranges(tables.rounds@, tables.tail@, 0, n as int) && tasks == least(
                num_workers,
                n,
            )
        } else {
            ranges@.len() == 0 && tasks == 0
        }),
    }
}

/// Plans the tasks that go over this PE's elements.
pub fn local_for_each_with_schedule(
    sched: Schedule,
    member: bool,
    num_workers: usize,
    n: usize,
    tables: &ShareTables,
) -> (r: IterPlan)
    requires
        tables_ok(*tables, num_workers as int, n as int),
        sched matches Schedule::Chunk(size) ==> size > 0 && chunks_fit(
            n as int,
            size as int,
        ),
    ensures
        is_plan(r, sched, member, num_workers, n, *tables, false),
{
    match sched {
        Schedule::Static => IterPlan::Static(
            local_sched_static(member, num_workers, n, &tables.even),
        ),
        Schedule::Dynamic => IterPlan::Dynamic {
            tasks: local_sched_dynamic(member, num_workers, n),
            max_i: n,
        },
        Schedule::Chunk(size) => {
            let (ranges, tasks) = local_sched_chunk(member, num_workers, n, size);
            IterPlan::Chunk { ranges, tasks }
        },
        Schedule::Guided => {
            let (ranges, tasks) = local_sched_guided(
                member,
                num_workers,
                n,
                &tables.rounds,
                &tables.tail,
            );
            IterPlan::Chunk { ranges, tasks }
        },
        Schedule::WorkStealing => IterPlan::WorkStealing(
            local_sched_work_stealing(member, num_workers, n, &tables.even),
        ),
    }
}

/// Plans tasks that may wait and that go over this PE's elements. They differ
/// from others in how many tasks take ranges of a given length.
pub fn local_for_each_async_with_schedule(
    sched: Schedule,
    member: bool,
    num_workers: usize,
    n: usize,
    tables: &ShareTables,
) -> (r: IterPlan)
    requires
        tables_ok(*tables, num_workers as int, n as int),
        sched matches Schedule::Chunk(size) ==> size > 0 && chunks_fit(
            n as int,
            size as int,
        ),
    ensures
        is_plan(r, sched, member, num_workers, n, *tables, true),
{
    match sched {
        Schedule::Static => IterPlan::Static(
            local_for_each_async_static(member, num_workers, n, &tables.even),
        ),
        Schedule::Dynamic => IterPlan::Dynamic {
            tasks: local_for_each_async_dynamic(member, num_workers, n),
            max_i: n,
        },
        Schedule::Chunk(size) => {
            let (ranges, tasks) = local_for_each_async_chunk(member, num_workers, n, size);
            IterPlan::Chunk { ranges, tasks }
        },
        Schedule::Guided => {
            let (ranges, tasks) = local_for_each_async_guided(
                member,
                num_workers,
                n,
                &tables.rounds,
                &tables.tail,
            );
            IterPlan::Chunk { ranges, tasks }
        },
        Schedule::WorkStealing => IterPlan::WorkStealing(
            local_for_each_async_work_stealing(member, num_workers, n, &tables.even),
        ),
    }
}

/// The index in the whole array of a chunk of this PE's elements, counted in
/// chunks.
pub open spec fn chunk_index(index: Option<usize>, chunk_size: usize) -> Option<usize> {
    match index {
        Some(i) => Some((i / chunk_size) as usize),
        None => None,
    }
}

impl UnsafeArrayInner {
    /// The index in the whole array, counted in chunks, of the chunk at a place
    /// among this PE's.
    pub fn local_global_index_from_local(&self, index: usize, chunk_size: usize) -> (r: Option<
        usize,
    >)
        requires
            self.wf(),
            chunk_size > 0,
            self.distribution == Distribution::Cyclic ==> self.size > 0,
            self.blocks.len() + index * chunk_size <= usize::MAX,
        ensures
            r == chunk_index(self.global_from_local(index * chunk_size), chunk_size),
            r is Some <==> self.global_from_local(index * chunk_size) is Some,
            r matches Some(c) ==> c == self.global_from_local(index * chunk_size)->0 / chunk_size,
    {
        assert(0 <= index * chunk_size) by (nonlinear_arith);
        if chunk_size == 1 {
            self.global_index_from_local(index)
        } else {
            match self.global_index_from_local(index * chunk_size) {
                Some(i) => Some(i / chunk_size),
                None => None,
            }
        }
    }

    /// The index in this part, counted in chunks, of the chunk at a place among
    /// this PE's.
    pub fn local_subarray_index_from_local(&self, index: usize, chunk_size: usize) -> (r: Option<
        usize,
    >)
        requires
            self.wf(),
            chunk_size > 0,
            self.size + index * chunk_size <= usize::MAX,
        ensures
            r == chunk_index(self.index_from_local(index * chunk_size), chunk_size),
            r is Some <==> self.index_from_local(index * chunk_size) is Some,
            r matches Some(c) ==> c == self.index_from_local(index * chunk_size)->0 / chunk_size,
    {
        assert(0 <= index * chunk_size) by (nonlinear_arith);
        if chunk_size == 1 {
            self.subarray_index_from_local(index)
        } else {
            match self.subarray_index_from_local(index * chunk_size) {
                Some(i) => Some(i / chunk_size),
                None => None,
            }
        }
    }
}

/// An even share, rounded down or up, is one that as many workers as there are can
/// have: the smaller ones do not go beyond all elements, the larger ones reach them,
/// and the two differ by one at most. No share is empty.
pub proof fn shares_are_fair(span: int, workers: int)
    requires
        0 <= span,
        0 < workers,
    ensures
        1 <= least_share(span, workers) <= most_share(span, workers) <= least_share(span, workers)
            + 1,
        span >= workers ==> least_share(span, workers) * workers <= span,
        most_share(span, workers) * workers >= span,
        span >= workers ==> (most_share(span, workers) - 1) * workers < span,
        span < workers ==> most_share(span, workers) == 1,
{
    if span >= workers {
        share_rounded_up(span, workers);
        lemma_fundamental_div_mod(span, workers);
        lemma_mod_bound(span, workers);
        let q = span / workers;
        let r = span % workers;
        assert(q >= 1 && q * workers <= span && (q + 1) * workers > span && (r == 0 ==> q * workers
            == span) && (q - 1) * workers < span && (r > 0 ==> q * workers < span))
            by (nonlinear_arith)
            requires
                span == workers * q + r,
                0 <= r < workers,
                span >= workers,
                workers > 0,
        ;
    }
}

/// What a plan gives to how many tasks: a schedule that takes element by element or
/// range by range uses as many tasks as there are workers, but no more than there is
/// to take, and each range of a given length has that length. All other schedules
/// have one task for each range.
pub proof fn plans_use_workers(
    plan: IterPlan,
    sched: Schedule,
    num_workers: usize,
    n: usize,
    tables: ShareTables,
    waits: bool,
)
    requires
        is_plan(plan, sched, true, num_workers, n, tables, waits),
        sched matches Schedule::Chunk(size) ==> size > 0 && chunks_fit(n as int, size as int),
    ensures
        match sched {
            Schedule::Static => plan is Static,
            Schedule::WorkStealing => plan is WorkStealing,
            Schedule::Dynamic => plan matches IterPlan::Dynamic { tasks, max_i } && max_i == n
                && tasks <= num_workers && tasks <= n && (tasks == num_workers || tasks == n),
            Schedule::Chunk(size) => {
                &&& plan matches IterPlan::Chunk { ranges, tasks }
                &&& forall|k: int|
                    0 <= k < ranges@.len() ==> (#[trigger] ranges@[k]).start == k * size
                        && ranges@[k].end == k * size + size
                &&& tasks <= num_workers
                &&& waits ==> tasks <= n && (tasks == num_workers || tasks == n)
                &&& !waits ==> tasks <= ranges@.len() && (tasks == num_workers || tasks
                    == ranges@.len())
            },
            Schedule::Guided => plan matches IterPlan::Chunk { ranges, tasks } && tasks
                <= num_workers && tasks <= n && (tasks == num_workers || tasks == n),
        },
{
    if let Schedule::Chunk(size) = sched {
        let c = size as int;
        let m = chunk_count(n as int, c);
        chunk_ranges_tile(n as int, c);
        let x = n + c - 1;
        lemma_div_pos_is_pos(x, c);
        if let IterPlan::Chunk { ranges, tasks } = plan {
            let len = ranges.len();
            assert(ranges@.len() == m);
            assert forall|k: int| 0 <= k < ranges@.len() implies (#[trigger] ranges@[k]).start == k
                * size && ranges@[k].end == k * size + size by {
                assert(0 <= k * c && (k + 1) * c == k * c + c && (k + 1) * c <= m * c)
                    by (nonlinear_arith)
                    requires
                        0 <= k,
                        k + 1 <= m,
                        c > 0,
                ;
            }
        }
    }
}

} // verus!
