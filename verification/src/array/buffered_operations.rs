//! Operations on many elements of an array at once: which of them go to which
//! PE, and how they are gathered before they are sent.

use vstd::layout;
use vstd::prelude::*;

use crate::array::unsafe_array;
use crate::array::unsafe_array::UnsafeArrayInner;

verus! {

/// An operation on elements.
#[derive(Clone, Copy, Debug, PartialEq, Eq, Structural)]
pub enum ArrayOpCmd {
    Add,
    FetchAdd,
    Sub,
    FetchSub,
    Mul,
    FetchMul,
    Div,
    FetchDiv,
    And,
    FetchAnd,
    Or,
    FetchOr,
    Store,
    Load,
    Swap,
    Put,
    Get,
}

/// One or more inputs of an operation.
#[derive(Debug)]
pub enum OpInputEnum<'a, T> {
    Val(T),
    Slice(&'a [T]),
    Owned(Vec<T>),
}

impl<'a, T> View for OpInputEnum<'a, T> {
    type V = Seq<T>;

    open spec fn view(&self) -> Seq<T> {
        match self {
            OpInputEnum::Val(v) => seq![*v],
            OpInputEnum::Slice(s) => s@,
            OpInputEnum::Owned(v) => v@,
        }
    }
}

impl<'a, T: Copy> OpInputEnum<'a, T> {
    /// How many inputs there are.
    pub fn len(&self) -> (n: usize)
        ensures
            n == self@.len(),
            self is Val ==> n == 1,
            self matches OpInputEnum::Slice(s) ==> n == s@.len(),
            self matches OpInputEnum::Owned(v) ==> n == v@.len(),
    {
        match self {
            OpInputEnum::Val(_) => 1,
            OpInputEnum::Slice(s) => s.len(),
            OpInputEnum::Owned(v) => v.len(),
        }
    }

    /// One of the inputs.
    pub fn get(&self, i: usize) -> (x: T)
        requires
            i < self@.len(),
        ensures
            x == self@[i as int],
            self matches OpInputEnum::Val(v) ==> x == v,
            self matches OpInputEnum::Slice(s) ==> x == s@[i as int],
            self matches OpInputEnum::Owned(v) ==> x == v@[i as int],
    {
        match self {
            OpInputEnum::Val(v) => *v,
            OpInputEnum::Slice(s) => s[i],
            OpInputEnum::Owned(v) => v[i],
        }
    }

    /// The first of the inputs.
    pub fn first(&self) -> (x: T)
        requires
            self@.len() > 0,
        ensures
            x == self@[0],
    {
        self.get(0)
    }

    /// The inputs as a list of their own.
    pub fn to_list(&self) -> (r: Vec<T>)
        ensures
            r@ == self@,
    {
        let n: usize = self.len();
        let mut r: Vec<T> = Vec::new();
        let mut i: usize = 0;
        while i < n
            invariant
                i <= n,
                n == self@.len(),
                r@ == self@.take(i as int),
            decreases n - i,
        {
            r.push(self.get(i));
            i = i + 1;
            assert(r@ == self@.take(i as int));
        }
        assert(self@.take(i as int) == self@);
        r
    }
}

/// Which element gets which value.
#[derive(Debug)]
pub enum InputToValue<'a, T> {
    OneToOne(usize, T),
    OneToMany(usize, OpInputEnum<'a, T>),
    ManyToOne(OpInputEnum<'a, usize>, T),
    ManyToMany(OpInputEnum<'a, usize>, OpInputEnum<'a, T>),
}

/// Which element gets which value, in a form that can be sent.
#[derive(Debug)]
pub enum OpAmInputToValue<T> {
    OneToOne(usize, T),
    OneToMany(usize, Vec<T>),
    ManyToOne(Vec<usize>, T),
    ManyToMany(Vec<usize>, Vec<T>),
}

/// Indices and values, pair by pair, as long as there are both.
pub open spec fn zipped<T>(indices: Seq<usize>, values: Seq<T>) -> Seq<(usize, T)> {
    Seq::new(
        if indices.len() < values.len() {
            indices.len()
        } else {
            values.len()
        },
        |k: int| (indices[k], values[k]),
    )
}

/// One index with each of several values.
pub open spec fn one_to_many<T>(index: usize, values: Seq<T>) -> Seq<(usize, T)> {
    Seq::new(values.len(), |k: int| (index, values[k]))
}

/// Each of several indices with one value.
pub open spec fn many_to_one<T>(indices: Seq<usize>, value: T) -> Seq<(usize, T)> {
    Seq::new(indices.len(), |k: int| (indices[k], value))
}

impl<'a, T> View for InputToValue<'a, T> {
    type V = Seq<(usize, T)>;

    open spec fn view(&self) -> Seq<(usize, T)> {
        match self {
            InputToValue::OneToOne(i, v) => seq![(*i, *v)],
            InputToValue::OneToMany(i, vs) => one_to_many(*i, vs@),
            InputToValue::ManyToOne(is, v) => many_to_one(is@, *v),
            InputToValue::ManyToMany(is, vs) => zipped(is@, vs@),
        }
    }
}

impl<T> View for OpAmInputToValue<T> {
    type V = Seq<(usize, T)>;

    open spec fn view(&self) -> Seq<(usize, T)> {
        match self {
            OpAmInputToValue::OneToOne(i, v) => seq![(*i, *v)],
            OpAmInputToValue::OneToMany(i, vs) => one_to_many(*i, vs@),
            OpAmInputToValue::ManyToOne(is, v) => many_to_one(is@, *v),
            OpAmInputToValue::ManyToMany(is, vs) => zipped(is@, vs@),
        }
    }
}

impl<'a, T: Copy> InputToValue<'a, T> {
    /// How many operations these are.
    pub open spec fn spec_len(&self) -> nat {
        match self {
            InputToValue::OneToOne(_, _) => 1,
            InputToValue::OneToMany(_, vs) => vs@.len(),
            InputToValue::ManyToOne(is, _) => is@.len(),
            InputToValue::ManyToMany(is, _) => is@.len(),
        }
    }

    /// How many operations these are.
    pub fn len(&self) -> (n: usize)
        ensures
            n == self.spec_len(),
            self is OneToOne ==> n == 1,
            self matches InputToValue::OneToMany(_, vs) ==> n == vs@.len(),
            self matches InputToValue::ManyToOne(is, _) ==> n == is@.len(),
            self matches InputToValue::ManyToMany(is, _) ==> n == is@.len(),
    {
        match self {
            InputToValue::OneToOne(_, _) => 1,
            InputToValue::OneToMany(_, vs) => vs.len(),
            InputToValue::ManyToOne(is, _) => is.len(),
            InputToValue::ManyToMany(is, _) => is.len(),
        }
    }

    /// The same operations in a form that can be sent.
    pub fn as_op_am_input(&self) -> (r: OpAmInputToValue<T>)
        ensures
            r@ == self@,
            match self {
                InputToValue::OneToOne(i, v) => r == OpAmInputToValue::OneToOne(*i, *v),
                InputToValue::OneToMany(i, vs) => r matches OpAmInputToValue::OneToMany(j, list)
                    && j == i && list@ == vs@,
                InputToValue::ManyToOne(is, v) => r matches OpAmInputToValue::ManyToOne(list, w)
                    && list@ == is@ && w == v,
                InputToValue::ManyToMany(is, vs) => r matches OpAmInputToValue::ManyToMany(a, b)
                    && a@ == is@ && b@ == vs@,
            },
    {
        match self {
            InputToValue::OneToOne(index, value) => OpAmInputToValue::OneToOne(*index, *value),
            InputToValue::OneToMany(index, values) => OpAmInputToValue::OneToMany(
                *index,
                values.to_list(),
            ),
            InputToValue::ManyToOne(indices, value) => OpAmInputToValue::ManyToOne(
                indices.to_list(),
                *value,
            ),
            InputToValue::ManyToMany(indices, values) => OpAmInputToValue::ManyToMany(
                indices.to_list(),
                values.to_list(),
            ),
        }
    }
}

impl<T> OpAmInputToValue<T> {
    /// How many operations these are.
    pub fn len(&self) -> (n: usize)
        ensures
            n == (match self {
                OpAmInputToValue::OneToOne(_, _) => 1,
                OpAmInputToValue::OneToMany(_, vals) => vals@.len(),
                OpAmInputToValue::ManyToOne(indices, _) => indices@.len(),
                OpAmInputToValue::ManyToMany(indices, _) => indices@.len(),
            }),
    {
        match self {
            OpAmInputToValue::OneToOne(_, _) => 1,
            OpAmInputToValue::OneToMany(_, vals) => vals.len(),
            OpAmInputToValue::ManyToOne(indices, _) => indices.len(),
            OpAmInputToValue::ManyToMany(indices, _) => indices.len(),
        }
    }

    /// The bytes that indices and values take.
    pub open spec fn byte_count(&self) -> int {
        match self {
            OpAmInputToValue::OneToOne(_, _) => layout::size_of::<(usize, T)>() as int,
            OpAmInputToValue::OneToMany(_, vals) => layout::size_of::<usize>() as int + vals@.len()
                * layout::size_of::<T>(),
            OpAmInputToValue::ManyToOne(indices, _) => indices@.len() * layout::size_of::<usize>()
                + layout::size_of::<T>() as int,
            OpAmInputToValue::ManyToMany(indices, vals) => indices@.len()
                * layout::size_of::<usize>() + (vals@.len() * layout::size_of::<T>()) as int,
        }
    }

    /// The bytes that indices and values take.
    pub fn num_bytes(&self) -> (n: usize)
        requires
            self.byte_count() <= usize::MAX,
        ensures
            n == self.byte_count(),
            self is OneToOne ==> n == layout::size_of::<(usize, T)>(),
            self matches OpAmInputToValue::OneToMany(_, vals) ==> n == layout::size_of::<usize>()
                + vals@.len() * layout::size_of::<T>(),
            self matches OpAmInputToValue::ManyToOne(indices, _) ==> n == indices@.len()
                * layout::size_of::<usize>() + layout::size_of::<T>(),
            self matches OpAmInputToValue::ManyToMany(indices, vals) ==> n == indices@.len()
                * layout::size_of::<usize>() + vals@.len() * layout::size_of::<T>(),
    {
        let index_len: usize = core::mem::size_of::<usize>();
        let value_len: usize = core::mem::size_of::<T>();
        match self {
            OpAmInputToValue::OneToOne(_, _) => core::mem::size_of::<(usize, T)>(),
            OpAmInputToValue::OneToMany(_, vals) => {
                assert(vals@.len() * value_len >= 0) by (nonlinear_arith);
                index_len + vals.len() * value_len
            },
            OpAmInputToValue::ManyToOne(indices, _) => {
                assert(indices@.len() * index_len >= 0) by (nonlinear_arith);
                indices.len() * index_len + value_len
            },
            OpAmInputToValue::ManyToMany(indices, vals) => {
                assert(vals@.len() * value_len >= 0) by (nonlinear_arith);
                assert(indices@.len() * index_len >= 0) by (nonlinear_arith);
                indices.len() * index_len + vals.len() * value_len
            },
        }
    }
}

/// Operations for one PE: their indices count that PE's elements, and their
/// numbers say which of all operations they are.
#[derive(Debug)]
pub struct PeGroup<'a, T> {
    pub pe: usize,
    pub input: InputToValue<'a, T>,
    pub req_ids: Vec<usize>,
}

/// The PE where an element lives.
pub open spec fn pe_of(a: UnsafeArrayInner, index: usize) -> usize {
    a.pe_for(index as int)->0
}

/// The place of an element on its PE.
pub open spec fn place_of(a: UnsafeArrayInner, index: usize) -> usize {
    a.offset_on(pe_of(a, index) as int, index as int)->0
}

/// The numbers of the operations that go to a PE.
pub open spec fn ids_for<T>(a: UnsafeArrayInner, ops: Seq<(usize, T)>, pe: usize) -> Seq<usize>
    decreases ops.len(),
{
    if ops.len() == 0 {
        Seq::empty()
    } else {
        let front = ids_for(a, ops.drop_last(), pe);
        if pe_of(a, ops.last().0) == pe {
            front.push((ops.len() - 1) as usize)
        } else {
            front
        }
    }
}

/// The operations that go to a PE, on that PE's elements.
pub open spec fn ops_for<T>(a: UnsafeArrayInner, ops: Seq<(usize, T)>, pe: usize) -> Seq<
    (usize, T),
>
    decreases ops.len(),
{
    if ops.len() == 0 {
        Seq::empty()
    } else {
        let front = ops_for(a, ops.drop_last(), pe);
        if pe_of(a, ops.last().0) == pe {
            front.push((place_of(a, ops.last().0), ops.last().1))
        } else {
            front
        }
    }
}

/// Whether all operations are on elements of the array.
pub open spec fn in_bounds<T>(a: UnsafeArrayInner, ops: Seq<(usize, T)>) -> bool {
    forall|k: int| 0 <= k < ops.len() ==> (#[trigger] ops[k]).0 < a.size
}

/// Whether operations are split by PE: no PE twice, each with its operations,
/// and a PE is there only if it has some, unless there are none at all.
pub open spec fn is_split<'a, T>(
    a: UnsafeArrayInner,
    ops: Seq<(usize, T)>,
    groups: Seq<PeGroup<'a, T>>,
) -> bool {
    &&& forall|i: int, j: int|
        0 <= i < j < groups.len() ==> (#[trigger] groups[i]).pe != (#[trigger] groups[j]).pe
    &&& forall|i: int|
        0 <= i < groups.len() ==> (#[trigger] groups[i]).req_ids@ == ids_for(a, ops, groups[i].pe)
            && groups[i].input@ == ops_for(a, ops, groups[i].pe) && (groups[i].req_ids@.len() > 0
            || ops.len() == 0)
    &&& forall|pe: usize|
        (#[trigger] ids_for(a, ops, pe)).len() > 0 ==> exists|i: int|
            0 <= i < groups.len() && (#[trigger] groups[i]).pe == pe
}

/// Whether the operations for one PE are written as all of them are: one value
/// for many indices stays one value, and so on.
pub open spec fn same_form<'a, T>(
    a: UnsafeArrayInner,
    all: InputToValue<'a, T>,
    part: InputToValue<'a, T>,
) -> bool {
    match all {
        InputToValue::OneToOne(index, value) => part == InputToValue::<'a, T>::OneToOne(
            place_of(a, index),
            value,
        ),
        InputToValue::OneToMany(index, values) => part == InputToValue::<'a, T>::OneToMany(
            place_of(a, index),
            values,
        ),
        InputToValue::ManyToOne(_, value) => part matches InputToValue::ManyToOne(_, v) && v
            == value,
        InputToValue::ManyToMany(_, _) => part matches InputToValue::ManyToMany(indices, values)
            && indices@.len() == values@.len(),
    }
}

/// Whether the groups are those of operations: split by PE, in the form of all
/// operations. Values for one index make one group, even if there are none.
pub open spec fn are_groups<'a, T>(
    a: UnsafeArrayInner,
    all: InputToValue<'a, T>,
    groups: Seq<PeGroup<'a, T>>,
) -> bool {
    &&& is_split(a, all@, groups)
    &&& forall|i: int|
        0 <= i < groups.len() ==> same_form(a, all, (#[trigger] groups[i]).input)
    &&& match all {
        InputToValue::OneToMany(index, _) => groups.len() == 1 && groups[0].pe == pe_of(a, index),
        _ => all@.len() == 0 ==> groups.len() == 0,
    }
}

/// Operations for one PE while they are gathered.
struct Gathered<T> {
    pe: usize,
    indices: Vec<usize>,
    values: Vec<T>,
    req_ids: Vec<usize>,
}

/// Whether operations are gathered by PE.
spec fn is_gathered<T>(a: UnsafeArrayInner, ops: Seq<(usize, T)>, list: Seq<Gathered<T>>) -> bool {
    &&& forall|i: int, j: int|
        0 <= i < j < list.len() ==> (#[trigger] list[i]).pe != (#[trigger] list[j]).pe
    &&& forall|i: int|
        0 <= i < list.len() ==> (#[trigger] list[i]).req_ids@ == ids_for(a, ops, list[i].pe)
            && list[i].indices@.len() == list[i].values@.len() && zipped(
            list[i].indices@,
            list[i].values@,
        ) == ops_for(a, ops, list[i].pe) && list[i].req_ids@.len() > 0
    &&& ops.len() == 0 ==> list.len() == 0
    &&& forall|pe: usize|
        (#[trigger] ids_for(a, ops, pe)).len() > 0 ==> exists|i: int|
            0 <= i < list.len() && (#[trigger] list[i]).pe == pe
}

proof fn nothing_for<T>(a: UnsafeArrayInner, ops: Seq<(usize, T)>, pe: usize)
    requires
        ids_for(a, ops, pe).len() == 0,
    ensures
        ops_for(a, ops, pe).len() == 0,
    decreases ops.len(),
{
    if ops.len() > 0 {
        nothing_for(a, ops.drop_last(), pe);
    }
}

/// Gathers one more operation.
fn gather<T: Copy>(
    a: &UnsafeArrayInner,
    list: &mut Vec<Gathered<T>>,
    index: usize,
    value: T,
    number: usize,
    before: Ghost<Seq<(usize, T)>>,
)
    requires
        a.wf(),
        index < a.size,
        number == before@.len(),
        is_gathered(*a, before@, old(list)@),
    ensures
        is_gathered(*a, before@.push((index, value)), final(list)@),
{
    let (pe, place) = a.calc_pe_and_offset(index);
    let ghost ops = before@.push((index, value));
    proof {
        assert(ops.drop_last() =~= before@);
        assert(ops.last() == (index, value));
    }
    let mut at: usize = 0;
    while at < list.len() && list[at].pe != pe
        invariant
            at <= list@.len(),
            forall|i: int| 0 <= i < at ==> (#[trigger] list@[i]).pe != pe,
        decreases list@.len() - at,
    {
        at = at + 1;
    }
    let ghost start = list@;
    if at == list.len() {
        proof {
            assert(ids_for(*a, before@, pe).len() == 0);
            assert(ids_for(*a, before@, pe) == Seq::<usize>::empty());
            nothing_for(*a, before@, pe);
            assert(ops_for(*a, before@, pe) == Seq::<(usize, T)>::empty());
        }
        list.push(
            Gathered { pe, indices: Vec::new(), values: Vec::new(), req_ids: Vec::new() },
        );
        proof {
            assert(zipped(list@[at as int].indices@, list@[at as int].values@) =~= Seq::<
                (usize, T),
            >::empty());
        }
    }
    let ghost mid = list@;
    list[at].indices.push(place);
    list[at].values.push(value);
    list[at].req_ids.push(number);
    proof {
        let g = list@[at as int];
        assert(zipped(g.indices@, g.values@) =~= zipped(
            mid[at as int].indices@,
            mid[at as int].values@,
        ).push((place, value)));
        assert forall|i: int| 0 <= i < list@.len() implies (#[trigger] list@[i]).req_ids@
            == ids_for(*a, ops, list@[i].pe) && list@[i].indices@.len() == list@[i].values@.len()
            && zipped(list@[i].indices@, list@[i].values@) == ops_for(*a, ops, list@[i].pe)
            && list@[i].req_ids@.len() > 0 by {
            if i != at {
                assert(list@[i] == start[i]);
            }
        }
        assert forall|q: usize| (#[trigger] ids_for(*a, ops, q)).len() > 0 implies exists|i: int|
            0 <= i < list@.len() && (#[trigger] list@[i]).pe == q by {
            if q == pe {
                assert(list@[at as int].pe == q);
            } else {
                assert(ids_for(*a, before@, q).len() > 0);
                let i = choose|i: int| 0 <= i < start.len() && (#[trigger] start[i]).pe == q;
                assert(list@[i].pe == q);
            }
        }
    }
}

proof fn only_one_pe<T>(a: UnsafeArrayInner, ops: Seq<(usize, T)>, pe: usize, place: usize)
    requires
        forall|k: int|
            0 <= k < ops.len() ==> pe_of(a, (#[trigger] ops[k]).0) == pe && place_of(a, ops[k].0)
                == place,
    ensures
        ids_for(a, ops, pe) == Seq::new(ops.len(), |k: int| k as usize),
        ops_for(a, ops, pe) == Seq::new(ops.len(), |k: int| (place, ops[k].1)),
        forall|q: usize| q != pe ==> (#[trigger] ids_for(a, ops, q)).len() == 0,
    decreases ops.len(),
{
    if ops.len() > 0 {
        let front = ops.drop_last();
        assert forall|k: int| 0 <= k < front.len() implies pe_of(a, (#[trigger] front[k]).0) == pe
            && place_of(a, front[k].0) == place by {
            assert(front[k] == ops[k]);
        }
        only_one_pe(a, front, pe, place);
        assert(ops.last() == ops[ops.len() - 1]);
        assert(ids_for(a, ops, pe) =~= Seq::new(ops.len(), |k: int| k as usize));
        assert(ops_for(a, ops, pe) =~= Seq::new(ops.len(), |k: int| (place, ops[k].1)));
        assert forall|q: usize| q != pe implies (#[trigger] ids_for(a, ops, q)).len() == 0 by {
            assert(ids_for(a, front, q).len() == 0);
        }
    } else {
        assert(ids_for(a, ops, pe) =~= Seq::new(ops.len(), |k: int| k as usize));
        assert(ops_for(a, ops, pe) =~= Seq::new(ops.len(), |k: int| (place, ops[k].1)));
    }
}

/// The numbers from zero on.
fn count_up(n: usize) -> (r: Vec<usize>)
    ensures
        r@ == Seq::new(n as nat, |k: int| k as usize),
{
    let mut r: Vec<usize> = Vec::new();
    let mut i: usize = 0;
    while i < n
        invariant
            i <= n,
            r@ == Seq::new(i as nat, |k: int| k as usize),
        decreases n - i,
    {
        r.push(i);
        i = i + 1;
        assert(r@ =~= Seq::new(i as nat, |k: int| k as usize));
    }
    r
}

impl<'a, T: Copy> InputToValue<'a, T> {
    /// Splits operations by the PE where their elements live, and says how many
    /// there are. Every index has to be one of the array.
    pub fn to_pe_offsets(self, array: &UnsafeArrayInner) -> (r: (Vec<PeGroup<'a, T>>, usize))
        requires
            array.wf(),
            in_bounds(*array, self@),
            self matches InputToValue::OneToMany(index, _) ==> index < array.size,
        ensures
            are_groups(*array, self, r.0@),
            r.1 == self.spec_len(),
    {
        let ghost ops = self@;
        let count: usize = self.len();
        match self {
            InputToValue::OneToOne(index, value) => {
                proof {
                    assert(ops[0].0 == index);
                }
                let (pe, place) = array.calc_pe_and_offset(index);
                let mut ids: Vec<usize> = Vec::new();
                ids.push(0);
                let group = PeGroup { pe, input: InputToValue::OneToOne(place, value), req_ids: ids };
                let mut groups: Vec<PeGroup<'a, T>> = Vec::new();
                groups.push(group);
                proof {
                    only_one_pe(*array, ops, pe, place);
                    assert(groups@[0].req_ids@ =~= ids_for(*array, ops, pe));
                    assert(groups@[0].input@ =~= ops_for(*array, ops, pe));
                    assert(groups@[0].pe == pe);
                }
                (groups, count)
            },
            InputToValue::OneToMany(index, values) => {
                let (pe, place) = array.calc_pe_and_offset(index);
                let ids = count_up(values.len());
                let group = PeGroup {
                    pe,
                    input: InputToValue::OneToMany(place, values),
                    req_ids: ids,
                };
                let mut groups: Vec<PeGroup<'a, T>> = Vec::new();
                groups.push(group);
                proof {
                    only_one_pe(*array, ops, pe, place);
                    assert(groups@[0].req_ids@ =~= ids_for(*array, ops, pe));
                    assert(groups@[0].input@ =~= ops_for(*array, ops, pe));
                    assert(groups@[0].pe == pe);
                }
                (groups, count)
            },
            InputToValue::ManyToOne(indices, value) => {
                let mut list: Vec<Gathered<T>> = Vec::new();
                let n: usize = indices.len();
                let mut k: usize = 0;
                assert(ops.take(0) == Seq::<(usize, T)>::empty());
                while k < n
                    invariant
                        array.wf(),
                        k <= n,
                        n == indices@.len(),
                        ops == many_to_one(indices@, value),
                        in_bounds(*array, ops),
                        is_gathered(*array, ops.take(k as int), list@),
                    decreases n - k,
                {
                    assert(ops[k as int].0 < array.size);
                    let ghost before = ops.take(k as int);
                    gather(array, &mut list, indices.get(k), value, k, Ghost(before));
                    k = k + 1;
                    assert(ops.take(k as int) == before.push(ops[k - 1]));
                }
                assert(ops.take(k as int) == ops);
                (many_to_one_groups(list, value, Ghost(*array), Ghost(ops)), count)
            },
            InputToValue::ManyToMany(indices, values) => {
                let mut list: Vec<Gathered<T>> = Vec::new();
                let n: usize = if indices.len() < values.len() {
                    indices.len()
                } else {
                    values.len()
                };
                let mut k: usize = 0;
                assert(ops.take(0) == Seq::<(usize, T)>::empty());
                while k < n
                    invariant
                        array.wf(),
                        k <= n,
                        n <= indices@.len(),
                        n <= values@.len(),
                        n == ops.len(),
                        ops == zipped(indices@, values@),
                        in_bounds(*array, ops),
                        is_gathered(*array, ops.take(k as int), list@),
                    decreases n - k,
                {
                    assert(ops[k as int].0 < array.size);
                    let ghost before = ops.take(k as int);
                    gather(array, &mut list, indices.get(k), values.get(k), k, Ghost(before));
                    k = k + 1;
                    assert(ops.take(k as int) == before.push(ops[k - 1]));
                }
                assert(ops.take(k as int) == ops);
                (many_to_many_groups(list, Ghost(*array), Ghost(ops)), count)
            },
        }
    }
}

proof fn same_value_throughout<T>(
    a: UnsafeArrayInner,
    ops: Seq<(usize, T)>,
    pe: usize,
    value: T,
    k: int,
)
    requires
        forall|i: int| 0 <= i < ops.len() ==> (#[trigger] ops[i]).1 == value,
        0 <= k < ops_for(a, ops, pe).len(),
    ensures
        ops_for(a, ops, pe)[k].1 == value,
    decreases ops.len(),
{
    if ops.len() > 0 {
        let front = ops.drop_last();
        assert(ops.last() == ops[ops.len() - 1]);
        assert forall|i: int| 0 <= i < front.len() implies (#[trigger] front[i]).1 == value by {
            assert(front[i] == ops[i]);
        }
        if k < ops_for(a, front, pe).len() {
            same_value_throughout(a, front, pe, value, k);
        }
    }
}

fn many_to_one_groups<'a, T: Copy>(
    list: Vec<Gathered<T>>,
    value: T,
    a: Ghost<UnsafeArrayInner>,
    ops: Ghost<Seq<(usize, T)>>,
) -> (groups: Vec<PeGroup<'a, T>>)
    requires
        is_gathered(a@, ops@, list@),
        forall|i: int| 0 <= i < ops@.len() ==> (#[trigger] ops@[i]).1 == value,
    ensures
        is_split(a@, ops@, groups@),
        groups@.len() == list@.len(),
        forall|i: int|
            0 <= i < groups@.len() ==> ((#[trigger] groups@[i]).input matches InputToValue::ManyToOne(
                _,
                v,
            ) && v == value),
{
    let ghost all = list@;
    let mut list = list;
    let mut groups: Vec<PeGroup<'a, T>> = Vec::new();
    while list.len() > 0
        invariant
            is_gathered(a@, ops@, all),
            forall|i: int| 0 <= i < ops@.len() ==> (#[trigger] ops@[i]).1 == value,
            list@.len() + groups@.len() == all.len(),
            list@ == all.take(list@.len() as int),
            forall|i: int|
                0 <= i < groups@.len() ==> (#[trigger] groups@[i]).pe == all[all.len() - 1 - i].pe
                    && groups@[i].req_ids@ == ids_for(a@, ops@, groups@[i].pe)
                    && groups@[i].input@ == ops_for(a@, ops@, groups@[i].pe) && (groups@[i].input
                    matches InputToValue::ManyToOne(_, v) && v == value),
        decreases list@.len(),
    {
        let ghost n = list@.len() as int;
        let last = list.pop();
        match last {
            Some(g) => {
                assert(g == all[n - 1]);
                let ghost places = g.indices@;
                let ghost values = g.values@;
                let input: InputToValue<'a, T> = InputToValue::ManyToOne(
                    OpInputEnum::Owned(g.indices),
                    value,
                );
                proof {
                    let want = ops_for(a@, ops@, g.pe);
                    assert(zipped(places, values) == want);
                    assert forall|k: int| 0 <= k < want.len() implies input@[k] == want[k] by {
                        same_value_throughout(a@, ops@, g.pe, value, k);
                        assert(zipped(places, values)[k] == (places[k], values[k]));
                    }
                    assert(input@ =~= want);
                }
                groups.push(PeGroup { pe: g.pe, input, req_ids: g.req_ids });
            },
            None => {},
        }
    }
    proof {
        split_from(a@, ops@, all, groups@);
    }
    groups
}

fn many_to_many_groups<'a, T: Copy>(
    list: Vec<Gathered<T>>,
    a: Ghost<UnsafeArrayInner>,
    ops: Ghost<Seq<(usize, T)>>,
) -> (groups: Vec<PeGroup<'a, T>>)
    requires
        is_gathered(a@, ops@, list@),
    ensures
        is_split(a@, ops@, groups@),
        groups@.len() == list@.len(),
        forall|i: int|
            0 <= i < groups@.len() ==> ((#[trigger] groups@[i]).input matches InputToValue::ManyToMany(
                places,
                values,
            ) && places@.len() == values@.len()),
{
    let ghost all = list@;
    let mut list = list;
    let mut groups: Vec<PeGroup<'a, T>> = Vec::new();
    while list.len() > 0
        invariant
            is_gathered(a@, ops@, all),
            list@.len() + groups@.len() == all.len(),
            list@ == all.take(list@.len() as int),
            forall|i: int|
                0 <= i < groups@.len() ==> (#[trigger] groups@[i]).pe == all[all.len() - 1 - i].pe
                    && groups@[i].req_ids@ == ids_for(a@, ops@, groups@[i].pe)
                    && groups@[i].input@ == ops_for(a@, ops@, groups@[i].pe) && (groups@[i].input
                    matches InputToValue::ManyToMany(places, values) && places@.len()
                    == values@.len()),
        decreases list@.len(),
    {
        let ghost n = list@.len() as int;
        let last = list.pop();
        match last {
            Some(g) => {
                assert(g == all[n - 1]);
                let input: InputToValue<'a, T> = InputToValue::ManyToMany(
                    OpInputEnum::Owned(g.indices),
                    OpInputEnum::Owned(g.values),
                );
                groups.push(PeGroup { pe: g.pe, input, req_ids: g.req_ids });
            },
            None => {},
        }
    }
    proof {
        split_from(a@, ops@, all, groups@);
    }
    groups
}

proof fn split_from<'a, T>(
    a: UnsafeArrayInner,
    ops: Seq<(usize, T)>,
    list: Seq<Gathered<T>>,
    groups: Seq<PeGroup<'a, T>>,
)
    requires
        is_gathered(a, ops, list),
        groups.len() == list.len(),
        forall|i: int|
            0 <= i < groups.len() ==> (#[trigger] groups[i]).pe == list[list.len() - 1 - i].pe
                && groups[i].req_ids@ == ids_for(a, ops, groups[i].pe) && groups[i].input@
                == ops_for(a, ops, groups[i].pe),
    ensures
        is_split(a, ops, groups),
{
    let n = list.len() as int;
    assert forall|i: int| 0 <= i < groups.len() implies (#[trigger] groups[i]).req_ids@.len()
        > 0 by {
        assert(list[n - 1 - i].req_ids@.len() > 0);
    }
    assert forall|i: int, j: int| 0 <= i < j < groups.len() implies (#[trigger] groups[i]).pe != (
    #[trigger] groups[j]).pe by {
        assert(list[n - 1 - j].pe != list[n - 1 - i].pe);
    }
    assert forall|pe: usize| (#[trigger] ids_for(a, ops, pe)).len() > 0 implies exists|i: int|
        0 <= i < groups.len() && (#[trigger] groups[i]).pe == pe by {
        let i = choose|i: int| 0 <= i < list.len() && (#[trigger] list[i]).pe == pe;
        assert(groups[n - 1 - i].pe == pe);
    }
}

/// The PEs of the groups are those where elements of operations live, if there
/// are operations.
pub proof fn groups_are_for_owners<'a, T>(
    a: UnsafeArrayInner,
    ops: Seq<(usize, T)>,
    groups: Seq<PeGroup<'a, T>>,
    pe: usize,
)
    requires
        is_split(a, ops, groups),
        0 < ops.len() <= usize::MAX,
    ensures
        (exists|i: int| 0 <= i < groups.len() && (#[trigger] groups[i]).pe == pe) <==> (exists|
            k: int,
        |
            0 <= k < ops.len() && pe_of(a, (#[trigger] ops[k]).0) == pe),
{
    if exists|i: int| 0 <= i < groups.len() && (#[trigger] groups[i]).pe == pe {
        let i = choose|i: int| 0 <= i < groups.len() && (#[trigger] groups[i]).pe == pe;
        let ids = ids_for(a, ops, pe);
        assert(groups[i].req_ids@ == ids);
        ids_are_below(a, ops, pe);
        let k = ids[0];
        assert(ids.contains(k));
        op_goes_to_one_pe(a, ops, k as int, pe);
        assert(pe_of(a, ops[k as int].0) == pe);
    }
    if exists|k: int| 0 <= k < ops.len() && pe_of(a, (#[trigger] ops[k]).0) == pe {
        let k = choose|k: int| 0 <= k < ops.len() && pe_of(a, (#[trigger] ops[k]).0) == pe;
        op_goes_to_one_pe(a, ops, k, pe);
        assert(ids_for(a, ops, pe).len() > 0);
    }
}

/// Every operation goes to the PE where its element lives, and to no other.
pub proof fn op_goes_to_one_pe<T>(a: UnsafeArrayInner, ops: Seq<(usize, T)>, k: int, pe: usize)
    requires
        0 <= k < ops.len() <= usize::MAX,
    ensures
        ids_for(a, ops, pe).contains(k as usize) <==> pe_of(a, ops[k].0) == pe,
    decreases ops.len(),
{
    let front = ops.drop_last();
    let ids = ids_for(a, front, pe);
    ids_are_below(a, front, pe);
    if k < front.len() {
        op_goes_to_one_pe(a, front, k, pe);
        assert(front[k] == ops[k]);
        if pe_of(a, ops.last().0) == pe {
            let all = ids_for(a, ops, pe);
            assert(all == ids.push((ops.len() - 1) as usize));
            if ids.contains(k as usize) {
                let j = ids.index_of(k as usize);
                assert(all[j] == k as usize);
            }
            if all.contains(k as usize) {
                let j = all.index_of(k as usize);
                assert(all[j] == k as usize);
                assert(j < ids.len());
                assert(ids[j] == k as usize);
            }
        }
    } else {
        if pe_of(a, ops.last().0) == pe {
            let all = ids_for(a, ops, pe);
            assert(all[all.len() - 1] == k as usize);
        } else if ids.contains(k as usize) {
            let j = ids.index_of(k as usize);
            assert(ids[j] == k as usize);
        }
    }
}

proof fn ids_are_below<T>(a: UnsafeArrayInner, ops: Seq<(usize, T)>, pe: usize)
    requires
        ops.len() <= usize::MAX,
    ensures
        forall|j: int|
            0 <= j < ids_for(a, ops, pe).len() ==> (#[trigger] ids_for(a, ops, pe)[j]) < ops.len(),
    decreases ops.len(),
{
    if ops.len() > 0 {
        let front = ids_for(a, ops.drop_last(), pe);
        ids_are_below(a, ops.drop_last(), pe);
        assert forall|j: int| 0 <= j < ids_for(a, ops, pe).len() implies (#[trigger] ids_for(
            a,
            ops,
            pe,
        )[j]) < ops.len() by {
            if j < front.len() {
                assert(front[j] < ops.drop_last().len());
            }
        }
    }
}

/// Operations for a PE keep their order.
pub proof fn ids_go_up<T>(a: UnsafeArrayInner, ops: Seq<(usize, T)>, pe: usize, i: int, j: int)
    requires
        ops.len() <= usize::MAX,
        0 <= i < j < ids_for(a, ops, pe).len(),
    ensures
        ids_for(a, ops, pe)[i] < ids_for(a, ops, pe)[j],
    decreases ops.len(),
{
    let front = ops.drop_last();
    ids_are_below(a, front, pe);
    if j < ids_for(a, front, pe).len() {
        ids_go_up(a, front, pe, i, j);
    }
}

/// What a PE gets are the operations with the numbers it gets: on the place of
/// the element, with the same value.
pub proof fn ops_match_ids<T>(a: UnsafeArrayInner, ops: Seq<(usize, T)>, pe: usize, j: int)
    requires
        ops.len() <= usize::MAX,
        0 <= j < ids_for(a, ops, pe).len(),
    ensures
        ops_for(a, ops, pe).len() == ids_for(a, ops, pe).len(),
        ({
            let op = ops[ids_for(a, ops, pe)[j] as int];
            ops_for(a, ops, pe)[j] == (place_of(a, op.0), op.1)
        }),
    decreases ops.len(),
{
    if ops.len() > 0 {
        let front = ops.drop_last();
        ids_are_below(a, front, pe);
        same_many(a, front, pe);
        if j < ids_for(a, front, pe).len() {
            ops_match_ids(a, front, pe, j);
            let k = ids_for(a, front, pe)[j] as int;
            assert(front[k] == ops[k]);
        }
    }
}

proof fn same_many<T>(a: UnsafeArrayInner, ops: Seq<(usize, T)>, pe: usize)
    ensures
        ops_for(a, ops, pe).len() == ids_for(a, ops, pe).len(),
    decreases ops.len(),
{
    if ops.len() > 0 {
        same_many(a, ops.drop_last(), pe);
    }
}

/// Operations that were asked for together. They are split into portions; all
/// but the first portion get a task of their own.
pub struct OpSubmission<'a, T> {
    pub op: ArrayOpCmd,
    pub fetch: bool,
    pub inputs: Vec<InputToValue<'a, T>>,
    /// Portions that are not handed over yet.
    pub submit_cnt: usize,
}

/// Whether a number of indices goes with a number of values: one of either with
/// any number of the other, or as many of both.
pub open spec fn lengths_match(i_len: int, v_len: int) -> bool {
    i_len == 0 || v_len == 0 || i_len == 1 || v_len == 1 || i_len == v_len
}

/// The portions of operations.
pub open spec fn paired<'a, T>(
    indices: Seq<OpInputEnum<'a, usize>>,
    i_len: usize,
    vals: Seq<OpInputEnum<'a, T>>,
    v_len: usize,
) -> Seq<InputToValue<'a, T>> {
    if v_len == 0 || i_len == 0 {
        Seq::empty()
    } else if v_len == 1 && i_len > 1 {
        Seq::new(indices.len(), |k: int| InputToValue::ManyToOne(indices[k], vals[0]@[0]))
    } else if v_len > 1 && i_len == 1 {
        Seq::new(vals.len(), |k: int| InputToValue::OneToMany(indices[0]@[0], vals[k]))
    } else if i_len == 1 {
        seq![InputToValue::OneToOne(indices[0]@[0], vals[0]@[0])]
    } else {
        Seq::new(
            if indices.len() < vals.len() {
                indices.len()
            } else {
                vals.len()
            },
            |k: int| InputToValue::ManyToMany(indices[k], vals[k]),
        )
    }
}

/// Turns a list round.
fn reversed<X>(list: Vec<X>) -> (r: Vec<X>)
    ensures
        r@.len() == list@.len(),
        forall|i: int| 0 <= i < r@.len() ==> #[trigger] r@[i] == list@[list@.len() - 1 - i],
{
    let ghost all = list@;
    let mut list = list;
    let mut r: Vec<X> = Vec::new();
    while list.len() > 0
        invariant
            list@.len() + r@.len() == all.len(),
            list@ == all.take(list@.len() as int),
            forall|i: int| 0 <= i < r@.len() ==> #[trigger] r@[i] == all[all.len() - 1 - i],
        decreases list@.len(),
    {
        match list.pop() {
            Some(x) => {
                r.push(x);
            },
            None => {},
        }
    }
    r
}

/// Pairs indices with values, portion by portion.
fn pair<'a, T: Copy>(
    indices: Vec<OpInputEnum<'a, usize>>,
    i_len: usize,
    vals: Vec<OpInputEnum<'a, T>>,
    v_len: usize,
) -> (r: Vec<InputToValue<'a, T>>)
    requires
        lengths_match(i_len as int, v_len as int),
        i_len > 0 && v_len > 0 ==> {
            &&& indices@.len() > 0
            &&& vals@.len() > 0
            &&& i_len == 1 ==> indices@[0]@.len() > 0
            &&& v_len == 1 ==> vals@[0]@.len() > 0
        },
    ensures
        r@ == paired(indices@, i_len, vals@, v_len),
{
    let mut out: Vec<InputToValue<'a, T>> = Vec::new();
    if v_len == 0 || i_len == 0 {
        return out;
    }
    let ghost all_i = indices@;
    let ghost all_v = vals@;
    if v_len == 1 && i_len > 1 {
        let val: T = vals[0].first();
        let mut rest = reversed(indices);
        while rest.len() > 0
            invariant
                rest@.len() + out@.len() == all_i.len(),
                forall|i: int|
                    0 <= i < rest@.len() ==> #[trigger] rest@[i] == all_i[all_i.len() - 1 - i],
                forall|i: int|
                    0 <= i < out@.len() ==> #[trigger] out@[i] == InputToValue::<'a, T>::ManyToOne(
                        all_i[i],
                        val,
                    ),
            decreases rest@.len(),
        {
            match rest.pop() {
                Some(i) => {
                    out.push(InputToValue::ManyToOne(i, val));
                },
                None => {},
            }
        }
        assert(out@ =~= paired(all_i, i_len, all_v, v_len));
    } else if v_len > 1 && i_len == 1 {
        let index: usize = indices[0].first();
        let mut rest = reversed(vals);
        while rest.len() > 0
            invariant
                rest@.len() + out@.len() == all_v.len(),
                forall|i: int|
                    0 <= i < rest@.len() ==> #[trigger] rest@[i] == all_v[all_v.len() - 1 - i],
                forall|i: int|
                    0 <= i < out@.len() ==> #[trigger] out@[i] == InputToValue::<'a, T>::OneToMany(
                        index,
                        all_v[i],
                    ),
            decreases rest@.len(),
        {
            match rest.pop() {
                Some(v) => {
                    out.push(InputToValue::OneToMany(index, v));
                },
                None => {},
            }
        }
        assert(out@ =~= paired(all_i, i_len, all_v, v_len));
    } else if i_len == 1 {
        out.push(InputToValue::OneToOne(indices[0].first(), vals[0].first()));
        assert(out@ =~= paired(all_i, i_len, all_v, v_len));
    } else {
        let mut rest_i = reversed(indices);
        let mut rest_v = reversed(vals);
        while rest_i.len() > 0 && rest_v.len() > 0
            invariant
                rest_i@.len() + out@.len() == all_i.len(),
                rest_v@.len() + out@.len() == all_v.len(),
                forall|i: int|
                    0 <= i < rest_i@.len() ==> #[trigger] rest_i@[i] == all_i[all_i.len() - 1 - i],
                forall|i: int|
                    0 <= i < rest_v@.len() ==> #[trigger] rest_v@[i] == all_v[all_v.len() - 1 - i],
                forall|i: int|
                    0 <= i < out@.len() ==> #[trigger] out@[i] == InputToValue::<'a, T>::ManyToMany(
                        all_i[i],
                        all_v[i],
                    ),
            decreases rest_i@.len(),
        {
            match (rest_i.pop(), rest_v.pop()) {
                (Some(i), Some(v)) => {
                    out.push(InputToValue::ManyToMany(i, v));
                },
                _ => {},
            }
        }
        assert(out@ =~= paired(all_i, i_len, all_v, v_len));
    }
    out
}

impl<'a, T: Copy> OpSubmission<'a, T> {
    /// Starts operations that give nothing back. `i_len` and `v_len` are how
    /// many indices and values there are.
    pub fn initiate_op(
        vals: Vec<OpInputEnum<'a, T>>,
        v_len: usize,
        indices: Vec<OpInputEnum<'a, usize>>,
        i_len: usize,
        op: ArrayOpCmd,
    ) -> (r: OpSubmission<'a, T>)
        requires
            lengths_match(i_len as int, v_len as int),
            i_len > 0 && v_len > 0 ==> {
                &&& indices@.len() > 0
                &&& vals@.len() > 0
                &&& i_len == 1 ==> indices@[0]@.len() > 0
                &&& v_len == 1 ==> vals@[0]@.len() > 0
            },
        ensures
            r.op == op,
            !r.fetch,
            r.inputs@ == paired(indices@, i_len, vals@, v_len),
            r.submit_cnt == r.inputs@.len(),
            i_len == 0 || v_len == 0 ==> r.inputs@.len() == 0,
            i_len == 1 && v_len == 1 ==> r.inputs@ == seq![
                InputToValue::OneToOne(indices@[0]@[0], vals@[0]@[0]),
            ],
            i_len > 1 && v_len == 1 ==> r.inputs@.len() == indices@.len() && forall|k: int|
                0 <= k < indices@.len() ==> #[trigger] r.inputs@[k] == InputToValue::<
                    'a,
                    T,
                >::ManyToOne(indices@[k], vals@[0]@[0]),
            i_len == 1 && v_len > 1 ==> r.inputs@.len() == vals@.len() && forall|k: int|
                0 <= k < vals@.len() ==> #[trigger] r.inputs@[k] == InputToValue::<
                    'a,
                    T,
                >::OneToMany(indices@[0]@[0], vals@[k]),
            i_len > 1 && v_len > 1 ==> r.inputs@.len() <= indices@.len() && r.inputs@.len()
                <= vals@.len() && (r.inputs@.len() == indices@.len() || r.inputs@.len()
                == vals@.len()) && forall|k: int|
                0 <= k < r.inputs@.len() ==> #[trigger] r.inputs@[k] == InputToValue::<
                    'a,
                    T,
                >::ManyToMany(indices@[k], vals@[k]),
    {
        let inputs = pair(indices, i_len, vals, v_len);
        let submit_cnt: usize = inputs.len();
        OpSubmission { op, fetch: false, inputs, submit_cnt }
    }

    /// Starts operations that give values back. `i_len` and `v_len` are how
    /// many indices and values there are.
    pub fn initiate_fetch_op(
        vals: Vec<OpInputEnum<'a, T>>,
        v_len: usize,
        indices: Vec<OpInputEnum<'a, usize>>,
        i_len: usize,
        op: ArrayOpCmd,
    ) -> (r: OpSubmission<'a, T>)
        requires
            lengths_match(i_len as int, v_len as int),
            i_len > 0 && v_len > 0 ==> {
                &&& indices@.len() > 0
                &&& vals@.len() > 0
                &&& i_len == 1 ==> indices@[0]@.len() > 0
                &&& v_len == 1 ==> vals@[0]@.len() > 0
            },
        ensures
            r.op == op,
            r.fetch,
            r.inputs@ == paired(indices@, i_len, vals@, v_len),
            r.submit_cnt == r.inputs@.len(),
            i_len == 0 || v_len == 0 ==> r.inputs@.len() == 0,
            i_len == 1 && v_len == 1 ==> r.inputs@ == seq![
                InputToValue::OneToOne(indices@[0]@[0], vals@[0]@[0]),
            ],
            i_len > 1 && v_len == 1 ==> r.inputs@.len() == indices@.len() && forall|k: int|
                0 <= k < indices@.len() ==> #[trigger] r.inputs@[k] == InputToValue::<
                    'a,
                    T,
                >::ManyToOne(indices@[k], vals@[0]@[0]),
            i_len == 1 && v_len > 1 ==> r.inputs@.len() == vals@.len() && forall|k: int|
                0 <= k < vals@.len() ==> #[trigger] r.inputs@[k] == InputToValue::<
                    'a,
                    T,
                >::OneToMany(indices@[0]@[0], vals@[k]),
            i_len > 1 && v_len > 1 ==> r.inputs@.len() <= indices@.len() && r.inputs@.len()
                <= vals@.len() && (r.inputs@.len() == indices@.len() || r.inputs@.len()
                == vals@.len()) && forall|k: int|
                0 <= k < r.inputs@.len() ==> #[trigger] r.inputs@[k] == InputToValue::<
                    'a,
                    T,
                >::ManyToMany(indices@[k], vals@[k]),
    {
        let inputs = pair(indices, i_len, vals, v_len);
        let submit_cnt: usize = inputs.len();
        OpSubmission { op, fetch: true, inputs, submit_cnt }
    }

    /// The next portion, from the last to the first, and whether it gets a task
    /// of its own: all but the first do.
    pub fn next_portion(&mut self) -> (r: Option<(InputToValue<'a, T>, bool)>)
        ensures
            final(self).op == old(self).op,
            final(self).fetch == old(self).fetch,
            final(self).submit_cnt == old(self).submit_cnt,
            old(self).inputs@.len() == 0 ==> r is None && final(self).inputs@ == old(self).inputs@,
            old(self).inputs@.len() > 0 ==> r == Some(
                (old(self).inputs@.last(), old(self).inputs@.len() > 1),
            ) && final(self).inputs@ == old(self).inputs@.drop_last(),
    {
        let own_task = self.inputs.len() > 1;
        match self.inputs.pop() {
            Some(input) => Some((input, own_task)),
            None => None,
        }
    }

    /// A portion has been handed over.
    pub fn portion_done(&mut self)
        requires
            old(self).submit_cnt > 0,
        ensures
            *final(self) == (OpSubmission {
                submit_cnt: (old(self).submit_cnt - 1) as usize,
                ..*old(self)
            }),
    {
        self.submit_cnt = self.submit_cnt - 1;
    }

    /// Whether all portions have been handed over.
    pub fn all_handed_over(&self) -> (r: bool)
        ensures
            r == (self.submit_cnt == 0),
    {
        self.submit_cnt == 0
    }
}

/// All operations of several portions, one after the other.
pub open spec fn all_ops<'a, T>(inputs: Seq<InputToValue<'a, T>>) -> Seq<(usize, T)>
    decreases inputs.len(),
{
    if inputs.len() == 0 {
        Seq::empty()
    } else {
        all_ops(inputs.drop_last()) + inputs.last()@
    }
}

/// All inputs of several portions, one after the other.
pub open spec fn all_inputs<'a, X>(portions: Seq<OpInputEnum<'a, X>>) -> Seq<X>
    decreases portions.len(),
{
    if portions.len() == 0 {
        Seq::empty()
    } else {
        all_inputs(portions.drop_last()) + portions.last()@
    }
}

/// One value goes to every index, whatever the portions.
pub proof fn one_value_goes_to_all<'a, T>(indices: Seq<OpInputEnum<'a, usize>>, value: T)
    ensures
        all_ops(
            Seq::new(indices.len(), |k: int| InputToValue::<'a, T>::ManyToOne(indices[k], value)),
        ) == many_to_one(all_inputs(indices), value),
    decreases indices.len(),
{
    let inputs = Seq::new(
        indices.len(),
        |k: int| InputToValue::<'a, T>::ManyToOne(indices[k], value),
    );
    if indices.len() > 0 {
        one_value_goes_to_all(indices.drop_last(), value);
        assert(inputs.drop_last() =~= Seq::new(
            indices.drop_last().len(),
            |k: int| InputToValue::<'a, T>::ManyToOne(indices.drop_last()[k], value),
        ));
        assert(all_ops(inputs) =~= many_to_one(all_inputs(indices), value));
    } else {
        assert(all_ops(inputs) =~= many_to_one(all_inputs(indices), value));
    }
}

/// Every value goes to the one index, whatever the portions.
pub proof fn all_values_go_to_one<'a, T>(index: usize, vals: Seq<OpInputEnum<'a, T>>)
    ensures
        all_ops(
            Seq::new(vals.len(), |k: int| InputToValue::<'a, T>::OneToMany(index, vals[k])),
        ) == one_to_many(index, all_inputs(vals)),
    decreases vals.len(),
{
    let inputs = Seq::new(vals.len(), |k: int| InputToValue::<'a, T>::OneToMany(index, vals[k]));
    if vals.len() > 0 {
        all_values_go_to_one(index, vals.drop_last());
        assert(inputs.drop_last() =~= Seq::new(
            vals.drop_last().len(),
            |k: int| InputToValue::<'a, T>::OneToMany(index, vals.drop_last()[k]),
        ));
        assert(all_ops(inputs) =~= one_to_many(index, all_inputs(vals)));
    } else {
        assert(all_ops(inputs) =~= one_to_many(index, all_inputs(vals)));
    }
}

/// Each index gets the value at its place, if the portions of indices and
/// values are equally long.
pub proof fn each_index_gets_its_value<'a, T>(
    indices: Seq<OpInputEnum<'a, usize>>,
    vals: Seq<OpInputEnum<'a, T>>,
)
    requires
        indices.len() == vals.len(),
        forall|k: int|
            0 <= k < indices.len() ==> (#[trigger] indices[k])@.len() == vals[k]@.len(),
    ensures
        all_ops(
            Seq::new(
                indices.len(),
                |k: int| InputToValue::<'a, T>::ManyToMany(indices[k], vals[k]),
            ),
        ) == zipped(all_inputs(indices), all_inputs(vals)),
        all_inputs(indices).len() == all_inputs(vals).len(),
    decreases indices.len(),
{
    let inputs = Seq::new(
        indices.len(),
        |k: int| InputToValue::<'a, T>::ManyToMany(indices[k], vals[k]),
    );
    if indices.len() > 0 {
        let fi = indices.drop_last();
        let fv = vals.drop_last();
        assert forall|k: int| 0 <= k < fi.len() implies (#[trigger] fi[k])@.len()
            == fv[k]@.len() by {
            assert(indices[k]@.len() == vals[k]@.len());
        }
        each_index_gets_its_value(fi, fv);
        assert(inputs.drop_last() =~= Seq::new(
            fi.len(),
            |k: int| InputToValue::<'a, T>::ManyToMany(fi[k], fv[k]),
        ));
        assert(indices[indices.len() - 1]@.len() == vals[vals.len() - 1]@.len());
        assert(all_ops(inputs) =~= zipped(all_inputs(indices), all_inputs(vals)));
    } else {
        assert(all_ops(inputs) =~= zipped(all_inputs(indices), all_inputs(vals)));
    }
}

/// Puts the values that one PE's operations have fetched where the numbers of
/// the operations say.
pub fn place_fetched<T: Copy>(
    results: &mut Vec<Option<T>>,
    req_ids: &Vec<usize>,
    fetched: &Vec<T>,
)
    requires
        req_ids@.len() == fetched@.len(),
        req_ids@.no_duplicates(),
        forall|j: int| 0 <= j < req_ids@.len() ==> #[trigger] req_ids@[j] < old(results)@.len(),
    ensures
        final(results)@.len() == old(results)@.len(),
        forall|j: int|
            0 <= j < req_ids@.len() ==> final(results)@[#[trigger] req_ids@[j] as int] == Some(
                fetched@[j],
            ),
        forall|k: int|
            0 <= k < old(results)@.len() && !req_ids@.contains(k as usize)
                ==> #[trigger] final(results)@[k] == old(results)@[k],
{
    let mut j: usize = 0;
    while j < req_ids.len()
        invariant
            j <= req_ids@.len(),
            req_ids@.len() == fetched@.len(),
            req_ids@.no_duplicates(),
            results@.len() == old(results)@.len(),
            forall|i: int| 0 <= i < req_ids@.len() ==> #[trigger] req_ids@[i] < results@.len(),
            forall|i: int|
                0 <= i < j ==> results@[#[trigger] req_ids@[i] as int] == Some(fetched@[i]),
            forall|k: int|
                0 <= k < results@.len() && !req_ids@.contains(k as usize)
                    ==> #[trigger] results@[k] == old(results)@[k],
        decreases req_ids@.len() - j,
    {
        assert(req_ids@.contains(req_ids@[j as int]));
        results.set(req_ids[j], Some(fetched[j]));
        j = j + 1;
    }
}

/// What is under way on an array: operations that are not done, and tasks that
/// have not sent what they gathered.
#[derive(Debug)]
pub struct OpCounters {
    pub req_cnt: usize,
    pub outstanding_reqs: usize,
}

impl OpCounters {
    /// Counts operations for one PE before they are gathered. Gives the count
    /// before.
    pub fn add_ops(&mut self, len: usize) -> (stall_mark: usize)
        requires
            old(self).req_cnt + len <= usize::MAX,
        ensures
            stall_mark == old(self).req_cnt,
            *final(self) == (OpCounters {
                req_cnt: (old(self).req_cnt + len) as usize,
                ..*old(self)
            }),
    {
        let stall_mark: usize = self.req_cnt;
        self.req_cnt = stall_mark + len;
        stall_mark
    }

    /// Counts a task that will send what was gathered, if these operations are
    /// the first for their PE. Gives whether there is such a task to start.
    pub fn launch(&mut self, first: bool) -> (r: bool)
        requires
            old(self).outstanding_reqs < usize::MAX,
        ensures
            r == first,
            *final(self) == (OpCounters {
                outstanding_reqs: if first {
                    (old(self).outstanding_reqs + 1) as usize
                } else {
                    old(self).outstanding_reqs
                },
                ..*old(self)
            }),
    {
        if first {
            self.outstanding_reqs = self.outstanding_reqs + 1;
        }
        first
    }

    /// A task has sent what was gathered, `len` operations, and they are done.
    pub fn complete(&mut self, len: usize)
        requires
            old(self).outstanding_reqs > 0,
            old(self).req_cnt >= len,
        ensures
            *final(self) == (OpCounters {
                req_cnt: (old(self).req_cnt - len) as usize,
                outstanding_reqs: (old(self).outstanding_reqs - 1) as usize,
            }),
    {
        self.outstanding_reqs = self.outstanding_reqs - 1;
        if len > 0 {
            self.req_cnt = self.req_cnt - len;
        }
    }

    /// Whether nothing is under way.
    pub fn idle(&self) -> (r: bool)
        ensures
            r == (self.outstanding_reqs == 0 && self.req_cnt == 0),
    {
        !(self.outstanding_reqs > 0 || self.req_cnt > 0)
    }
}

/// How often a task sees the count of operations come to rest before it sends.
pub const MAX_WAITS: usize = 1000;

/// Bytes of operations that are not held back any longer.
pub const MAX_HELD_LEN: usize = 100000000;

/// A task that waits for more operations before it sends.
#[derive(Clone, Copy, Debug, PartialEq, Eq, Structural)]
pub struct Stall {
    /// How often the count of operations came to rest.
    pub wait_cnt: usize,
    /// The count of operations when the task looked last.
    pub stall_mark: usize,
    /// Whether the task waits for the count to come to rest.
    pub settling: bool,
}

/// What a waiting task does next.
#[derive(Clone, Copy, Debug, PartialEq, Eq, Structural)]
pub enum StallStep {
    /// Look again at once.
    Continue,
    /// Look again later.
    Yield,
    /// Send what was gathered.
    Flush,
}

impl Stall {
    /// A task that was started when the count of operations was `stall_mark`.
    pub fn new(stall_mark: usize) -> (s: Stall)
        ensures
            s == (Stall { wait_cnt: 0, stall_mark, settling: false }),
    {
        Stall { wait_cnt: 0, stall_mark, settling: false }
    }

    /// Whether a task goes on waiting.
    pub open spec fn waits(self, req_cnt: int, op_len: int) -> bool {
        self.wait_cnt < MAX_WAITS && req_cnt * op_len < MAX_HELD_LEN
    }

    /// Looks at the count of operations, each of `op_len` bytes. The task waits
    /// until the count has come to rest often enough, or until enough
    /// operations are there.
    pub fn look(&mut self, req_cnt: usize, op_len: usize) -> (r: StallStep)
        requires
            old(self).settling ==> old(self).wait_cnt < MAX_WAITS,
        ensures
            final(self).settling ==> final(self).wait_cnt < MAX_WAITS,
            ({
                let s = *old(self);
                let t = *final(self);
                if !s.settling {
                    if s.waits(req_cnt as int, op_len as int) {
                        r == StallStep::Continue && t == (Stall { settling: true, ..s })
                    } else {
                        r == StallStep::Flush && t == s
                    }
                } else if s.stall_mark != req_cnt {
                    r == StallStep::Yield && t == (Stall { stall_mark: req_cnt, ..s })
                } else {
                    r == StallStep::Yield && t == (Stall {
                        wait_cnt: (s.wait_cnt + 1) as usize,
                        settling: false,
                        ..s
                    })
                }
            }),
            r == StallStep::Flush <==> !old(self).settling && (old(self).wait_cnt >= 1000 || req_cnt
                * op_len >= 100000000),
            r == StallStep::Continue <==> !old(self).settling && old(self).wait_cnt < 1000
                && req_cnt * op_len < 100000000,
    {
        if !self.settling {
            assert(0 <= req_cnt * op_len <= 0xffff_ffff_ffff_ffff * 0xffff_ffff_ffff_ffff)
                by (nonlinear_arith)
                requires
                    0 <= req_cnt <= 0xffff_ffff_ffff_ffff,
                    0 <= op_len <= 0xffff_ffff_ffff_ffff,
            ;
            if self.wait_cnt < MAX_WAITS && (req_cnt as u128) * (op_len as u128)
                < MAX_HELD_LEN as u128 {
                self.settling = true;
                StallStep::Continue
            } else {
                StallStep::Flush
            }
        } else if self.stall_mark != req_cnt {
            self.stall_mark = req_cnt;
            StallStep::Yield
        } else {
            self.wait_cnt = self.wait_cnt + 1;
            self.settling = false;
            StallStep::Yield
        }
    }
}

/// What one portion of operations does on each PE: for each group, in order, how
/// many operations are counted.
pub fn initiate_op_task<'a, T: Copy>(
    input: InputToValue<'a, T>,
    array: &UnsafeArrayInner,
    counters: &mut OpCounters,
) -> (r: (Vec<PeGroup<'a, T>>, Vec<usize>, usize))
    requires
        array.wf(),
        in_bounds(*array, input@),
        input matches InputToValue::OneToMany(index, _) ==> index < array.size,
        old(counters).req_cnt + input@.len() <= usize::MAX,
    ensures
        are_groups(*array, input, r.0@),
        r.1@.len() == r.0@.len(),
        r.2 == input.spec_len(),
        forall|i: int|
            0 <= i < r.1@.len() ==> #[trigger] r.1@[i] == old(counters).req_cnt + group_total(
                r.0@.take(i),
            ),
        final(counters).req_cnt == old(counters).req_cnt + group_total(r.0@),
        final(counters).outstanding_reqs == old(counters).outstanding_reqs,
        group_total(r.0@) == input@.len(),
        r.1@.len() > 0 ==> r.1@[0] == old(counters).req_cnt,
        forall|i: int|
            0 < i < r.1@.len() ==> #[trigger] r.1@[i] == r.1@[i - 1] + r.0@[i - 1].req_ids@.len(),
{
    let ghost ops = input@;
    let (groups, req_cnt) = input.to_pe_offsets(array);
    proof {
        split_counts(*array, ops, groups@);
    }
    let mut marks: Vec<usize> = Vec::new();
    let mut k: usize = 0;
    assert(groups@.take(0) == Seq::<PeGroup<'a, T>>::empty());
    while k < groups.len()
        invariant
            k <= groups@.len(),
            marks@.len() == k,
            group_total(groups@) == ops.len(),
            old(counters).req_cnt + ops.len() <= usize::MAX,
            counters.req_cnt == old(counters).req_cnt + group_total(groups@.take(k as int)),
            counters.outstanding_reqs == old(counters).outstanding_reqs,
            forall|i: int|
                0 <= i < k ==> #[trigger] marks@[i] == old(counters).req_cnt + group_total(
                    groups@.take(i),
                ),
        decreases groups@.len() - k,
    {
        let len: usize = groups[k].req_ids.len();
        proof {
            assert(groups@.take(k as int + 1).drop_last() == groups@.take(k as int));
            assert(groups@.take(k as int + 1).last() == groups@[k as int]);
            group_total_grows(groups@, k as int + 1);
        }
        let mark: usize = counters.add_ops(len);
        marks.push(mark);
        k = k + 1;
    }
    assert(groups@.take(k as int) == groups@);
    proof {
        assert forall|i: int| 0 < i < marks@.len() implies #[trigger] marks@[i] == marks@[i - 1]
            + groups@[i - 1].req_ids@.len() by {
            assert(groups@.take(i).drop_last() == groups@.take(i - 1));
            assert(groups@.take(i).last() == groups@[i - 1]);
        }
    }
    (groups, marks, req_cnt)
}

/// How many operations groups hold.
pub open spec fn group_total<'a, T>(groups: Seq<PeGroup<'a, T>>) -> int
    decreases groups.len(),
{
    if groups.len() == 0 {
        0
    } else {
        group_total(groups.drop_last()) + groups.last().req_ids@.len()
    }
}

proof fn group_total_grows<'a, T>(groups: Seq<PeGroup<'a, T>>, k: int)
    requires
        0 <= k <= groups.len(),
    ensures
        0 <= group_total(groups.take(k)) <= group_total(groups),
    decreases groups.len(),
{
    if k == groups.len() {
        assert(groups.take(k) == groups);
        if k > 0 {
            group_total_grows(groups.drop_last(), k - 1);
            assert(groups.drop_last().take(k - 1) == groups.drop_last());
        }
    } else {
        group_total_grows(groups.drop_last(), k);
        assert(groups.drop_last().take(k) == groups.take(k));
    }
}

/// How many operations go to the PEs of groups.
spec fn total_for<'a, T>(
    a: UnsafeArrayInner,
    ops: Seq<(usize, T)>,
    groups: Seq<PeGroup<'a, T>>,
) -> int
    decreases groups.len(),
{
    if groups.len() == 0 {
        0
    } else {
        total_for(a, ops, groups.drop_last()) + ids_for(a, ops, groups.last().pe).len()
    }
}

proof fn total_for_drop<'a, T>(
    a: UnsafeArrayInner,
    ops: Seq<(usize, T)>,
    groups: Seq<PeGroup<'a, T>>,
)
    requires
        ops.len() > 0,
        forall|i: int, j: int|
            0 <= i < j < groups.len() ==> (#[trigger] groups[i]).pe != (#[trigger] groups[j]).pe,
    ensures
        total_for(a, ops, groups) == total_for(a, ops.drop_last(), groups) + if exists|i: int|
            0 <= i < groups.len() && (#[trigger] groups[i]).pe == pe_of(a, ops.last().0) {
            1int
        } else {
            0
        },
    decreases groups.len(),
{
    if groups.len() > 0 {
        let front = groups.drop_last();
        let pe = pe_of(a, ops.last().0);
        assert forall|i: int, j: int| 0 <= i < j < front.len() implies (#[trigger] front[i]).pe != (
        #[trigger] front[j]).pe by {
            assert(groups[i].pe != groups[j].pe);
        }
        total_for_drop(a, ops, front);
        let n = groups.len() - 1;
        assert(groups.last() == groups[n]);
        if groups[n].pe == pe {
            assert forall|i: int| 0 <= i < front.len() implies (#[trigger] front[i]).pe != pe by {
                assert(groups[i].pe != groups[n].pe);
            }
        } else {
            if exists|i: int| 0 <= i < front.len() && (#[trigger] front[i]).pe == pe {
                let i = choose|i: int| 0 <= i < front.len() && (#[trigger] front[i]).pe == pe;
                assert(groups[i].pe == pe);
            }
            if exists|i: int| 0 <= i < groups.len() && (#[trigger] groups[i]).pe == pe {
                let i = choose|i: int| 0 <= i < groups.len() && (#[trigger] groups[i]).pe == pe;
                assert(front[i].pe == pe);
            }
        }
    }
}

proof fn total_for_all<'a, T>(
    a: UnsafeArrayInner,
    ops: Seq<(usize, T)>,
    groups: Seq<PeGroup<'a, T>>,
)
    requires
        forall|i: int, j: int|
            0 <= i < j < groups.len() ==> (#[trigger] groups[i]).pe != (#[trigger] groups[j]).pe,
        forall|pe: usize|
            (#[trigger] ids_for(a, ops, pe)).len() > 0 ==> exists|i: int|
                0 <= i < groups.len() && (#[trigger] groups[i]).pe == pe,
    ensures
        total_for(a, ops, groups) == ops.len(),
    decreases ops.len(),
{
    if ops.len() == 0 {
        no_ops_no_total(a, ops, groups);
    } else {
        let front = ops.drop_last();
        assert forall|pe: usize| (#[trigger] ids_for(a, front, pe)).len() > 0 implies exists|i: int|
            0 <= i < groups.len() && (#[trigger] groups[i]).pe == pe by {
            assert(ids_for(a, ops, pe).len() > 0);
        }
        total_for_all(a, front, groups);
        total_for_drop(a, ops, groups);
        let pe = pe_of(a, ops.last().0);
        assert(ids_for(a, ops, pe).len() > 0);
    }
}

proof fn no_ops_no_total<'a, T>(
    a: UnsafeArrayInner,
    ops: Seq<(usize, T)>,
    groups: Seq<PeGroup<'a, T>>,
)
    requires
        ops.len() == 0,
    ensures
        total_for(a, ops, groups) == 0,
    decreases groups.len(),
{
    if groups.len() > 0 {
        no_ops_no_total(a, ops, groups.drop_last());
    }
}

/// The groups of a split hold all operations together.
pub proof fn split_counts<'a, T>(
    a: UnsafeArrayInner,
    ops: Seq<(usize, T)>,
    groups: Seq<PeGroup<'a, T>>,
)
    requires
        is_split(a, ops, groups),
    ensures
        group_total(groups) == ops.len(),
{
    total_for_all(a, ops, groups);
    total_is_group_total(a, ops, groups, groups.len() as int);
    assert(groups.take(groups.len() as int) == groups);
}

proof fn total_is_group_total<'a, T>(
    a: UnsafeArrayInner,
    ops: Seq<(usize, T)>,
    groups: Seq<PeGroup<'a, T>>,
    k: int,
)
    requires
        is_split(a, ops, groups),
        0 <= k <= groups.len(),
    ensures
        group_total(groups.take(k)) == total_for(a, ops, groups.take(k)),
    decreases k,
{
    if k > 0 {
        total_is_group_total(a, ops, groups, k - 1);
        assert(groups.take(k).drop_last() == groups.take(k - 1));
        assert(groups.take(k).last() == groups[k - 1]);
        assert(groups[k - 1].req_ids@ == ids_for(a, ops, groups[k - 1].pe));
    }
}

/// What a PE is asked to do: the operation with number `n` of all operations, where
/// `n` is the `j`-th number of the PE's group, stands `j`-th in the group, with its
/// own value, and at the place that its own element has on that PE.
pub proof fn groups_hold_their_operations<'a, T>(
    a: UnsafeArrayInner,
    all: InputToValue<'a, T>,
    groups: Seq<PeGroup<'a, T>>,
    i: int,
    j: int,
)
    requires
        a.wf(),
        in_bounds(a, all@),
        all@.len() <= usize::MAX,
        are_groups(a, all, groups),
        0 <= i < groups.len(),
        0 <= j < groups[i].req_ids@.len(),
    ensures
        ({
            let pe = groups[i].pe;
            let n = groups[i].req_ids@[j] as int;
            match all {
                InputToValue::OneToOne(index, value) => {
                    &&& n == 0
                    &&& a.pe_for(index as int) == Some(pe)
                    &&& groups[i].input matches InputToValue::OneToOne(place, v)
                    &&& v == value
                    &&& a.offset_on(pe as int, index as int) == Some(place)
                },
                InputToValue::OneToMany(index, values) => {
                    &&& n < values@.len()
                    &&& a.pe_for(index as int) == Some(pe)
                    &&& groups[i].input matches InputToValue::OneToMany(place, vs)
                    &&& vs@[j] == values@[n]
                    &&& a.offset_on(pe as int, index as int) == Some(place)
                },
                InputToValue::ManyToOne(indices, value) => {
                    &&& n < indices@.len()
                    &&& a.pe_for(indices@[n] as int) == Some(pe)
                    &&& groups[i].input matches InputToValue::ManyToOne(places, v)
                    &&& v == value
                    &&& a.offset_on(pe as int, indices@[n] as int) == Some(places@[j])
                },
                InputToValue::ManyToMany(indices, values) => {
                    &&& n < indices@.len()
                    &&& n < values@.len()
                    &&& a.pe_for(indices@[n] as int) == Some(pe)
                    &&& groups[i].input matches InputToValue::ManyToMany(places, vs)
                    &&& vs@[j] == values@[n]
                    &&& a.offset_on(pe as int, indices@[n] as int) == Some(places@[j])
                },
            }
        }),
{
    let ops = all@;
    let g = groups[i];
    let pe = g.pe;
    assert(g.req_ids@ == ids_for(a, ops, pe));
    assert(same_form(a, all, g.input));
    ids_are_below(a, ops, pe);
    let n = ids_for(a, ops, pe)[j] as int;
    assert(ids_for(a, ops, pe).contains(n as usize));
    op_goes_to_one_pe(a, ops, n, pe);
    ops_match_ids(a, ops, pe, j);
    assert(ops[n].0 < a.size);
    unsafe_array::element_has_place(a, ops[n].0 as int);
    assert(g.input@[j] == (place_of(a, ops[n].0), ops[n].1));
    if let InputToValue::OneToMany(index, values) = all {
        one_pe_counts(a, ops, pe);
        assert(n == j);
    }
}

proof fn one_pe_counts<T>(a: UnsafeArrayInner, ops: Seq<(usize, T)>, pe: usize)
    requires
        ops.len() <= usize::MAX,
        forall|k: int| 0 <= k < ops.len() ==> pe_of(a, (#[trigger] ops[k]).0) == pe,
    ensures
        ids_for(a, ops, pe) == Seq::new(ops.len(), |k: int| k as usize),
    decreases ops.len(),
{
    if ops.len() > 0 {
        let front = ops.drop_last();
        assert forall|k: int| 0 <= k < front.len() implies pe_of(a, (#[trigger] front[k]).0)
            == pe by {
            assert(front[k] == ops[k]);
        }
        one_pe_counts(a, front, pe);
        assert(ops.last() == ops[ops.len() - 1]);
    }
    assert(ids_for(a, ops, pe) =~= Seq::new(ops.len(), |k: int| k as usize));
}

/// Whatever the portions, each index meets its value: one index meets every value,
/// one value meets every index, and else the index and the value at the same place
/// meet, if the portions of both are equally long.
pub proof fn indices_meet_their_values<'a, T>(
    indices: Seq<OpInputEnum<'a, usize>>,
    vals: Seq<OpInputEnum<'a, T>>,
    k: int,
)
    requires
        0 < all_inputs(indices).len() <= usize::MAX,
        0 < all_inputs(vals).len() <= usize::MAX,
        indices.len() > 0,
        vals.len() > 0,
        all_inputs(indices).len() == 1 ==> indices.len() == 1,
        all_inputs(vals).len() == 1 ==> vals.len() == 1,
        all_inputs(indices).len() > 1 && all_inputs(vals).len() > 1 ==> indices.len() == vals.len()
            && forall|m: int|
            0 <= m < indices.len() ==> (#[trigger] indices[m])@.len() == vals[m]@.len(),
        0 <= k,
        k < all_inputs(indices).len() || k < all_inputs(vals).len(),
    ensures
        ({
            let (is, vs) = (all_inputs(indices), all_inputs(vals));
            let ops = all_ops(paired(indices, is.len() as usize, vals, vs.len() as usize));
            &&& ops.len() == (if is.len() < vs.len() {
                vs.len()
            } else {
                is.len()
            })
            &&& ops[k].0 == is[if is.len() == 1 {
                0
            } else {
                k
            }]
            &&& ops[k].1 == vs[if vs.len() == 1 {
                0
            } else {
                k
            }]
        }),
{
    let (is, vs) = (all_inputs(indices), all_inputs(vals));
    let portions = paired(indices, is.len() as usize, vals, vs.len() as usize);
    if is.len() == 1 {
        single_portion(indices);
    }
    if vs.len() == 1 {
        single_portion(vals);
    }
    if is.len() == 1 && vs.len() == 1 {
        assert(portions.drop_last() =~= Seq::<InputToValue<'a, T>>::empty());
        assert(all_ops(portions.drop_last()) == Seq::<(usize, T)>::empty());
        assert(portions.last()@ == seq![(is[0], vs[0])]);
        assert(all_ops(portions) =~= seq![(is[0], vs[0])]);
    } else if vs.len() == 1 {
        one_value_goes_to_all(indices, vals[0]@[0]);
    } else if is.len() == 1 {
        all_values_go_to_one(indices[0]@[0], vals);
    } else {
        each_index_gets_its_value(indices, vals);
    }
}

proof fn single_portion<'a, X>(portions: Seq<OpInputEnum<'a, X>>)
    requires
        portions.len() == 1,
    ensures
        all_inputs(portions) == portions[0]@,
{
    assert(portions.drop_last() =~= Seq::<OpInputEnum<'a, X>>::empty());
    assert(all_inputs(portions.drop_last()) == Seq::<X>::empty());
    assert(portions.last() == portions[0]);
    assert(all_inputs(portions) =~= portions[0]@);
}

} // verus!
