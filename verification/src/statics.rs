//! Static data: where the values of a tuple or an array go in the
//! allocation that holds it.

use vstd::prelude::*;
use vstd::pervasive::unreached;
use crate::values::{fits_in, AllocId, ConstValue, Pointer, Scalar, TyCtxt};

verus! {

/// How a type is laid out, as far as placing values in it reads it.
#[derive(Debug, PartialEq, Eq, Hash)]
pub enum Layout {
    /// A field that takes one value.
    Value,
    /// A tuple: each field at its own offset.
    Tuple(Vec<Field>),
    /// An array: `count` elements, `stride` bytes apart.
    Array { element: Box<Layout>, stride: u64, count: u64 },
}

/// One field of a tuple.
#[derive(Debug, PartialEq, Eq, Hash)]
pub struct Field {
    pub offset: u64,
    pub layout: Layout,
}

/// The layout of the type of a static: its size and alignment in bytes, and
/// how its fields lie.
#[derive(Debug, PartialEq, Eq, Hash)]
pub struct StaticLayout {
    pub size: u64,
    pub align: u64,
    pub fields: Layout,
}

/// One scalar to write: where, what, and in how many bytes.
#[derive(Clone, Copy, Debug, PartialEq, Eq, Structural, Hash)]
pub struct ScalarWrite {
    pub dest: Pointer,
    pub scalar: Scalar,
    pub size: u8,
}

/// An allocation to make: `size` zero bytes with the given alignment, under
/// the identifier `id`, and then the writes in order.
#[derive(Debug, PartialEq, Eq, Hash)]
pub struct StaticAlloc {
    pub id: AllocId,
    pub size: u64,
    pub align: u64,
    pub writes: Vec<ScalarWrite>,
}

/// A value, and the allocation to make for it where it needs one.
#[derive(Debug, PartialEq, Eq, Hash)]
pub struct Built {
    pub value: ConstValue,
    pub alloc: Option<StaticAlloc>,
}

/// The offsets at which a layout based at `base` takes values, in the order
/// in which it takes them.
pub open spec fn slots(layout: Layout, base: int) -> Seq<int>
    decreases layout, 0nat,
{
    match layout {
        Layout::Value => seq![base],
        Layout::Tuple(fields) => field_slots(fields@, base, 0),
        Layout::Array { element, stride, count } => element_slots(
            *element,
            base,
            stride as int,
            0,
            count as int,
        ),
    }
}

/// The slots of the fields from field `i` on.
pub open spec fn field_slots(fields: Seq<Field>, base: int, i: int) -> Seq<int>
    decreases fields, fields.len() - i + 1,
{
    if 0 <= i < fields.len() {
        slots(fields[i].layout, base + fields[i].offset) + field_slots(fields, base, i + 1)
    } else {
        Seq::empty()
    }
}

/// The slots of the elements from element `i` on.
pub open spec fn element_slots(element: Layout, base: int, stride: int, i: int, count: int) -> Seq<
    int,
>
    decreases element, count - i + 1,
{
    if 0 <= i < count {
        slots(element, base + stride * i) + element_slots(element, base, stride, i + 1, count)
    } else {
        Seq::empty()
    }
}

/// Every offset of a layout based at `base` is at most `limit`.
pub open spec fn placed(layout: Layout, base: int, limit: int) -> bool
    decreases layout, 0nat,
{
    match layout {
        Layout::Value => base <= limit,
        Layout::Tuple(fields) => fields_placed(fields@, base, limit, 0),
        Layout::Array { element, stride, count } => elements_placed(
            *element,
            base,
            stride as int,
            limit,
            0,
            count as int,
        ),
    }
}

/// The fields from field `i` on are placed.
pub open spec fn fields_placed(fields: Seq<Field>, base: int, limit: int, i: int) -> bool
    decreases fields, fields.len() - i + 1,
{
    if 0 <= i < fields.len() {
        &&& base + fields[i].offset <= limit
        &&& placed(fields[i].layout, base + fields[i].offset, limit)
        &&& fields_placed(fields, base, limit, i + 1)
    } else {
        true
    }
}

/// The elements from element `i` on are placed.
pub open spec fn elements_placed(
    element: Layout,
    base: int,
    stride: int,
    limit: int,
    i: int,
    count: int,
) -> bool
    decreases element, count - i + 1,
{
    if 0 <= i < count {
        &&& base + stride * i <= limit
        &&& placed(element, base + stride * i, limit)
        &&& elements_placed(element, base, stride, limit, i + 1, count)
    } else {
        true
    }
}

/// The number of bytes that a value takes in memory on the target.
pub open spec fn value_width(value: ConstValue, tcx: TyCtxt) -> int {
    match value {
        ConstValue::Scalar(s) => s.spec_width(tcx) as int,
        ConstValue::Slice(data, _) => data.spec_width(tcx) + tcx.pointer_size,
        ConstValue::ByRef(_) => 0,
    }
}

/// The value can be written as scalars: it is a scalar, or a slice whose
/// length a pointer of the target can hold.
pub open spec fn writable(value: ConstValue, tcx: TyCtxt) -> bool {
    match value {
        ConstValue::Scalar(_) => true,
        ConstValue::Slice(_, len) => fits_in(len as u128, tcx.pointer_size),
        ConstValue::ByRef(_) => false,
    }
}

/// The writes that put `value` at offset `at` of allocation `id`: a scalar
/// as it is; a slice as its data pointer and, behind it, its length as a
/// pointer-sized number.
pub open spec fn value_writes(value: ConstValue, id: AllocId, at: int, tcx: TyCtxt) -> Seq<
    ScalarWrite,
> {
    match value {
        ConstValue::Scalar(s) => seq![
            ScalarWrite {
                dest: Pointer { alloc_id: id, offset: at as u64 },
                scalar: s,
                size: s.spec_width(tcx),
            },
        ],
        ConstValue::Slice(data, len) => seq![
            ScalarWrite {
                dest: Pointer { alloc_id: id, offset: at as u64 },
                scalar: data,
                size: data.spec_width(tcx),
            },
            ScalarWrite {
                dest: Pointer { alloc_id: id, offset: (at + data.spec_width(tcx)) as u64 },
                scalar: Scalar::Bits { size: tcx.pointer_size, bits: len as u128 },
                size: tcx.pointer_size,
            },
        ],
        ConstValue::ByRef(_) => Seq::empty(),
    }
}

/// The writes that put the values from `values[next]` on at the offsets of
/// `at`, one value at each offset, in order.
pub open spec fn planned_writes(
    at: Seq<int>,
    values: Seq<ConstValue>,
    next: int,
    id: AllocId,
    tcx: TyCtxt,
) -> Seq<ScalarWrite>
    decreases at.len(),
{
    if at.len() == 0 {
        Seq::empty()
    } else {
        value_writes(values[next], id, at[0], tcx) + planned_writes(
            at.drop_first(),
            values,
            next + 1,
            id,
            tcx,
        )
    }
}

/// The value can be written at offset `at` and ends at most at `limit`.
pub open spec fn value_fits(value: ConstValue, at: int, tcx: TyCtxt, limit: int) -> bool {
    writable(value, tcx) && 0 <= at && at + value_width(value, tcx) <= limit
}

/// There is a value for each offset of `at`, from `values[next]` on, and
/// each can be written there and ends at most at `limit`.
pub open spec fn values_fit(
    at: Seq<int>,
    values: Seq<ConstValue>,
    next: int,
    tcx: TyCtxt,
    limit: int,
) -> bool {
    &&& 0 <= next
    &&& next + at.len() <= values.len()
    &&& forall|k: int|
        0 <= k < at.len() ==> value_fits(values[next + k], #[trigger] at[k], tcx, limit)
}

/// Values that fit a list of offsets fit its front and its back.
pub proof fn lemma_values_fit_split(
    front: Seq<int>,
    back: Seq<int>,
    values: Seq<ConstValue>,
    next: int,
    tcx: TyCtxt,
    limit: int,
)
    requires
        values_fit(front + back, values, next, tcx, limit),
    ensures
        values_fit(front, values, next, tcx, limit),
        values_fit(back, values, next + front.len(), tcx, limit),
{
    let all = front + back;
    assert(all.len() == front.len() + back.len());
    assert forall|k: int| 0 <= k < front.len() implies value_fits(
        values[next + k],
        #[trigger] front[k],
        tcx,
        limit,
    ) by {
        assert(all[k] == front[k]);
    }
    assert forall|k: int| 0 <= k < back.len() implies value_fits(
        values[next + front.len() + k],
        #[trigger] back[k],
        tcx,
        limit,
    ) by {
        assert(all[front.len() + k] == back[k]);
    }
}

/// The writes for a list of offsets are those for its front and then those
/// for its back.
pub proof fn lemma_planned_writes_split(
    front: Seq<int>,
    back: Seq<int>,
    values: Seq<ConstValue>,
    next: int,
    id: AllocId,
    tcx: TyCtxt,
)
    ensures
        planned_writes(front + back, values, next, id, tcx) == planned_writes(
            front,
            values,
            next,
            id,
            tcx,
        ) + planned_writes(back, values, next + front.len(), id, tcx),
    decreases front.len(),
{
    if front.len() == 0 {
        assert(front + back =~= back);
        assert(planned_writes(front, values, next, id, tcx) =~= Seq::<ScalarWrite>::empty());
        assert(planned_writes(front + back, values, next, id, tcx) =~= planned_writes(
            front,
            values,
            next,
            id,
            tcx,
        ) + planned_writes(back, values, next + front.len(), id, tcx));
    } else {
        lemma_planned_writes_split(front.drop_first(), back, values, next + 1, id, tcx);
        assert((front + back).drop_first() =~= front.drop_first() + back);
        assert((front + back)[0] == front[0]);
        assert(planned_writes(front + back, values, next, id, tcx) =~= planned_writes(
            front,
            values,
            next,
            id,
            tcx,
        ) + planned_writes(back, values, next + front.len(), id, tcx));
    }
}

/// Appends the writes that put `value` at offset `at` of allocation
/// `alloc_id`.
pub fn write_value(
    tcx: TyCtxt,
    value: ConstValue,
    alloc_id: AllocId,
    at: u64,
    limit: u64,
    writes: &mut Vec<ScalarWrite>,
)
    requires
        value_fits(value, at as int, tcx, limit as int),
    ensures
        final(writes)@ == old(writes)@ + value_writes(value, alloc_id, at as int, tcx),
{
    match value {
        ConstValue::Scalar(scalar) => {
            let size = scalar.width(tcx);
            writes.push(ScalarWrite { dest: Pointer::new(alloc_id, at), scalar, size });
            assert(writes@ =~= old(writes)@ + value_writes(value, alloc_id, at as int, tcx));
        },
        ConstValue::Slice(data, len) => {
            let size = data.width(tcx);
            writes.push(ScalarWrite { dest: Pointer::new(alloc_id, at), scalar: data, size });
            let behind = at + size as u64;
            let len = Scalar::from_uint(len as u128, tcx.pointer_size);
            writes.push(
                ScalarWrite { dest: Pointer::new(alloc_id, behind), scalar: len, size: tcx.pointer_size },
            );
            assert(writes@ =~= old(writes)@ + value_writes(value, alloc_id, at as int, tcx));
        },
        ConstValue::ByRef(_) => unreached(),
    }
}

/// Takes the next value of `tuple` and appends the writes that put it at
/// offset `at`.
fn write_leaf(
    tcx: TyCtxt,
    tuple: &Vec<ConstValue>,
    next: &mut usize,
    alloc_id: AllocId,
    writes: &mut Vec<ScalarWrite>,
    limit: u64,
    at: u64,
)
    requires
        values_fit(seq![at as int], tuple@, *old(next) as int, tcx, limit as int),
    ensures
        *final(next) == *old(next) + 1,
        final(writes)@ == old(writes)@ + planned_writes(
            seq![at as int],
            tuple@,
            *old(next) as int,
            alloc_id,
            tcx,
        ),
{
    let ghost next0 = *next as int;
    let ghost whole = seq![at as int];
    assert(whole[0] == at);
    assert(value_fits(tuple@[next0], whole[0], tcx, limit as int));
    assert(*next < tuple.len());
    let value = tuple[*next];
    write_value(tcx, value, alloc_id, at, limit, writes);
    *next = *next + 1;
    assert(whole.drop_first() =~= Seq::<int>::empty());
    assert(planned_writes(whole.drop_first(), tuple@, next0 + 1, alloc_id, tcx) =~= Seq::<
        ScalarWrite,
    >::empty());
    assert(planned_writes(whole, tuple@, next0, alloc_id, tcx) =~= value_writes(
        value,
        alloc_id,
        at as int,
        tcx,
    ));
}

/// Places the values of a tuple or an array: appends to `writes` the writes
/// that put one value of `tuple`, from `tuple[*next]` on, at each offset at
/// which `layout`, based at `base`, takes a value, and moves `next` behind
/// the values it took.
///
/// The layout is that of a tuple or an array. A field that is itself a
/// tuple or an array takes its values at its own offsets, in order, before
/// the fields behind it take theirs; any other field takes one value.
#[verifier::loop_isolation(false)]
pub fn write_static_tuple(
    tcx: TyCtxt,
    tuple: &Vec<ConstValue>,
    next: &mut usize,
    alloc_id: AllocId,
    writes: &mut Vec<ScalarWrite>,
    limit: u64,
    base: u64,
    layout: &Layout,
)
    requires
        !(*layout is Value),
        placed(*layout, base as int, limit as int),
        values_fit(slots(*layout, base as int), tuple@, *old(next) as int, tcx, limit as int),
    ensures
        *final(next) == *old(next) + slots(*layout, base as int).len(),
        final(writes)@ == old(writes)@ + planned_writes(
            slots(*layout, base as int),
            tuple@,
            *old(next) as int,
            alloc_id,
            tcx,
        ),
    decreases layout,
{
    let ghost next0 = *next as int;
    let ghost writes0 = writes@;
    let ghost whole = slots(*layout, base as int);
    match layout {
        Layout::Value => unreached(),
        Layout::Tuple(fields) => {
            let mut i: usize = 0;
            assert(writes@ =~= writes0);
            while i < fields.len()
                invariant
                    i <= fields@.len(),
                    *layout == Layout::Tuple(*fields),
                    whole == field_slots(fields@, base as int, 0),
                    fields_placed(fields@, base as int, limit as int, i as int),
                    values_fit(
                        field_slots(fields@, base as int, i as int),
                        tuple@,
                        *next as int,
                        tcx,
                        limit as int,
                    ),
                    *next + field_slots(fields@, base as int, i as int).len() == next0 + whole.len(),
                    writes@ + planned_writes(
                        field_slots(fields@, base as int, i as int),
                        tuple@,
                        *next as int,
                        alloc_id,
                        tcx,
                    ) == writes0 + planned_writes(whole, tuple@, next0, alloc_id, tcx),
                decreases fields@.len() - i,
            {
                let field = &fields[i];
                let ghost here = slots(field.layout, base + field.offset);
                let ghost rest = field_slots(fields@, base as int, i as int + 1);
                let ghost before = writes@;
                let ghost at = *next as int;
                proof {
                    lemma_values_fit_split(here, rest, tuple@, at, tcx, limit as int);
                    lemma_planned_writes_split(here, rest, tuple@, at, alloc_id, tcx);
                    vstd::std_specs::vec::axiom_vec_index_decreases(*fields, i as int);
                }
                match &field.layout {
                    Layout::Value => write_leaf(
                        tcx,
                        tuple,
                        next,
                        alloc_id,
                        writes,
                        limit,
                        base + field.offset,
                    ),
                    inner => write_static_tuple(
                        tcx,
                        tuple,
                        next,
                        alloc_id,
                        writes,
                        limit,
                        base + field.offset,
                        inner,
                    ),
                }
                assert(writes@ + planned_writes(rest, tuple@, *next as int, alloc_id, tcx) =~= before
                    + planned_writes(here + rest, tuple@, at, alloc_id, tcx));
                i += 1;
            }
            assert(planned_writes(
                field_slots(fields@, base as int, i as int),
                tuple@,
                *next as int,
                alloc_id,
                tcx,
            ) =~= Seq::<ScalarWrite>::empty());
            assert(writes@ =~= writes0 + planned_writes(whole, tuple@, next0, alloc_id, tcx));
        },
        Layout::Array { element, stride, count } => {
            let mut i: u64 = 0;
            assert(writes@ =~= writes0);
            while i < *count
                invariant
                    i <= *count,
                    *layout == (Layout::Array { element: *element, stride: *stride, count: *count }),
                    whole == element_slots(**element, base as int, *stride as int, 0, *count as int),
                    elements_placed(
                        **element,
                        base as int,
                        *stride as int,
                        limit as int,
                        i as int,
                        *count as int,
                    ),
                    values_fit(
                        element_slots(
                            **element,
                            base as int,
                            *stride as int,
                            i as int,
                            *count as int,
                        ),
                        tuple@,
                        *next as int,
                        tcx,
                        limit as int,
                    ),
                    *next + element_slots(
                        **element,
                        base as int,
                        *stride as int,
                        i as int,
                        *count as int,
                    ).len() == next0 + whole.len(),
                    writes@ + planned_writes(
                        element_slots(
                            **element,
                            base as int,
                            *stride as int,
                            i as int,
                            *count as int,
                        ),
                        tuple@,
                        *next as int,
                        alloc_id,
                        tcx,
                    ) == writes0 + planned_writes(whole, tuple@, next0, alloc_id, tcx),
                decreases *count - i,
            {
                let ghost here = slots(**element, base + *stride * i);
                let ghost rest = element_slots(
                    **element,
                    base as int,
                    *stride as int,
                    i as int + 1,
                    *count as int,
                );
                let ghost before = writes@;
                let ghost at = *next as int;
                proof {
                    lemma_values_fit_split(here, rest, tuple@, at, tcx, limit as int);
                    lemma_planned_writes_split(here, rest, tuple@, at, alloc_id, tcx);
                    assert(0 <= *stride * i) by (nonlinear_arith)
                        requires
                            0 <= *stride,
                            0 <= i,
                    ;
                }
                let offset = *stride * i;
                match &**element {
                    Layout::Value => write_leaf(
                        tcx,
                        tuple,
                        next,
                        alloc_id,
                        writes,
                        limit,
                        base + offset,
                    ),
                    inner => write_static_tuple(
                        tcx,
                        tuple,
                        next,
                        alloc_id,
                        writes,
                        limit,
                        base + offset,
                        inner,
                    ),
                }
                assert(writes@ + planned_writes(rest, tuple@, *next as int, alloc_id, tcx) =~= before
                    + planned_writes(here + rest, tuple@, at, alloc_id, tcx));
                i += 1;
            }
            assert(planned_writes(
                element_slots(**element, base as int, *stride as int, i as int, *count as int),
                tuple@,
                *next as int,
                alloc_id,
                tcx,
            ) =~= Seq::<ScalarWrite>::empty());
            assert(writes@ =~= writes0 + planned_writes(whole, tuple@, next0, alloc_id, tcx));
        },
    }
}

/// The allocation that holds the values of `tuple` laid out as `layout`
/// says: as large and as aligned as the layout says, zeroed, with each value
/// written at its offset.
///
/// The layout is that of a tuple or an array and takes exactly the values of
/// `tuple`.
pub fn static_tuple_alloc(
    tcx: TyCtxt,
    tuple: &Vec<ConstValue>,
    alloc_id: AllocId,
    layout: &StaticLayout,
) -> (alloc: StaticAlloc)
    requires
        !(layout.fields is Value),
        placed(layout.fields, 0, layout.size as int),
        values_fit(slots(layout.fields, 0), tuple@, 0, tcx, layout.size as int),
        slots(layout.fields, 0).len() == tuple@.len(),
    ensures
        alloc.id == alloc_id,
        alloc.size == layout.size,
        alloc.align == layout.align,
        alloc.writes@ == planned_writes(slots(layout.fields, 0), tuple@, 0, alloc_id, tcx),
{
    let mut writes: Vec<ScalarWrite> = Vec::new();
    let mut next: usize = 0;
    write_static_tuple(tcx, tuple, &mut next, alloc_id, &mut writes, layout.size, 0, &layout.fields);
    assert(writes@ =~= planned_writes(slots(layout.fields, 0), tuple@, 0, alloc_id, tcx));
    StaticAlloc { id: alloc_id, size: layout.size, align: layout.align, writes }
}

/// The value of a static tuple or array: a pointer to the start of the
/// allocation that holds its values, together with that allocation.
pub fn static_tuple_const_value(
    tcx: TyCtxt,
    tuple: &Vec<ConstValue>,
    alloc_id: AllocId,
    layout: &StaticLayout,
) -> (built: Built)
    requires
        !(layout.fields is Value),
        placed(layout.fields, 0, layout.size as int),
        values_fit(slots(layout.fields, 0), tuple@, 0, tcx, layout.size as int),
        slots(layout.fields, 0).len() == tuple@.len(),
    ensures
        built.value == ConstValue::Scalar(Scalar::Ptr(Pointer { alloc_id, offset: 0 })),
        built.alloc matches Some(alloc) && alloc.id == alloc_id && alloc.size == layout.size
            && alloc.align == layout.align && alloc.writes@ == planned_writes(
            slots(layout.fields, 0),
            tuple@,
            0,
            alloc_id,
            tcx,
        ),
{
    let alloc = static_tuple_alloc(tcx, tuple, alloc_id, layout);
    let ptr = Pointer::start_of(alloc_id);
    let scalar = Scalar::Ptr(ptr);
    Built { value: ConstValue::Scalar(scalar), alloc: Some(alloc) }
}

/// `built` is the optional value made of `val`, with `fresh` as the
/// identifier of the allocation that it may need.
///
/// Nothing gives the empty slice at the null pointer. A pointer gives the
/// slice of one element at that pointer. Plain bits give the slice of one
/// element at the start of a new allocation, which is as large as the bits,
/// aligned to one byte, and holds them.
pub open spec fn is_compiler_opt(built: Built, tcx: TyCtxt, val: Option<ConstValue>, fresh: AllocId) -> bool {
    match val {
        None => built.value == ConstValue::Slice(Scalar::spec_ptr_null(tcx), 0) && built.alloc is None,
        Some(ConstValue::Scalar(Scalar::Ptr(ptr))) => built.value == ConstValue::Slice(
            Scalar::Ptr(ptr),
            1,
        ) && built.alloc is None,
        Some(ConstValue::Scalar(Scalar::Bits { size, bits })) => {
            &&& built.value == ConstValue::Slice(
                Scalar::Ptr(Pointer { alloc_id: fresh, offset: 0 }),
                1,
            )
            &&& built.alloc matches Some(alloc) && alloc.id == fresh && alloc.size == size
                && alloc.align == 1 && alloc.writes@ == seq![
                ScalarWrite {
                    dest: Pointer { alloc_id: fresh, offset: 0 },
                    scalar: Scalar::Bits { size, bits },
                    size,
                },
            ]
        },
        Some(_) => false,
    }
}

/// Makes the optional value of an evaluated value.
///
/// The value, where there is one, is a scalar.
pub fn compiler_opt_of(tcx: TyCtxt, val: Option<ConstValue>, fresh: AllocId) -> (built: Built)
    requires
        val matches Some(v) ==> v is Scalar,
    ensures
        is_compiler_opt(built, tcx, val, fresh),
{
    match val {
        Some(ConstValue::Scalar(Scalar::Ptr(ptr))) => Built {
            value: ConstValue::new_slice(Scalar::Ptr(ptr), 1),
            alloc: None,
        },
        Some(ConstValue::Scalar(Scalar::Bits { size, bits })) => {
            let scalar = Scalar::Bits { size, bits };
            let ptr = Pointer::start_of(fresh);
            let mut writes: Vec<ScalarWrite> = Vec::new();
            writes.push(ScalarWrite { dest: ptr, scalar, size });
            let alloc = StaticAlloc { id: fresh, size: size as u64, align: 1, writes };
            Built { value: ConstValue::new_slice(Scalar::Ptr(ptr), 1), alloc: Some(alloc) }
        },
        Some(_) => unreached(),
        None => Built { value: ConstValue::new_slice(Scalar::ptr_null(tcx), 0), alloc: None },
    }
}

/// Makes the optional value of `val`: applies `some_val` to what `val`
/// holds, if anything, and makes the optional value of the result.
///
/// `some_val` can be applied to what `val` holds and returns a scalar.
pub fn build_compiler_opt<T, F: FnOnce(TyCtxt, T) -> ConstValue>(
    tcx: TyCtxt,
    val: Option<T>,
    some_val: F,
    fresh: AllocId,
) -> (built: Built)
    requires
        val matches Some(v) ==> some_val.requires((tcx, v)) && forall|r: ConstValue|
            some_val.ensures((tcx, v), r) ==> r is Scalar,
    ensures
        val is None ==> is_compiler_opt(built, tcx, None, fresh),
        val matches Some(v) ==> exists|r: ConstValue|
            some_val.ensures((tcx, v), r) && is_compiler_opt(built, tcx, Some(r), fresh),
{
    match val {
        Some(v) => {
            let r = some_val(tcx, v);
            compiler_opt_of(tcx, Some(r), fresh)
        },
        None => compiler_opt_of(tcx, None, fresh),
    }
}

} // verus!
