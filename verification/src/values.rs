//! Constant values, types and operands, as far as building the constants of
//! a specialized program reads them.

use vstd::prelude::*;
use vstd::arithmetic::power2::{lemma2_to64, pow2};
use crate::item::ConcretizedItem;

verus! {

/// What building constants reads of the compilation context: the size of a
/// pointer on the target, in bytes.
#[derive(Clone, Copy, Debug, PartialEq, Eq, Structural, Hash)]
pub struct TyCtxt {
    pub pointer_size: u8,
}

/// The identifier of an allocation of constant memory.
#[derive(Clone, Copy, Debug, PartialEq, Eq, Structural, Hash)]
pub struct AllocId {
    pub index: u64,
}

/// A place in an allocation.
#[derive(Clone, Copy, Debug, PartialEq, Eq, Structural, Hash)]
pub struct Pointer {
    pub alloc_id: AllocId,
    pub offset: u64,
}

impl Pointer {
    /// The place `offset` bytes into an allocation.
    pub fn new(alloc_id: AllocId, offset: u64) -> (p: Pointer)
        ensures
            p == (Pointer { alloc_id, offset }),
    {
        Pointer { alloc_id, offset }
    }

    /// The start of an allocation.
    pub fn start_of(alloc_id: AllocId) -> (p: Pointer)
        ensures
            p == (Pointer { alloc_id, offset: 0 }),
    {
        Pointer { alloc_id, offset: 0 }
    }
}

/// A value of scalar size: `size` bytes of plain bits, or a pointer.
#[derive(Clone, Copy, Debug, PartialEq, Eq, Structural, Hash)]
pub enum Scalar {
    Bits { size: u8, bits: u128 },
    Ptr(Pointer),
}

/// `bits` can be held in `size` bytes.
pub open spec fn fits_in(bits: u128, size: u8) -> bool {
    size >= 16 || (bits as nat) < pow2(8 * (size as nat))
}

impl Scalar {
    /// The null pointer of the target.
    pub open spec fn spec_ptr_null(tcx: TyCtxt) -> Scalar {
        Scalar::Bits { size: tcx.pointer_size, bits: 0 }
    }

    /// The null pointer of the target.
    #[verifier::when_used_as_spec(spec_ptr_null)]
    pub fn ptr_null(tcx: TyCtxt) -> (s: Scalar)
        ensures
            s == Scalar::spec_ptr_null(tcx),
    {
        Scalar::Bits { size: tcx.pointer_size, bits: 0 }
    }

    /// The scalar of a truth value: one byte, zero or one.
    pub open spec fn spec_from_bool(v: bool) -> Scalar {
        Scalar::Bits {
            size: 1,
            bits: if v {
                1
            } else {
                0
            },
        }
    }

    /// The scalar of a truth value: one byte, zero or one.
    #[verifier::when_used_as_spec(spec_from_bool)]
    pub fn from_bool(v: bool) -> (s: Scalar)
        ensures
            s == Scalar::spec_from_bool(v),
    {
        Scalar::Bits {
            size: 1,
            bits: if v {
                1
            } else {
                0
            },
        }
    }

    /// The scalar of an unsigned number held in `size` bytes.
    pub open spec fn spec_from_uint(v: u128, size: u8) -> Scalar {
        Scalar::Bits { size, bits: v }
    }

    /// The scalar of an unsigned number held in `size` bytes, which must be
    /// able to hold it.
    #[verifier::when_used_as_spec(spec_from_uint)]
    pub fn from_uint(v: u128, size: u8) -> (s: Scalar)
        requires
            fits_in(v, size),
        ensures
            s == Scalar::spec_from_uint(v, size),
    {
        Scalar::Bits { size, bits: v }
    }

    /// The number of bytes that the scalar takes in memory on the target.
    pub open spec fn spec_width(self, tcx: TyCtxt) -> u8 {
        match self {
            Scalar::Bits { size, .. } => size,
            Scalar::Ptr(_) => tcx.pointer_size,
        }
    }

    /// The number of bytes that the scalar takes in memory on the target.
    #[verifier::when_used_as_spec(spec_width)]
    pub fn width(self, tcx: TyCtxt) -> (w: u8)
        ensures
            w == self.spec_width(tcx),
    {
        match self {
            Scalar::Bits { size, .. } => size,
            Scalar::Ptr(_) => tcx.pointer_size,
        }
    }
}

/// A constant value.
#[derive(Clone, Copy, Debug, PartialEq, Eq, Structural, Hash)]
pub enum ConstValue {
    /// One scalar.
    Scalar(Scalar),
    /// A slice: the scalar of its data pointer, and its length.
    Slice(Scalar, u64),
    /// A value that lives in an allocation.
    ByRef(Pointer),
}

impl ConstValue {
    /// The slice of `len` elements whose data pointer is `data`.
    pub fn new_slice(data: Scalar, len: u64) -> (v: ConstValue)
        ensures
            v == ConstValue::Slice(data, len),
    {
        ConstValue::Slice(data, len)
    }
}

/// The region of a reference type.
#[derive(Clone, Copy, Debug, PartialEq, Eq, Structural, Hash)]
pub enum Region {
    Static,
    Erased,
}

/// Whether a reference type permits mutation.
#[derive(Clone, Copy, Debug, PartialEq, Eq, Structural, Hash)]
pub enum Mutability {
    Immutable,
    Mutable,
}

/// A concrete type.
#[derive(Debug, PartialEq, Eq, Hash)]
pub enum Ty {
    Bool,
    U32,
    U64,
    Usize,
    Str,
    /// The type of a function item: its definition and the identifier of its
    /// concrete arguments.
    FnDef { def: u64, args: u64 },
    Ref { region: Region, target: Box<Ty>, mutability: Mutability },
    Slice(Box<Ty>),
    Array { element: Box<Ty>, len: u64 },
    /// A tuple; the empty tuple is the unit type.
    Tuple(Vec<Ty>),
    /// Any other type, by its identifier.
    Opaque(u64),
}

impl Ty {
    /// The type is the unit type.
    pub open spec fn is_unit(self) -> bool {
        self matches Ty::Tuple(fields) && fields@.len() == 0
    }

    /// The function item that the type names, if it is the type of one.
    pub open spec fn fn_item(self) -> Option<ConcretizedItem> {
        match self {
            Ty::FnDef { def, args } => Some(ConcretizedItem::Fn { def, args }),
            _ => None,
        }
    }

    /// The function that the type names: the type is that of a function item
    /// or of a reference to one.
    pub open spec fn named_fn(self) -> Option<ConcretizedItem> {
        match self {
            Ty::Ref { target, .. } => target.fn_item(),
            _ => self.fn_item(),
        }
    }

    /// The type is the unit type or a reference to it.
    pub open spec fn names_nothing(self) -> bool {
        match self {
            Ty::Ref { target, .. } => target.is_unit(),
            _ => self.is_unit(),
        }
    }

    /// The static string slice type.
    pub open spec fn static_str() -> Ty {
        Ty::Ref { region: Region::Static, target: Box::new(Ty::Str), mutability: Mutability::Immutable }
    }
}

/// The function that a type names, if it names one.
fn named(local_ty: &Ty) -> (found: Option<ConcretizedItem>)
    ensures
        found == local_ty.named_fn(),
{
    match local_ty {
        Ty::Ref { target, .. } => match &**target {
            Ty::FnDef { def, args } => Some(ConcretizedItem::Fn { def: *def, args: *args }),
            _ => None,
        },
        Ty::FnDef { def, args } => Some(ConcretizedItem::Fn { def: *def, args: *args }),
        _ => None,
    }
}

/// The concrete function behind the function that `local_ty` names: what
/// `resolve` makes of the function that the type names. For a method of a
/// trait that is the method of the selected impl.
///
/// The type is that of a function item or of a reference to one, and
/// `resolve` can be applied to the function it names and resolves it.
pub fn extract_fn_instance<F: FnOnce(ConcretizedItem) -> Option<ConcretizedItem>>(
    local_ty: &Ty,
    resolve: F,
) -> (instance: ConcretizedItem)
    requires
        local_ty.named_fn() is Some,
        resolve.requires((local_ty.named_fn()->Some_0,)),
        forall|r: Option<ConcretizedItem>|
            resolve.ensures((local_ty.named_fn()->Some_0,), r) ==> r is Some,
    ensures
        resolve.ensures((local_ty.named_fn()->Some_0,), Some(instance)),
{
    let found = named(local_ty).unwrap();
    resolve(found).unwrap()
}

/// The concrete function behind the function that `local_ty` names, as
/// `resolve` gives it, or nothing where the type is the unit type or a
/// reference to it.
///
/// The type is one of these two, or that of a function item or of a
/// reference to one; in that case `resolve` can be applied to the function
/// it names and resolves it.
pub fn extract_opt_fn_instance<F: FnOnce(ConcretizedItem) -> Option<ConcretizedItem>>(
    local_ty: &Ty,
    resolve: F,
) -> (instance: Option<ConcretizedItem>)
    requires
        local_ty.names_nothing() || local_ty.named_fn() is Some,
        local_ty.named_fn() matches Some(f) ==> resolve.requires((f,)) && forall|
            r: Option<ConcretizedItem>,
        |
            resolve.ensures((f,), r) ==> r is Some,
    ensures
        instance is None <==> local_ty.names_nothing(),
        instance matches Some(i) ==> resolve.ensures((local_ty.named_fn()->Some_0,), Some(i)),
{
    match named(local_ty) {
        Some(found) => Some(resolve(found).unwrap()),
        None => None,
    }
}

/// The type of a static slice of `elem`: an immutable reference, with the
/// static region, to a slice of `elem`.
pub fn mk_static_slice(elem: Ty) -> (ty: Ty)
    ensures
        ty == (Ty::Ref {
            region: Region::Static,
            target: Box::new(Ty::Slice(Box::new(elem))),
            mutability: Mutability::Immutable,
        }),
{
    Ty::Ref {
        region: Region::Static,
        target: Box::new(Ty::Slice(Box::new(elem))),
        mutability: Mutability::Immutable,
    }
}

/// A region of source text.
#[derive(Clone, Copy, Debug, PartialEq, Eq, Structural, Hash)]
pub struct Span {
    pub lo: u32,
    pub hi: u32,
}

impl Span {
    /// The span of what has no place in the source text.
    pub open spec fn spec_dummy() -> Span {
        Span { lo: 0, hi: 0 }
    }

    /// The span of what has no place in the source text.
    #[verifier::when_used_as_spec(spec_dummy)]
    pub fn dummy() -> (s: Span)
        ensures
            s == Span::spec_dummy(),
    {
        Span { lo: 0, hi: 0 }
    }
}

/// Where a statement comes from: its span and its source scope.
#[derive(Clone, Copy, Debug, PartialEq, Eq, Structural, Hash)]
pub struct SourceInfo {
    pub span: Span,
    pub scope: u32,
}

impl SourceInfo {
    /// The source information of generated code: no span, outermost scope.
    pub open spec fn spec_outermost() -> SourceInfo {
        SourceInfo { span: Span::spec_dummy(), scope: 0 }
    }

    /// The source information of generated code: no span, outermost scope.
    #[verifier::when_used_as_spec(spec_outermost)]
    pub fn outermost() -> (s: SourceInfo)
        ensures
            s == SourceInfo::spec_outermost(),
    {
        SourceInfo { span: Span::dummy(), scope: 0 }
    }
}

/// A typed constant value.
#[derive(Debug, PartialEq, Eq, Hash)]
pub struct Const {
    pub ty: Ty,
    pub val: ConstValue,
}

/// A constant that is evaluated already, or is still to be evaluated.
#[derive(Debug, PartialEq, Eq, Hash)]
pub enum LazyConst {
    Unevaluated { def: u64, args: u64 },
    Evaluated(Const),
}

/// A constant in a body. Its type is the type of its literal.
#[derive(Debug, PartialEq, Eq, Hash)]
pub struct Constant {
    pub span: Span,
    pub user_ty: Option<u32>,
    pub literal: LazyConst,
}

/// An operand of a statement.
#[derive(Debug, PartialEq, Eq, Hash)]
pub enum Operand {
    Copy { local: u32 },
    Move { local: u32 },
    Constant(Box<Constant>),
}

/// The right-hand side of an assignment.
#[derive(Debug, PartialEq, Eq, Hash)]
pub enum Rvalue {
    Use(Operand),
    Repeat(Operand, u64),
}

/// The operand that holds the evaluated constant `c`, with span `span` and
/// no user type.
pub open spec fn const_operand(span: Span, c: Const) -> Operand {
    Operand::Constant(Box::new(Constant { span, user_ty: None, literal: LazyConst::Evaluated(c) }))
}

/// The value of the string slice of `len` bytes that allocation `id` holds.
pub open spec fn str_value(id: AllocId, len: u64) -> ConstValue {
    ConstValue::Slice(Scalar::Ptr(Pointer { alloc_id: id, offset: 0 }), len)
}

/// Every unsigned number of at most eight bytes fits in eight bytes, and
/// one of at most four bytes in four.
pub proof fn lemma_fits(v64: u64, v32: u32)
    ensures
        fits_in(v64 as u128, 8),
        fits_in(v32 as u128, 4),
        fits_in(0, 1),
        fits_in(1, 1),
{
    lemma2_to64();
}

/// Builders of constants over a compilation context.
pub trait LegionellaTyCtxtHelp: Copy {
    /// The compilation context.
    spec fn tcx(self) -> TyCtxt;

    /// The compilation context.
    fn as_tcx(self) -> (tcx: TyCtxt)
        ensures
            tcx == self.tcx(),
    ;

    /// The evaluated constant `c`.
    fn mk_const(self, c: Const) -> (l: LazyConst)
        ensures
            l == LazyConst::Evaluated(c),
    {
        LazyConst::Evaluated(c)
    }

    /// The operand that holds the constant `c`, with the span of `src`.
    fn mk_const_op(self, src: SourceInfo, c: Const) -> (op: Operand)
        ensures
            op == const_operand(src.span, c),
    {
        let v = Constant { span: src.span, user_ty: None, literal: self.mk_const(c) };
        Operand::Constant(Box::new(v))
    }

    /// The value of a truth value.
    fn mk_bool_cv(self, v: bool) -> (cv: ConstValue)
        ensures
            cv == ConstValue::Scalar(Scalar::spec_from_bool(v)),
    {
        ConstValue::Scalar(Scalar::from_bool(v))
    }

    /// The value of a 32-bit unsigned number: four bytes.
    fn mk_u32_cv(self, v: u32) -> (cv: ConstValue)
        ensures
            cv == ConstValue::Scalar(Scalar::Bits { size: 4, bits: v as u128 }),
    {
        proof {
            lemma_fits(0, v);
        }
        ConstValue::Scalar(Scalar::from_uint(v as u128, 4))
    }

    /// The value of a 64-bit unsigned number: eight bytes.
    fn mk_u64_cv(self, v: u64) -> (cv: ConstValue)
        ensures
            cv == ConstValue::Scalar(Scalar::Bits { size: 8, bits: v as u128 }),
    {
        proof {
            lemma_fits(v, 0);
        }
        ConstValue::Scalar(Scalar::from_uint(v as u128, 8))
    }

    /// The value of a pointer-sized unsigned number, which a pointer of the
    /// target must be able to hold.
    fn mk_usize_cv(self, v: u128) -> (cv: ConstValue)
        requires
            fits_in(v, self.tcx().pointer_size),
        ensures
            cv == ConstValue::Scalar(Scalar::Bits { size: self.tcx().pointer_size, bits: v }),
    {
        let size = self.as_tcx().pointer_size;
        ConstValue::Scalar(Scalar::from_uint(v, size))
    }

    /// The evaluated constant of a pointer-sized unsigned number, which a
    /// pointer of the target must be able to hold.
    fn mk_usize_c(self, v: u128) -> (l: LazyConst)
        requires
            fits_in(v, self.tcx().pointer_size),
        ensures
            l == LazyConst::Evaluated(
                Const {
                    ty: Ty::Usize,
                    val: ConstValue::Scalar(
                        Scalar::Bits { size: self.tcx().pointer_size, bits: v },
                    ),
                },
            ),
    {
        let val = self.mk_usize_cv(v);
        self.mk_const(Const { ty: Ty::Usize, val })
    }

    /// The operand that holds the static string `v`, whose bytes allocation
    /// `id` holds.
    fn mk_static_str_operand(self, source_info: SourceInfo, v: &str, id: AllocId) -> (op: Operand)
        ensures
            op == const_operand(
                source_info.span,
                Const { ty: Ty::static_str(), val: str_value(id, v.len() as u64) },
            ),
    {
        let val = ConstValue::new_slice(Scalar::Ptr(Pointer::start_of(id)), v.len() as u64);
        let c = Const { ty: mk_static_str(), val };
        let v = Constant { span: source_info.span, user_ty: None, literal: self.mk_const(c) };
        Operand::Constant(Box::new(v))
    }

    /// The operand that holds the 64-bit unsigned number `v`.
    fn mk_u64_operand(self, source_info: SourceInfo, v: u64) -> (op: Operand)
        ensures
            op == const_operand(
                source_info.span,
                Const {
                    ty: Ty::U64,
                    val: ConstValue::Scalar(Scalar::Bits { size: 8, bits: v as u128 }),
                },
            ),
    {
        let val = self.mk_u64_cv(v);
        let c = Const { ty: Ty::U64, val };
        let v = Constant { span: source_info.span, user_ty: None, literal: self.mk_const(c) };
        Operand::Constant(Box::new(v))
    }
}

impl LegionellaTyCtxtHelp for TyCtxt {
    open spec fn tcx(self) -> TyCtxt {
        self
    }

    fn as_tcx(self) -> TyCtxt {
        self
    }
}

/// The static string slice type.
pub fn mk_static_str() -> (ty: Ty)
    ensures
        ty == Ty::static_str(),
{
    Ty::Ref { region: Region::Static, target: Box::new(Ty::Str), mutability: Mutability::Immutable }
}

/// The right-hand side that uses the constant `const_val` of type `ty`:
/// an evaluated constant without span or user type.
pub fn const_value_rvalue(tcx: TyCtxt, const_val: ConstValue, ty: Ty) -> (rvalue: Rvalue)
    ensures
        rvalue == Rvalue::Use(const_operand(Span::spec_dummy(), Const { ty, val: const_val })),
{
    let source_info = SourceInfo::outermost();
    let constant = tcx.mk_const(Const { ty, val: const_val });
    let constant = Constant { span: source_info.span, user_ty: None, literal: constant };
    let constant = Box::new(constant);
    let constant = Operand::Constant(constant);
    Rvalue::Use(constant)
}

/// The value of the static string `s`, whose bytes allocation `id` holds: a
/// slice that points to the start of the allocation and has the length of
/// `s` in bytes.
pub fn static_str_const_value(tcx: TyCtxt, s: &str, id: AllocId) -> (value: ConstValue)
    ensures
        value == str_value(id, s.len() as u64),
{
    ConstValue::new_slice(Scalar::Ptr(Pointer::start_of(id)), s.len() as u64)
}

} // verus!
