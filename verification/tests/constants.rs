use kernel_collector::item::ConcretizedItem;
use kernel_collector::statics::{
    build_compiler_opt, compiler_opt_of, static_tuple_alloc, static_tuple_const_value, write_static_tuple,
    write_value, Field, Layout, ScalarWrite, StaticLayout,
};
use kernel_collector::values::{
    const_value_rvalue, extract_fn_instance, extract_opt_fn_instance, mk_static_slice, mk_static_str,
    static_str_const_value, AllocId, Const, ConstValue, Constant, LazyConst, LegionellaTyCtxtHelp,
    Mutability, Operand, Pointer, Region, Rvalue, Scalar, SourceInfo, Span, Ty, TyCtxt,
};

fn tcx() -> TyCtxt {
    TyCtxt { pointer_size: 8 }
}

fn id(index: u64) -> AllocId {
    AllocId { index }
}

fn at(alloc: u64, offset: u64) -> Pointer {
    Pointer { alloc_id: id(alloc), offset }
}

fn bits(size: u8, bits: u128) -> Scalar {
    Scalar::Bits { size, bits }
}

fn reference(target: Ty) -> Ty {
    Ty::Ref { region: Region::Erased, target: Box::new(target), mutability: Mutability::Immutable }
}

fn constant(span: Span, ty: Ty, val: ConstValue) -> Operand {
    Operand::Constant(Box::new(Constant {
        span,
        user_ty: None,
        literal: LazyConst::Evaluated(Const { ty, val }),
    }))
}

fn itself(f: ConcretizedItem) -> Option<ConcretizedItem> {
    Some(f)
}

fn impl_method(f: ConcretizedItem) -> Option<ConcretizedItem> {
    match f {
        ConcretizedItem::Fn { def: 4, args } => Some(ConcretizedItem::Fn { def: 40, args }),
        other => Some(other),
    }
}

#[test]
fn function_type_names_its_function() {
    let f = Ty::FnDef { def: 4, args: 9 };
    assert_eq!(extract_fn_instance(&f, itself), ConcretizedItem::Fn { def: 4, args: 9 });
    assert_eq!(extract_fn_instance(&reference(f), itself), ConcretizedItem::Fn { def: 4, args: 9 });
}

#[test]
fn trait_method_resolves_to_the_method_of_the_impl() {
    let f = Ty::FnDef { def: 4, args: 9 };
    assert_eq!(extract_fn_instance(&f, impl_method), ConcretizedItem::Fn { def: 40, args: 9 });
    assert_eq!(
        extract_fn_instance(&reference(f), impl_method),
        ConcretizedItem::Fn { def: 40, args: 9 }
    );
    assert_eq!(
        extract_fn_instance(&Ty::FnDef { def: 5, args: 1 }, impl_method),
        ConcretizedItem::Fn { def: 5, args: 1 }
    );
    assert_eq!(
        extract_opt_fn_instance(&Ty::FnDef { def: 4, args: 2 }, impl_method),
        Some(ConcretizedItem::Fn { def: 40, args: 2 })
    );
}

#[test]
fn resolver_is_asked_for_the_named_function_only() {
    let mut asked = vec![];
    let found = extract_fn_instance(&reference(Ty::FnDef { def: 7, args: 3 }), |f| {
        asked.push(f);
        Some(ConcretizedItem::Fn { def: 70, args: 3 })
    });
    assert_eq!(found, ConcretizedItem::Fn { def: 70, args: 3 });
    assert_eq!(asked, vec![ConcretizedItem::Fn { def: 7, args: 3 }]);

    let mut calls = 0;
    let none = extract_opt_fn_instance(&Ty::Tuple(vec![]), |f| {
        calls += 1;
        Some(f)
    });
    assert_eq!(none, None);
    assert_eq!(calls, 0);
}

#[test]
fn unit_type_names_no_function() {
    assert_eq!(extract_opt_fn_instance(&Ty::Tuple(vec![]), itself), None);
    assert_eq!(extract_opt_fn_instance(&reference(Ty::Tuple(vec![])), itself), None);
    let f = Ty::FnDef { def: 4, args: 9 };
    assert_eq!(extract_opt_fn_instance(&f, itself), Some(ConcretizedItem::Fn { def: 4, args: 9 }));
    assert_eq!(
        extract_opt_fn_instance(&reference(Ty::FnDef { def: 5, args: 0 }), itself),
        Some(ConcretizedItem::Fn { def: 5, args: 0 })
    );
}

#[test]
fn static_slice_type() {
    assert_eq!(
        mk_static_slice(Ty::U32),
        Ty::Ref {
            region: Region::Static,
            target: Box::new(Ty::Slice(Box::new(Ty::U32))),
            mutability: Mutability::Immutable
        }
    );
    assert_eq!(
        mk_static_str(),
        Ty::Ref { region: Region::Static, target: Box::new(Ty::Str), mutability: Mutability::Immutable }
    );
}

#[test]
fn scalar_values() {
    let t = tcx();
    assert_eq!(t.as_tcx(), t);
    assert_eq!(t.mk_bool_cv(true), ConstValue::Scalar(bits(1, 1)));
    assert_eq!(t.mk_bool_cv(false), ConstValue::Scalar(bits(1, 0)));
    assert_eq!(t.mk_u32_cv(7), ConstValue::Scalar(bits(4, 7)));
    assert_eq!(t.mk_u64_cv(u64::MAX), ConstValue::Scalar(bits(8, u64::MAX as u128)));
    assert_eq!(t.mk_usize_cv(300), ConstValue::Scalar(bits(8, 300)));
    assert_eq!(TyCtxt { pointer_size: 4 }.mk_usize_cv(300), ConstValue::Scalar(bits(4, 300)));
    assert_eq!(
        t.mk_usize_c(5),
        LazyConst::Evaluated(Const { ty: Ty::Usize, val: ConstValue::Scalar(bits(8, 5)) })
    );
    assert_eq!(
        t.mk_const(Const { ty: Ty::Bool, val: ConstValue::Scalar(bits(1, 1)) }),
        LazyConst::Evaluated(Const { ty: Ty::Bool, val: ConstValue::Scalar(bits(1, 1)) })
    );
    assert_eq!(Scalar::ptr_null(TyCtxt { pointer_size: 4 }), bits(4, 0));
    assert_eq!(Scalar::from_uint(9, 2), bits(2, 9));
    assert_eq!(Scalar::Ptr(at(1, 0)).width(t), 8);
    assert_eq!(bits(2, 9).width(t), 2);
}

#[test]
fn operands() {
    let t = tcx();
    let src = SourceInfo { span: Span { lo: 3, hi: 9 }, scope: 2 };
    assert_eq!(
        t.mk_u64_operand(src, 11),
        constant(Span { lo: 3, hi: 9 }, Ty::U64, ConstValue::Scalar(bits(8, 11)))
    );
    assert_eq!(
        t.mk_const_op(src, Const { ty: Ty::U32, val: ConstValue::Scalar(bits(4, 1)) }),
        constant(Span { lo: 3, hi: 9 }, Ty::U32, ConstValue::Scalar(bits(4, 1)))
    );
    assert_eq!(
        t.mk_static_str_operand(src, "h\u{e9}llo", id(6)),
        constant(Span { lo: 3, hi: 9 }, mk_static_str(), ConstValue::Slice(Scalar::Ptr(at(6, 0)), 6))
    );
    assert_eq!(
        const_value_rvalue(t, ConstValue::Scalar(bits(1, 0)), Ty::Bool),
        Rvalue::Use(constant(Span { lo: 0, hi: 0 }, Ty::Bool, ConstValue::Scalar(bits(1, 0))))
    );
    assert_eq!(SourceInfo::outermost(), SourceInfo { span: Span::dummy(), scope: 0 });
}

#[test]
fn static_string_value() {
    assert_eq!(
        static_str_const_value(tcx(), "kernel", id(3)),
        ConstValue::Slice(Scalar::Ptr(at(3, 0)), 6)
    );
    assert_eq!(static_str_const_value(tcx(), "", id(4)), ConstValue::Slice(Scalar::Ptr(at(4, 0)), 0));
}

#[test]
fn optional_values() {
    let t = tcx();
    let none = build_compiler_opt(t, None::<u32>, |tcx: TyCtxt, v: u32| tcx.mk_u32_cv(v), id(1));
    assert_eq!(none.value, ConstValue::Slice(bits(8, 0), 0));
    assert_eq!(none.alloc, None);

    let some = build_compiler_opt(t, Some(7u32), |tcx: TyCtxt, v: u32| tcx.mk_u32_cv(v), id(1));
    assert_eq!(some.value, ConstValue::Slice(Scalar::Ptr(at(1, 0)), 1));
    let alloc = some.alloc.unwrap();
    assert_eq!(alloc.id, id(1));
    assert_eq!(alloc.size, 4);
    assert_eq!(alloc.align, 1);
    assert_eq!(alloc.writes, vec![ScalarWrite { dest: at(1, 0), scalar: bits(4, 7), size: 4 }]);

    let ptr = build_compiler_opt(
        t,
        Some(at(5, 16)),
        |_tcx: TyCtxt, p: Pointer| ConstValue::Scalar(Scalar::Ptr(p)),
        id(1),
    );
    assert_eq!(ptr.value, ConstValue::Slice(Scalar::Ptr(at(5, 16)), 1));
    assert_eq!(ptr.alloc, None);

    let direct = compiler_opt_of(t, Some(ConstValue::Scalar(bits(2, 513))), id(9));
    assert_eq!(direct.value, ConstValue::Slice(Scalar::Ptr(at(9, 0)), 1));
    assert_eq!(direct.alloc.unwrap().size, 2);
}

fn nested() -> StaticLayout {
    StaticLayout {
        size: 48,
        align: 8,
        fields: Layout::Tuple(vec![
            Field { offset: 0, layout: Layout::Value },
            Field {
                offset: 8,
                layout: Layout::Tuple(vec![
                    Field { offset: 0, layout: Layout::Value },
                    Field { offset: 4, layout: Layout::Value },
                ]),
            },
            Field {
                offset: 16,
                layout: Layout::Array { element: Box::new(Layout::Value), stride: 16, count: 2 },
            },
        ]),
    }
}

fn nested_values() -> Vec<ConstValue> {
    vec![
        ConstValue::Scalar(bits(8, 7)),
        ConstValue::Scalar(bits(4, 1)),
        ConstValue::Scalar(bits(4, 2)),
        ConstValue::Slice(Scalar::Ptr(at(9, 0)), 3),
        ConstValue::Scalar(Scalar::Ptr(at(9, 24))),
    ]
}

fn nested_writes() -> Vec<ScalarWrite> {
    vec![
        ScalarWrite { dest: at(2, 0), scalar: bits(8, 7), size: 8 },
        ScalarWrite { dest: at(2, 8), scalar: bits(4, 1), size: 4 },
        ScalarWrite { dest: at(2, 12), scalar: bits(4, 2), size: 4 },
        ScalarWrite { dest: at(2, 16), scalar: Scalar::Ptr(at(9, 0)), size: 8 },
        ScalarWrite { dest: at(2, 24), scalar: bits(8, 3), size: 8 },
        ScalarWrite { dest: at(2, 32), scalar: Scalar::Ptr(at(9, 24)), size: 8 },
    ]
}

#[test]
fn values_go_to_the_offsets_of_the_layout() {
    let alloc = static_tuple_alloc(tcx(), &nested_values(), id(2), &nested());
    assert_eq!(alloc.id, id(2));
    assert_eq!(alloc.size, 48);
    assert_eq!(alloc.align, 8);
    assert_eq!(alloc.writes, nested_writes());
}

#[test]
fn static_tuple_value_points_to_its_allocation() {
    let built = static_tuple_const_value(tcx(), &nested_values(), id(2), &nested());
    assert_eq!(built.value, ConstValue::Scalar(Scalar::Ptr(at(2, 0))));
    assert_eq!(built.alloc.unwrap().writes, nested_writes());
}

#[test]
fn writing_goes_on_from_the_cursor_and_the_base() {
    let layout = Layout::Array {
        element: Box::new(Layout::Tuple(vec![
            Field { offset: 0, layout: Layout::Value },
            Field { offset: 2, layout: Layout::Value },
        ])),
        stride: 4,
        count: 2,
    };
    let values = vec![
        ConstValue::Scalar(bits(1, 99)),
        ConstValue::Scalar(bits(2, 1)),
        ConstValue::Scalar(bits(2, 2)),
        ConstValue::Scalar(bits(2, 3)),
        ConstValue::Scalar(bits(2, 4)),
        ConstValue::Scalar(bits(1, 98)),
    ];
    let mut next = 1;
    let mut writes = vec![ScalarWrite { dest: at(1, 0), scalar: bits(1, 0), size: 1 }];
    write_static_tuple(tcx(), &values, &mut next, id(3), &mut writes, 108, 100, &layout);
    assert_eq!(next, 5);
    assert_eq!(
        writes,
        vec![
            ScalarWrite { dest: at(1, 0), scalar: bits(1, 0), size: 1 },
            ScalarWrite { dest: at(3, 100), scalar: bits(2, 1), size: 2 },
            ScalarWrite { dest: at(3, 102), scalar: bits(2, 2), size: 2 },
            ScalarWrite { dest: at(3, 104), scalar: bits(2, 3), size: 2 },
            ScalarWrite { dest: at(3, 106), scalar: bits(2, 4), size: 2 },
        ]
    );
}

#[test]
fn empty_aggregates_take_no_value() {
    let layout = StaticLayout {
        size: 0,
        align: 1,
        fields: Layout::Tuple(vec![Field {
            offset: 0,
            layout: Layout::Array { element: Box::new(Layout::Tuple(vec![])), stride: 0, count: 3 },
        }]),
    };
    let alloc = static_tuple_alloc(tcx(), &vec![], id(1), &layout);
    assert!(alloc.writes.is_empty());
    assert_eq!(alloc.size, 0);
}

#[test]
fn slice_is_written_as_pointer_and_length() {
    let mut writes = vec![];
    write_value(
        TyCtxt { pointer_size: 4 },
        ConstValue::Slice(Scalar::Ptr(at(7, 8)), 5),
        id(2),
        16,
        24,
        &mut writes,
    );
    assert_eq!(
        writes,
        vec![
            ScalarWrite { dest: at(2, 16), scalar: Scalar::Ptr(at(7, 8)), size: 4 },
            ScalarWrite { dest: at(2, 20), scalar: bits(4, 5), size: 4 },
        ]
    );
}
