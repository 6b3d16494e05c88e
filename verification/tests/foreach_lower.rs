use mimz_core::ast::{
    lower_foreach_fn, lower_foreach_item, lower_foreach_seq, subst_expr, Arm, Dir, Edge, Expr,
    ExprKind, FnParam, FnStmt, ForEach, ForEachSource, Ident, LValue, ModuleItem, Pattern, Repeat,
    SeqStmt, SyncLoop, Type,
};
use mimz_core::span::Span;

fn sp() -> Span {
    Span::new(0, 0)
}

fn id(name: &str) -> Ident {
    Ident {
        name: name.to_string(),
        span: sp(),
    }
}

fn lit(value: u128) -> Expr {
    Expr {
        kind: ExprKind::Int {
            value,
            raw: value.to_string(),
        },
        span: sp(),
    }
}

fn ident_expr(name: &str) -> Expr {
    Expr {
        kind: ExprKind::Ident(name.into()),
        span: sp(),
    }
}

fn lv(name: &str) -> LValue {
    LValue {
        base: id(name),
        index: None,
        span: sp(),
    }
}

fn mem8(name: &str) -> ModuleItem {
    ModuleItem::Mem {
        name: id(name),
        ty: Type::Bits(Box::new(lit(8))),
        depth: lit(8),
        init: lit(0),
    }
}

#[test]
fn range_form_lowers_to_repeat_unchanged() {
    let fe = ForEach {
        var: id("i"),
        source: ForEachSource::Range {
            lo: lit(0),
            hi: lit(4),
        },
        items: vec![],
        span: sp(),
    };
    let lowered = lower_foreach_item(&fe, &[]).expect("range form never needs sibling_items");
    assert_eq!(lowered.len(), 1);
    assert!(matches!(&lowered[0], ModuleItem::Repeat(r) if r.var.name == "i"));
}

#[test]
fn elements_form_resolves_array_port_length() {
    let sibling_items = vec![ModuleItem::Port {
        dir: Dir::In,
        name: id("values"),
        ty: Type::Array {
            elem: Box::new(Type::Bits(Box::new(lit(8)))),
            len: Box::new(lit(8)),
        },
    }];
    let fe = ForEach {
        var: id("v"),
        source: ForEachSource::Elements(id("values")),
        items: vec![ModuleItem::Drive {
            lhs: lv("sum"),
            rhs: ident_expr("v"),
        }],
        span: sp(),
    };
    let lowered = lower_foreach_item(&fe, &sibling_items).expect("array port must resolve");
    let ModuleItem::Repeat(r) = &lowered[0] else {
        panic!("expected Repeat")
    };
    assert!(
        r.items
            .iter()
            .all(|it| !matches!(it, ModuleItem::Wire { .. })),
        "Elements form must not synthesize a Wire declaration (E0303)"
    );
    let ModuleItem::Drive { rhs, .. } = &r.items[0] else {
        panic!("expected the Drive item, substituted")
    };
    assert!(
        matches!(&rhs.kind, ExprKind::Index { .. }),
        "`v` must be substituted with `values[__foreach_v_idx]`, got {rhs:?}"
    );
}

#[test]
fn elements_form_on_undeclared_name_returns_none() {
    let fe = ForEach {
        var: id("v"),
        source: ForEachSource::Elements(id("nope")),
        items: vec![],
        span: sp(),
    };
    assert!(lower_foreach_item(&fe, &[]).is_none());
}

#[test]
fn seq_elements_form_substitutes_var_with_index_expr() {
    let sibling_items = vec![mem8("m")];
    let body = vec![SeqStmt::Assign {
        lhs: lv("acc"),
        rhs: ident_expr("v"),
    }];
    let lowered = lower_foreach_seq(
        &id("v"),
        &ForEachSource::Elements(id("m")),
        &body,
        sp(),
        &sibling_items,
    )
    .expect("mem must resolve");
    let SeqStmt::Loop { body: inner, .. } = &lowered[0] else {
        panic!("expected Loop")
    };
    let SeqStmt::Assign { rhs, .. } = &inner[0] else {
        panic!("expected Assign")
    };
    assert!(
        matches!(&rhs.kind, ExprKind::Index { .. }),
        "`v` must be substituted with `m[__foreach_v_idx]`, got {rhs:?}"
    );
}

#[test]
fn loop_var_shadowing_outer_foreach_var_is_not_substituted() {
    let sibling_items = vec![mem8("arr")];
    let inner_loop = SeqStmt::Loop {
        var: id("v"),
        lo: lit(0),
        hi: lit(4),
        body: vec![SeqStmt::Assign {
            lhs: lv("acc"),
            rhs: ident_expr("v"),
        }],
        span: sp(),
    };
    let lowered = lower_foreach_seq(
        &id("v"),
        &ForEachSource::Elements(id("arr")),
        &[inner_loop],
        sp(),
        &sibling_items,
    )
    .expect("mem must resolve");
    let SeqStmt::Loop {
        body: outer_body, ..
    } = &lowered[0]
    else {
        panic!("expected outer Loop")
    };
    let SeqStmt::Loop {
        body: inner_body, ..
    } = &outer_body[0]
    else {
        panic!("expected inner Loop preserved")
    };
    let SeqStmt::Assign { rhs, .. } = &inner_body[0] else {
        panic!("expected Assign")
    };
    assert!(
        matches!(&rhs.kind, ExprKind::Ident(n) if n == "v"),
        "inner loop's own `v` must shadow the outer foreach var and stay unsubstituted, got {rhs:?}"
    );
}

#[test]
fn subst_expr_match_arm_binding_shadows_target() {
    let replacement = ident_expr("REPL");
    let e = Expr {
        kind: ExprKind::Match {
            scrutinee: Box::new(ident_expr("x")),
            arms: vec![
                Arm {
                    patterns: vec![Pattern::Variant {
                        enum_name: id("E"),
                        variant: id("Tag"),
                        bindings: vec![id("v")],
                    }],
                    value: ident_expr("v"),
                },
                Arm {
                    patterns: vec![Pattern::Wildcard],
                    value: ident_expr("v"),
                },
            ],
        },
        span: sp(),
    };
    let result = subst_expr(&e, "v", &replacement);
    let ExprKind::Match { arms, .. } = &result.kind else {
        panic!("expected Match")
    };
    assert!(
        matches!(&arms[0].value.kind, ExprKind::Ident(n) if n == "v"),
        "pattern-bound `v` must not be substituted, got {:?}",
        arms[0].value
    );
    assert!(
        matches!(&arms[1].value.kind, ExprKind::Ident(n) if n == "REPL"),
        "unshadowed `v` must be substituted, got {:?}",
        arms[1].value
    );
}

#[test]
fn nested_repeat_var_shadowing_outer_foreach_var_is_not_substituted() {
    let sibling_items = vec![mem8("arr")];
    let inner_repeat = ModuleItem::Repeat(Repeat {
        var: id("v"),
        lo: lit(0),
        hi: lit(4),
        items: vec![ModuleItem::Drive {
            lhs: lv("d"),
            rhs: ident_expr("v"),
        }],
        span: sp(),
    });
    let fe = ForEach {
        var: id("v"),
        source: ForEachSource::Elements(id("arr")),
        items: vec![inner_repeat],
        span: sp(),
    };
    let lowered = lower_foreach_item(&fe, &sibling_items).expect("mem must resolve");
    let ModuleItem::Repeat(outer) = &lowered[0] else {
        panic!("expected outer Repeat")
    };
    let ModuleItem::Repeat(inner) = &outer.items[0] else {
        panic!("expected inner Repeat preserved")
    };
    let ModuleItem::Drive { rhs, .. } = &inner.items[0] else {
        panic!("expected Drive")
    };
    assert!(
        matches!(&rhs.kind, ExprKind::Ident(n) if n == "v"),
        "inner repeat's own `v` must shadow the outer foreach var and stay unsubstituted, got {rhs:?}"
    );
}

#[test]
fn nested_sync_loop_body_substitutes_outer_foreach_var() {
    let sibling_items = vec![mem8("arr")];
    let inner_sync_loop = ModuleItem::SyncLoop(Box::new(SyncLoop {
        name: id("foo"),
        clock: id("clk"),
        edge: Edge::Rise,
        var: id("i"),
        lo: lit(0),
        hi: lit(4),
        result_name: id("result"),
        result_ty: Type::Bits(Box::new(lit(8))),
        result_init: lit(0),
        body: vec![SeqStmt::Assign {
            lhs: lv("result"),
            rhs: ident_expr("v"),
        }],
        span: sp(),
    }));
    let fe = ForEach {
        var: id("v"),
        source: ForEachSource::Elements(id("arr")),
        items: vec![inner_sync_loop],
        span: sp(),
    };
    let lowered = lower_foreach_item(&fe, &sibling_items).expect("mem must resolve");
    let ModuleItem::Repeat(outer) = &lowered[0] else {
        panic!("expected outer Repeat")
    };
    let ModuleItem::SyncLoop(sl) = &outer.items[0] else {
        panic!("expected SyncLoop preserved")
    };
    let SeqStmt::Assign { rhs, .. } = &sl.body[0] else {
        panic!("expected Assign")
    };
    assert!(
        matches!(&rhs.kind, ExprKind::Index { base, .. } if matches!(&base.kind, ExprKind::Ident(n) if n == "arr")),
        "outer foreach var `v` inside a nested sync loop's body must be substituted with `arr[idx]`, got {rhs:?}"
    );
}

#[test]
fn fn_elements_form_resolves_via_own_param_and_binds_with_let() {
    let params = vec![FnParam {
        name: id("arr"),
        ty: Type::Array {
            elem: Box::new(Type::Bits(Box::new(lit(8)))),
            len: Box::new(lit(4)),
        },
        span: sp(),
    }];
    let body = vec![FnStmt::Return(ident_expr("x"))];
    let lowered = lower_foreach_fn(
        &id("x"),
        &ForEachSource::Elements(id("arr")),
        &body,
        sp(),
        &params,
    )
    .expect("array fn param must resolve");
    let FnStmt::Loop { body: inner, .. } = &lowered[0] else {
        panic!("expected Loop")
    };
    let FnStmt::Let(let_stmt) = &inner[0] else {
        panic!("expected the synthesized Let binding for `x`")
    };
    assert_eq!(let_stmt.name.name, "x");
    assert!(
        matches!(&let_stmt.value.kind, ExprKind::Index { .. }),
        "`x` must bind to `arr[__foreach_x_idx]`, got {:?}",
        let_stmt.value
    );
    assert!(
        matches!(&inner[1], FnStmt::Return(_)),
        "original body must follow the Let binding"
    );
}

#[test]
fn fn_elements_form_on_undeclared_param_returns_none() {
    assert!(lower_foreach_fn(
        &id("x"),
        &ForEachSource::Elements(id("nope")),
        &[],
        sp(),
        &[]
    )
    .is_none());
}

#[test]
fn elements_form_index_variable_is_named_after_the_element() {
    let sibling_items = vec![mem8("m")];
    let lowered = lower_foreach_seq(
        &id("v"),
        &ForEachSource::Elements(id("m")),
        &[],
        sp(),
        &sibling_items,
    )
    .expect("mem must resolve");
    let SeqStmt::Loop { var, lo, hi, .. } = &lowered[0] else {
        panic!("expected Loop")
    };
    assert_eq!(var.name, "__foreach_v_idx");
    assert!(matches!(&lo.kind, ExprKind::Int { value: 0, .. }));
    assert!(matches!(&hi.kind, ExprKind::Int { value: 8, .. }));
}

#[test]
fn an_assignment_target_index_reading_the_loop_variable_is_substituted() {
    let sibling_items = vec![ModuleItem::Port {
        dir: Dir::In,
        name: id("values"),
        ty: Type::Array {
            elem: Box::new(Type::Bits(Box::new(lit(8)))),
            len: Box::new(lit(4)),
        },
    }];
    let fe = ForEach {
        var: id("v"),
        source: ForEachSource::Elements(id("values")),
        items: vec![ModuleItem::Drive {
            lhs: LValue {
                base: id("out"),
                index: Some((ident_expr("v"), None)),
                span: sp(),
            },
            rhs: lit(1),
        }],
        span: sp(),
    };
    let lowered = lower_foreach_item(&fe, &sibling_items).expect("array port must resolve");
    let ModuleItem::Repeat(r) = &lowered[0] else {
        panic!("expected Repeat")
    };
    let ModuleItem::Drive { lhs, .. } = &r.items[0] else {
        panic!("expected the Drive item")
    };
    assert_eq!(lhs.base.name, "out");
    let (ix, lo) = lhs.index.as_ref().expect("index kept");
    assert!(lo.is_none());
    assert!(matches!(&ix.kind, ExprKind::Index { .. }), "target index must be substituted, got {ix:?}");
}
