use mimz_core::ast::{
    lower_sync_loop, Arm, Builtin, Dir, Edge, Expr, ExprKind, Ident, LValue, ModuleItem, Pattern,
    SeqStmt, SyncLoop, Type,
};
use mimz_core::span::Span;

fn sp() -> Span {
    Span::new(0, 0)
}

fn id(n: &str) -> Ident {
    Ident {
        name: n.into(),
        span: sp(),
    }
}

fn lit(v: u128) -> Expr {
    Expr {
        kind: ExprKind::Int {
            value: v,
            raw: v.to_string(),
        },
        span: sp(),
    }
}

fn ident_expr(n: &str) -> Expr {
    Expr {
        kind: ExprKind::Ident(n.into()),
        span: sp(),
    }
}

fn sync_loop(name: &str, lo: u128, hi: u128, body: Vec<SeqStmt>) -> SyncLoop {
    SyncLoop {
        name: id(name),
        clock: id("clk"),
        edge: Edge::Rise,
        var: id("i"),
        lo: lit(lo),
        hi: lit(hi),
        result_name: id("result"),
        result_ty: Type::Bit,
        result_init: lit(0),
        body,
        span: sp(),
    }
}

#[test]
fn lower_produces_twelve_items_in_order() {
    let sl = sync_loop(
        "find_first",
        0,
        8,
        vec![SeqStmt::Assign {
            lhs: LValue {
                base: id("result"),
                index: None,
                span: sp(),
            },
            rhs: ident_expr("i"),
        }],
    );
    let items = lower_sync_loop(&sl);
    assert_eq!(items.len(), 12);
    assert!(matches!(items[0], ModuleItem::Port { dir: Dir::In, .. }));
    let ModuleItem::On(on) = &items[8] else {
        panic!("item 8 must be the on-block")
    };
    assert_eq!(on.clock.name, "clk");
    let SeqStmt::If { els: Some(els), .. } = &on.body[0] else {
        panic!()
    };
    let SeqStmt::If { .. } = &els[1] else {
        panic!("expected the start branch")
    };
    let SeqStmt::If {
        then: running_then, ..
    } = &on.body[0]
    else {
        panic!()
    };
    let SeqStmt::Assign { lhs, rhs } = &running_then[1] else {
        panic!("expected the renamed body assign")
    };
    assert_eq!(lhs.base.name, "find_first_acc");
    let ExprKind::Ident(rhs_name) = &rhs.kind else {
        panic!()
    };
    assert_eq!(rhs_name, "find_first_cnt");
}

#[test]
fn counter_width_is_clog2_hi_not_clog2_range_when_lo_nonzero() {
    let sl = sync_loop("scan", 4, 12, vec![]);
    let items = lower_sync_loop(&sl);
    let ModuleItem::Reg { ty, .. } = &items[4] else {
        panic!("item 4 must be the _cnt reg")
    };
    let Type::Bits(width) = ty else {
        panic!("cnt reg must be Type::Bits")
    };
    let ExprKind::Call {
        func: Builtin::Clog2,
        args,
    } = &width.kind
    else {
        panic!("cnt width must be a clog2(...) call")
    };
    assert_eq!(args.len(), 1, "clog2 must take exactly one argument");
    let ExprKind::Int { value, .. } = &args[0].kind else {
        panic!("expected an int literal arg")
    };
    assert_eq!(
        *value, 12,
        "counter width must be clog2(hi) = clog2(12), got clog2({value})"
    );
}

#[test]
fn rename_expr_match_arm_binding_shadows_accumulator_name() {
    let sl = sync_loop(
        "scan",
        0,
        8,
        vec![SeqStmt::Assign {
            lhs: LValue {
                base: id("result"),
                index: None,
                span: sp(),
            },
            rhs: Expr {
                kind: ExprKind::Match {
                    scrutinee: Box::new(ident_expr("i")),
                    arms: vec![
                        Arm {
                            patterns: vec![Pattern::Variant {
                                enum_name: id("E"),
                                variant: id("Tag"),
                                bindings: vec![id("result")],
                            }],
                            value: ident_expr("result"),
                        },
                        Arm {
                            patterns: vec![Pattern::Wildcard],
                            value: ident_expr("i"),
                        },
                    ],
                },
                span: sp(),
            },
        }],
    );
    let items = lower_sync_loop(&sl);
    let ModuleItem::On(on) = &items[8] else {
        panic!("item 8 must be the on-block")
    };
    let SeqStmt::If {
        then: running_then, ..
    } = &on.body[0]
    else {
        panic!()
    };
    let SeqStmt::Assign { rhs, .. } = &running_then[1] else {
        panic!("expected the renamed body assign")
    };
    let ExprKind::Match { scrutinee, arms } = &rhs.kind else {
        panic!("expected the match expr")
    };
    let ExprKind::Ident(scrutinee_name) = &scrutinee.kind else {
        panic!()
    };
    assert_eq!(scrutinee_name, "scan_cnt");
    let ExprKind::Ident(arm0_name) = &arms[0].value.kind else {
        panic!()
    };
    assert_eq!(
        arm0_name, "result",
        "pattern-bound name must not be renamed to the accumulator register"
    );
    let ExprKind::Ident(arm1_name) = &arms[1].value.kind else {
        panic!()
    };
    assert_eq!(arm1_name, "scan_cnt");
}

#[test]
fn nested_loop_variable_shadows_the_sync_loop_variable() {
    let inner = SeqStmt::Loop {
        var: id("i"),
        lo: lit(0),
        hi: lit(2),
        body: vec![SeqStmt::Assign {
            lhs: LValue {
                base: id("result"),
                index: None,
                span: sp(),
            },
            rhs: ident_expr("i"),
        }],
        span: sp(),
    };
    let sl = sync_loop("s", 0, 4, vec![inner]);
    let items = lower_sync_loop(&sl);
    let ModuleItem::On(on) = &items[8] else {
        panic!()
    };
    let SeqStmt::If { then, .. } = &on.body[0] else {
        panic!()
    };
    let SeqStmt::Loop { body, .. } = &then[1] else {
        panic!("expected the nested loop")
    };
    let SeqStmt::Assign { lhs, rhs } = &body[0] else {
        panic!()
    };
    assert_eq!(lhs.base.name, "s_acc");
    assert!(matches!(&rhs.kind, ExprKind::Ident(n) if n == "i"));
}

#[test]
fn generated_signal_names_follow_the_loop_name() {
    let items = lower_sync_loop(&sync_loop("acc", 0, 4, vec![]));
    let names: Vec<String> = items
        .iter()
        .filter_map(|it| match it {
            ModuleItem::Port { name, .. } | ModuleItem::Reg { name, .. } => Some(name.name.clone()),
            _ => None,
        })
        .collect();
    assert_eq!(
        names,
        vec![
            "acc_start",
            "acc_done",
            "acc_result",
            "acc_running",
            "acc_cnt",
            "acc_running_r",
            "acc_acc",
            "acc_done_r"
        ]
    );
    let ModuleItem::Drive { lhs, rhs } = &items[9] else {
        panic!()
    };
    assert_eq!(lhs.base.name, "acc_done");
    assert!(matches!(&rhs.kind, ExprKind::Ident(n) if n == "acc_done_r"));
}
