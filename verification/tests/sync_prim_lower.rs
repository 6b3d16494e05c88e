use mimz_core::ast::{
    expand_sync_prims, BinOp, Builtin, Edge, Expr, ExprKind, Ident, LValue, ModuleItem, OnBlock,
    SeqStmt, Type,
};
use mimz_core::span::Span;

fn ident(n: &str, sp: Span) -> Ident {
    Ident {
        name: n.into(),
        span: sp,
    }
}

fn ident_expr(n: &str, sp: Span) -> Expr {
    Expr {
        kind: ExprKind::Ident(n.into()),
        span: sp,
    }
}

fn call_expr(func: Builtin, args: Vec<Expr>, sp: Span) -> Expr {
    Expr {
        kind: ExprKind::Call { func, args },
        span: sp,
    }
}

fn df_assign(target: &str, signal: &str, sp: Span) -> SeqStmt {
    SeqStmt::Assign {
        lhs: LValue {
            base: ident(target, sp),
            index: None,
            span: sp,
        },
        rhs: call_expr(
            Builtin::SyncDoubleFlop,
            vec![
                ident_expr(signal, sp),
                ident_expr("clk_src", sp),
                ident_expr("clk_dst", sp),
            ],
            sp,
        ),
    }
}

fn on_dst(body: Vec<SeqStmt>, sp: Span) -> ModuleItem {
    ModuleItem::On(OnBlock {
        clock: ident("clk_dst", sp),
        edge: Edge::Rise,
        body,
        span: sp,
    })
}

#[test]
fn double_flop_call_lowers_to_one_hidden_reg_and_a_rewritten_assign() {
    let sp = Span::new(0, 0);
    let items = vec![on_dst(vec![df_assign("slow_bit", "fast_bit", sp)], sp)];
    let out = expand_sync_prims(&items);

    assert_eq!(out.len(), 2);
    let ModuleItem::Reg { name, ty, .. } = &out[0] else {
        panic!("expected a hidden Reg item first, got {:?}", out[0])
    };
    assert!(name.name.starts_with("__sync"));
    assert!(name.name.ends_with("_stage0"));
    assert!(matches!(ty, Type::Bit));

    let ModuleItem::On(on) = &out[1] else {
        panic!("expected the On block second")
    };
    assert_eq!(
        on.body.len(),
        2,
        "hidden stage0 assign + rewritten user assign"
    );
    let SeqStmt::Assign {
        lhs: stage_lhs,
        rhs: stage_rhs,
    } = &on.body[0]
    else {
        panic!("expected the hidden stage0 assign first")
    };
    assert_eq!(stage_lhs.base.name, name.name);
    let ExprKind::Ident(stage_rhs_name) = &stage_rhs.kind else {
        panic!()
    };
    assert_eq!(stage_rhs_name, "fast_bit");

    let SeqStmt::Assign {
        lhs: user_lhs,
        rhs: user_rhs,
    } = &on.body[1]
    else {
        panic!("expected the rewritten user assign second")
    };
    assert_eq!(user_lhs.base.name, "slow_bit");
    let ExprKind::Ident(user_rhs_name) = &user_rhs.kind else {
        panic!("user assign's rhs must now be a plain Ident, not the Call")
    };
    assert_eq!(user_rhs_name, &name.name);
}

#[test]
fn two_double_flop_calls_in_the_same_on_block_both_get_lowered() {
    let sp = Span::new(0, 0);
    let items = vec![on_dst(
        vec![
            df_assign("slow_a", "fast_a", sp),
            df_assign("slow_b", "fast_b", sp),
        ],
        sp,
    )];
    let out = expand_sync_prims(&items);

    assert_eq!(out.len(), 3);
    let reg_names: Vec<&str> = out
        .iter()
        .filter_map(|it| match it {
            ModuleItem::Reg { name, .. } => Some(name.name.as_str()),
            _ => None,
        })
        .collect();
    assert_eq!(
        reg_names,
        vec!["__sync_slow_a_stage0", "__sync_slow_b_stage0"]
    );

    let ModuleItem::On(on) = &out[2] else {
        panic!("expected the On block last")
    };
    assert_eq!(on.body.len(), 4);
    let SeqStmt::Assign { lhs, .. } = &on.body[1] else {
        panic!("expected slow_a's rewritten assign second")
    };
    assert_eq!(lhs.base.name, "slow_a");
    let SeqStmt::Assign { lhs, .. } = &on.body[3] else {
        panic!("expected slow_b's rewritten assign fourth")
    };
    assert_eq!(lhs.base.name, "slow_b");
}

#[test]
fn pulse_call_lowers_to_four_hidden_regs_two_on_blocks_and_a_rewritten_wire() {
    let sp = Span::new(0, 0);
    let items = vec![ModuleItem::Wire {
        name: ident("dst_pulse", sp),
        ty: Type::Bit,
        init: call_expr(
            Builtin::SyncPulse,
            vec![
                ident_expr("src_pulse", sp),
                ident_expr("clk_src", sp),
                ident_expr("clk_dst", sp),
            ],
            sp,
        ),
    }];
    let out = expand_sync_prims(&items);

    assert_eq!(out.len(), 7);
    let reg_names: Vec<&str> = out
        .iter()
        .filter_map(|it| match it {
            ModuleItem::Reg { name, .. } => Some(name.name.as_str()),
            _ => None,
        })
        .collect();
    assert_eq!(reg_names.len(), 4);
    assert!(reg_names.iter().any(|n| n.ends_with("_toggle")));
    assert!(reg_names.iter().any(|n| n.ends_with("_stage0")));
    assert!(reg_names.iter().any(|n| n.ends_with("_stage1")));
    assert!(reg_names.iter().any(|n| n.ends_with("_stage2")));

    let on_blocks: Vec<&OnBlock> = out
        .iter()
        .filter_map(|it| match it {
            ModuleItem::On(on) => Some(on),
            _ => None,
        })
        .collect();
    assert_eq!(on_blocks.len(), 2);
    assert!(on_blocks.iter().any(|on| on.clock.name == "clk_src"));
    assert!(on_blocks.iter().any(|on| on.clock.name == "clk_dst"));

    let ModuleItem::Wire { init, .. } = out.last().expect("last item") else {
        panic!("expected the rewritten wire last")
    };
    let ExprKind::Binary { op, .. } = &init.kind else {
        panic!(
            "expected the rewritten wire's init to be a Binary XOR, got {:?}",
            init.kind
        )
    };
    assert_eq!(*op, BinOp::BitXor);
}

#[test]
fn two_sync_prim_calls_in_one_module_get_distinct_hidden_names() {
    let sp = Span::new(0, 0);
    let items = vec![
        on_dst(vec![df_assign("slow_a", "fast_a", sp)], sp),
        on_dst(vec![df_assign("slow_b", "fast_b", sp)], sp),
    ];
    let out = expand_sync_prims(&items);
    let reg_names: Vec<&str> = out
        .iter()
        .filter_map(|it| match it {
            ModuleItem::Reg { name, .. } => Some(name.name.as_str()),
            _ => None,
        })
        .collect();
    assert_eq!(reg_names.len(), 2);
    assert_ne!(
        reg_names[0], reg_names[1],
        "each call site needs a distinct hidden name"
    );
}

#[test]
fn items_without_sync_primitives_pass_through_unchanged() {
    let sp = Span::new(0, 0);
    let items = vec![
        ModuleItem::Clock(ident("clk", sp)),
        ModuleItem::Wire {
            name: ident("w", sp),
            ty: Type::Bit,
            init: ident_expr("a", sp),
        },
        on_dst(
            vec![SeqStmt::Assign {
                lhs: LValue {
                    base: ident("r", sp),
                    index: None,
                    span: sp,
                },
                rhs: ident_expr("w", sp),
            }],
            sp,
        ),
    ];
    let out = expand_sync_prims(&items);
    assert_eq!(out.len(), 3);
    assert!(matches!(&out[0], ModuleItem::Clock(c) if c.name == "clk"));
    let ModuleItem::Wire { name, init, .. } = &out[1] else {
        panic!("expected the wire")
    };
    assert_eq!(name.name, "w");
    assert!(matches!(&init.kind, ExprKind::Ident(n) if n == "a"));
    let ModuleItem::On(on) = &out[2] else {
        panic!("expected the on block")
    };
    assert_eq!(on.body.len(), 1);
}

#[test]
fn pulse_hidden_names_follow_the_wire_name() {
    let sp = Span::new(0, 0);
    let items = vec![ModuleItem::Wire {
        name: ident("p", sp),
        ty: Type::Bit,
        init: call_expr(
            Builtin::SyncPulse,
            vec![
                ident_expr("s", sp),
                ident_expr("ca", sp),
                ident_expr("cb", sp),
            ],
            sp,
        ),
    }];
    let out = expand_sync_prims(&items);
    let reg_names: Vec<&str> = out
        .iter()
        .filter_map(|it| match it {
            ModuleItem::Reg { name, .. } => Some(name.name.as_str()),
            _ => None,
        })
        .collect();
    assert_eq!(
        reg_names,
        vec![
            "__sync_p_toggle",
            "__sync_p_stage0",
            "__sync_p_stage1",
            "__sync_p_stage2"
        ]
    );
    let ModuleItem::On(src) = &out[1] else {
        panic!()
    };
    assert_eq!(src.clock.name, "ca");
    let ModuleItem::On(dst) = &out[5] else {
        panic!()
    };
    assert_eq!(dst.clock.name, "cb");
}
