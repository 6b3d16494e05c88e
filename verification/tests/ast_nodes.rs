use mimz_core::ast::{
    BundleDecl, Edge, Expr, ExprKind, FieldDecl, FieldInit, FuncDecl, Ident, ModuleItem, QualIdent,
    SyncLoop, TopItem, Type,
};
use mimz_core::span::Span;

#[test]
fn bundle_decl_node_constructs() {
    let span = Span::new(0, 0);
    let b = BundleDecl {
        name: Ident {
            name: "MemBus".into(),
            span,
        },
        params: vec![],
        fields: vec![FieldDecl {
            name: Ident {
                name: "valid".into(),
                span,
            },
            ty: Type::Bit,
            span,
        }],
        span,
    };
    let _item = TopItem::Bundle(b);
    let _destr = ModuleItem::BundleDestructure {
        bindings: vec![Ident {
            name: "valid".into(),
            span,
        }],
        expr: Expr {
            kind: ExprKind::Ident("bus".into()),
            span,
        },
        span,
    };
    let _ty = Type::Bundle {
        name: QualIdent {
            path: vec![],
            name: Ident {
                name: "MemBus".into(),
                span,
            },
            span,
            resolved_file: None,
        },
        args: vec![],
    };
    let _lit = ExprKind::BundleLit(vec![FieldInit {
        name: Ident {
            name: "valid".into(),
            span,
        },
        value: Expr {
            kind: ExprKind::Bool(true),
            span,
        },
        span,
    }]);
}

#[test]
fn func_decl_node_constructs() {
    let sp = Span::new(0, 0);
    let _ = TopItem::Func(FuncDecl {
        name: Ident {
            name: "f".into(),
            span: sp,
        },
        params: vec![],
        ret: Type::Bit,
        stmts: vec![],
        tail: Expr {
            kind: ExprKind::Bool(true),
            span: sp,
        },
        span: sp,
    });
}

#[test]
fn array_type_constructs() {
    let sp = Span::new(0, 0);
    let _ty = Type::Array {
        elem: Box::new(Type::Bits(Box::new(Expr {
            kind: ExprKind::Int {
                value: 8,
                raw: "8".into(),
            },
            span: sp,
        }))),
        len: Box::new(Expr {
            kind: ExprKind::Int {
                value: 4,
                raw: "4".into(),
            },
            span: sp,
        }),
    };
    let _lit = ExprKind::ArrayLit(vec![
        Expr {
            kind: ExprKind::Int {
                value: 0,
                raw: "0".into(),
            },
            span: sp,
        },
        Expr {
            kind: ExprKind::Int {
                value: 1,
                raw: "1".into(),
            },
            span: sp,
        },
    ]);
}

#[test]
fn sync_loop_node_constructs() {
    let sp = Span::new(0, 0);
    let id = |n: &str| Ident {
        name: n.into(),
        span: sp,
    };
    let int = |v: u128| Expr {
        kind: ExprKind::Int {
            value: v,
            raw: v.to_string(),
        },
        span: sp,
    };
    let _item = ModuleItem::SyncLoop(Box::new(SyncLoop {
        name: id("find_first"),
        clock: id("clk"),
        edge: Edge::Rise,
        var: id("i"),
        lo: int(0),
        hi: int(8),
        result_name: id("result"),
        result_ty: Type::Bit,
        result_init: int(0),
        body: vec![],
        span: sp,
    }));
}
