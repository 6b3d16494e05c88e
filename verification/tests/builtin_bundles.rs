use mimz_core::ast::{builtin_valid_bundles, ExprKind, ParamTy, Type};

#[test]
fn builtin_valid_bundles_declare_valid_and_valid_signed() {
    let [unsigned, signed] = builtin_valid_bundles();
    assert_eq!(unsigned.name.name, "__Valid");
    assert_eq!(signed.name.name, "__ValidSigned");
    for b in [&unsigned, &signed] {
        assert_eq!(b.params.len(), 1);
        assert_eq!(b.params[0].name.name, "N");
        assert!(matches!(b.params[0].ty, ParamTy::Int));
        let default = b.params[0].default.as_ref().expect("N has a default");
        assert!(matches!(&default.kind, ExprKind::Int { value: 1, .. }));
        assert_eq!(b.fields.len(), 2);
        assert_eq!(b.fields[0].name.name, "valid");
        assert!(matches!(b.fields[0].ty, Type::Bit));
        assert_eq!(b.fields[1].name.name, "data");
    }
    assert!(
        matches!(&unsigned.fields[1].ty, Type::Bits(w) if matches!(&w.kind, ExprKind::Ident(n) if n == "N"))
    );
    assert!(
        matches!(&signed.fields[1].ty, Type::Signed(w) if matches!(&w.kind, ExprKind::Ident(n) if n == "N"))
    );
}
