use clarity::names::{ClarityName, ContractName};
use clarity::types::{
    type_of, ListConstructionError, TypeSignature, PrincipalData, QualifiedContractIdentifier, StandardPrincipalData, TraitIdentifier, TupleData, Value,
    ValueError, MAX_VALUE_SIZE,
};

fn name(s: &str) -> ClarityName {
    ClarityName::parse(s).unwrap()
}

fn deep_value() -> Result<Value, ValueError> {
    let mut v = Value::Int(1);
    for _ in 0..31 {
        v = Value::some(v)?;
    }
    Ok(v)
}

#[test]
fn test_constructors() {
    assert_eq!(
        Value::list_with_type(vec![Value::Int(5), Value::Int(2)], &TypeSignature::BoolType, 3),
        Err(ListConstructionError::FailureConstructingListWithType)
    );
    assert_eq!(Value::buff_from(vec![0; (MAX_VALUE_SIZE + 1) as usize]), Err(ValueError::ValueTooLarge));

    // The wrappers fail when they are what pushes the size past the limit.
    assert_eq!(Value::okay(Value::buff_from(vec![0; MAX_VALUE_SIZE as usize]).unwrap()), Err(ValueError::ValueTooLarge));
    assert_eq!(Value::error(Value::buff_from(vec![0; MAX_VALUE_SIZE as usize]).unwrap()), Err(ValueError::ValueTooLarge));
    assert_eq!(Value::some(Value::buff_from(vec![0; MAX_VALUE_SIZE as usize]).unwrap()), Err(ValueError::ValueTooLarge));

    // The depth limit holds for tuples, lists, somes, okays and errors.
    assert_eq!(deep_value().unwrap().depth(), 32);
    assert_eq!(TupleData::from_data(vec![(name("a"), deep_value().unwrap())]), Err(ValueError::TypeSignatureTooDeep));
    assert_eq!(Value::list_from(vec![deep_value().unwrap()]), Err(ValueError::TypeSignatureTooDeep));
    assert_eq!(Value::okay(deep_value().unwrap()), Err(ValueError::TypeSignatureTooDeep));
    assert_eq!(Value::error(deep_value().unwrap()), Err(ValueError::TypeSignatureTooDeep));
    assert_eq!(Value::some(deep_value().unwrap()), Err(ValueError::TypeSignatureTooDeep));
}

#[test]
fn simple_size_test() {
    assert_eq!(Value::Int(10).size(), 16);
}

#[test]
fn simple_tuple_get_test() {
    let t = TupleData::from_data(vec![(name("abc"), Value::Int(0))]).unwrap();
    assert_eq!(t.get("abc"), Ok(&Value::Int(0)));
    // should error!
    t.get("abcd").unwrap_err();
}

#[test]
fn wrapper_sizes_add_one() {
    assert_eq!(Value::some(Value::Int(1)).unwrap().size(), 17);
    assert_eq!(Value::okay(Value::Bool(true)).unwrap().size(), 2);
    assert_eq!(Value::none().size(), 1);
    assert_eq!(Value::none().depth(), 2);
    assert_eq!(Value::okay_true().depth(), 2);
    assert_eq!(Value::err_uint(3), Value::error(Value::UInt(3)).unwrap());
}

#[test]
fn list_size_and_depth() {
    let l = Value::list_from(vec![Value::Int(1), Value::Int(2), Value::Int(3)]).unwrap();
    assert_eq!(l.size(), 4 + 16 + 16 + 16);
    assert_eq!(l.depth(), 2);
    assert_eq!(Value::list_from(vec![]).unwrap().size(), 4);
    match Value::list_from(vec![Value::buff_from_byte(7)]).unwrap() {
        Value::List(d) => assert_eq!(d.len(), 1),
        _ => panic!("expected a list"),
    }
}

#[test]
fn oversized_list_is_rejected() {
    let big = Value::buff_from(vec![0; (MAX_VALUE_SIZE / 2) as usize]).unwrap();
    let big2 = Value::buff_from(vec![0; (MAX_VALUE_SIZE / 2) as usize]).unwrap();
    assert_eq!(Value::list_from(vec![big, big2]), Err(ValueError::ValueTooLarge));
}

#[test]
fn tuple_fields_are_sorted_and_unique() {
    let t = TupleData::from_data(vec![
        (name("b"), Value::Int(2)),
        (name("a"), Value::Int(1)),
        (name("ab"), Value::Bool(false)),
    ])
    .unwrap();
    let names: Vec<Vec<u8>> = t.fields_ref().iter().map(|f| f.0.as_bytes().to_vec()).collect();
    assert_eq!(names, vec![b"a".to_vec(), b"ab".to_vec(), b"b".to_vec()]);
    assert_eq!(t.get("ab"), Ok(&Value::Bool(false)));
    assert_eq!(t.len(), 3);
    assert_eq!(
        TupleData::from_data(vec![(name("a"), Value::Int(1)), (name("a"), Value::Int(2))]),
        Err(ValueError::NameAlreadyUsed(b"a".to_vec()))
    );
    assert_eq!(TupleData::from_data(vec![]), Err(ValueError::EmptyTuplesNotAllowed));
    assert_eq!(t.get("c"), Err(ValueError::NoSuchTupleField));
}

#[test]
fn principals_round_trip_through_text() {
    let p = PrincipalData::parse_standard_principal("SM2J6ZY48GV1EZ5V2V5RB9MP66SW86PYKKQVX8X0G").unwrap();
    assert_eq!(PrincipalData::Standard(p).to_string(), "'SM2J6ZY48GV1EZ5V2V5RB9MP66SW86PYKKQVX8X0G");
    assert_eq!(p.to_address(), "SM2J6ZY48GV1EZ5V2V5RB9MP66SW86PYKKQVX8X0G");
    // a changed checksum digit
    assert_eq!(PrincipalData::parse_standard_principal("SM2J6ZY48GV1EZ5V2V5RB9MP66SW86PYKKQVX8X0H"), None);
    assert_eq!(PrincipalData::parse_standard_principal("SM2J"), None);
}

#[test]
fn transient_identifiers() {
    let t = StandardPrincipalData::transient();
    assert_eq!(t.0, 1);
    assert_eq!(t.1, [1u8; 20]);
    let id = QualifiedContractIdentifier::transient();
    assert_eq!(id.name, ContractName::parse("__transient").unwrap());
    let local = QualifiedContractIdentifier::local("foo").unwrap_or_else(|| QualifiedContractIdentifier::local("fooba").unwrap());
    assert_eq!(local.issuer, t);
    assert!(QualifiedContractIdentifier::local("foo").is_none());
    assert!(QualifiedContractIdentifier::local("1abcdef").is_none());
}

#[test]
fn qualified_identifiers_parse() {
    let id = QualifiedContractIdentifier::parse("SZ2J6ZY48GV1EZ5V2V5RB9MP66SW86PYKKQ9H6DPR.contract-a").unwrap();
    assert_eq!(id.name, ContractName::parse("contract-a").unwrap());
    assert_eq!(id.to_string(), "'SZ2J6ZY48GV1EZ5V2V5RB9MP66SW86PYKKQ9H6DPR.contract-a");
    assert!(QualifiedContractIdentifier::parse("SZ2J6ZY48GV1EZ5V2V5RB9MP66SW86PYKKQ9H6DPR").is_none());
    assert!(matches!(
        PrincipalData::parse_qualified_contract_principal("SZ2J6ZY48GV1EZ5V2V5RB9MP66SW86PYKKQ9H6DPR.contract-a"),
        Some(PrincipalData::Contract(_))
    ));
}

#[test]
fn trait_identifiers_parse() {
    let t = TraitIdentifier::parse_fully_qualified("SZ2J6ZY48GV1EZ5V2V5RB9MP66SW86PYKKQ9H6DPR.my-contract.my-trait").unwrap();
    assert_eq!(t.name, name("my-trait"));
    assert_eq!(t.contract_identifier.name, ContractName::parse("my-contract").unwrap());
    assert!(TraitIdentifier::parse_fully_qualified(".my-contract.my-trait").is_none());
    let (c, n) = TraitIdentifier::parse_sugared_syntax(".my-contract.my-trait").unwrap();
    assert_eq!(c, ContractName::parse("my-contract").unwrap());
    assert_eq!(n, name("my-trait"));
    assert!(TraitIdentifier::parse("my-contract.my-trait").is_none());
}

#[test]
fn names_are_validated() {
    assert!(ClarityName::parse("set-bar!").is_some());
    assert!(ClarityName::parse("<=").is_some());
    assert!(ClarityName::parse("1abc").is_none());
    assert!(ClarityName::parse("a#b").is_none());
    assert!(ClarityName::parse("").is_none());
    assert!(ClarityName::parse(&"a".repeat(128)).is_some());
    assert!(ClarityName::parse(&"a".repeat(129)).is_none());
    assert!(ContractName::parse("abcd").is_none());
    assert!(ContractName::parse("abcde").is_some());
    assert!(ContractName::parse(&"a".repeat(41)).is_none());
    assert!(ContractName::parse("ab!cd").is_none());
}

#[test]
fn test_some_displays() {
    assert_eq!(Value::list_from(vec![Value::Int(10), Value::Int(5)]).unwrap().to_string(), "(10 5)");
    assert_eq!(Value::some(Value::Int(10)).unwrap().to_string(), "(some 10)");
    assert_eq!(Value::okay(Value::Int(10)).unwrap().to_string(), "(ok 10)");
    assert_eq!(Value::error(Value::Int(10)).unwrap().to_string(), "(err 10)");
    assert_eq!(Value::none().to_string(), "none");
    assert_eq!(
        Value::Principal(PrincipalData::Standard(
            PrincipalData::parse_standard_principal("SM2J6ZY48GV1EZ5V2V5RB9MP66SW86PYKKQVX8X0G").unwrap()
        ))
        .to_string(),
        "'SM2J6ZY48GV1EZ5V2V5RB9MP66SW86PYKKQVX8X0G"
    );
    assert_eq!(
        Value::Tuple(TupleData::from_data(vec![(name("a"), Value::Int(2))]).unwrap()).to_string(),
        "(tuple (a 2))"
    );
}

#[test]
fn values_render_as_source_text() {
    assert_eq!(Value::Int(i128::MIN).to_string(), "-170141183460469231731687303715884105728");
    assert_eq!(Value::Int(0).to_string(), "0");
    assert_eq!(Value::UInt(42).to_string(), "u42");
    assert_eq!(Value::Bool(false).to_string(), "false");
    assert_eq!(Value::buff_from(vec![0x0a, 0xff]).unwrap().to_string(), "0x0aff");
    assert_eq!(Value::list_from(vec![]).unwrap().to_string(), "()");
    let bad = StandardPrincipalData(40, [0u8; 20]);
    assert_eq!(bad.to_address(), "INVALID_C32_ADD");
}

#[test]
fn admits_checks_values_structurally() {
    let list_of_ints = TypeSignature::ListType(Box::new(TypeSignature::IntType), 2);
    assert!(list_of_ints.admits(&Value::list_from(vec![Value::Int(1), Value::Int(2)]).unwrap()));
    assert!(!list_of_ints.admits(&Value::list_from(vec![Value::Int(1), Value::Int(2), Value::Int(3)]).unwrap()));
    assert!(!list_of_ints.admits(&Value::list_from(vec![Value::Bool(true)]).unwrap()));
    let opt = TypeSignature::OptionalType(Box::new(TypeSignature::UIntType));
    assert!(opt.admits(&Value::none()));
    assert!(opt.admits(&Value::some(Value::UInt(1)).unwrap()));
    assert!(!opt.admits(&Value::some(Value::Int(1)).unwrap()));
    assert!(TypeSignature::BufferType(2).admits(&Value::buff_from(vec![1, 2]).unwrap()));
    assert!(!TypeSignature::BufferType(1).admits(&Value::buff_from(vec![1, 2]).unwrap()));
    let resp = TypeSignature::ResponseType(Box::new(TypeSignature::IntType), Box::new(TypeSignature::UIntType));
    assert!(resp.admits(&Value::err_uint(7)));
    assert!(!resp.admits(&Value::error(Value::Int(7)).unwrap()));
    let tup = TypeSignature::TupleType(vec![(name("a"), TypeSignature::IntType)]);
    assert!(tup.admits(&Value::Tuple(TupleData::from_data(vec![(name("a"), Value::Int(2))]).unwrap())));
    assert!(!tup.admits(&Value::Tuple(TupleData::from_data(vec![(name("b"), Value::Int(2))]).unwrap())));
    let typed = Value::list_with_type(vec![Value::Int(5)], &TypeSignature::IntType, 3).unwrap();
    assert_eq!(typed.size(), 4 + 16);
}

#[test]
fn get_owned_takes_the_field() {
    let t = TupleData::from_data(vec![(name("abc"), Value::Int(7)), (name("b"), Value::Bool(true))]).unwrap();
    assert_eq!(t.get_owned("b"), Ok(Value::Bool(true)));
    let t = TupleData::from_data(vec![(name("abc"), Value::Int(7))]).unwrap();
    assert_eq!(t.get_owned("zz"), Err(ValueError::NoSuchTupleField));
}

#[test]
fn list_items_need_a_common_type() {
    assert_eq!(Value::list_from(vec![Value::Int(1), Value::Bool(true)]), Err(ValueError::NoCommonType));
    assert_eq!(
        Value::list_from(vec![Value::some(Value::Int(1)).unwrap(), Value::some(Value::Bool(true)).unwrap()]),
        Err(ValueError::NoCommonType)
    );
    let l = Value::list_from(vec![Value::none(), Value::some(Value::Int(1)).unwrap()]).unwrap();
    assert_eq!(
        type_of(&l),
        TypeSignature::ListType(Box::new(TypeSignature::OptionalType(Box::new(TypeSignature::IntType))), 2)
    );
    let b = Value::list_from(vec![Value::buff_from(vec![1]).unwrap(), Value::buff_from(vec![1, 2, 3]).unwrap()]).unwrap();
    assert_eq!(type_of(&b), TypeSignature::ListType(Box::new(TypeSignature::BufferType(3)), 2));
    assert_eq!(type_of(&Value::list_from(vec![]).unwrap()), TypeSignature::ListType(Box::new(TypeSignature::NoType), 0));
}

#[test]
fn wrapped_values_have_their_types() {
    match Value::some(Value::UInt(1)).unwrap() {
        Value::Optional(o) => assert_eq!(o.type_signature(), TypeSignature::OptionalType(Box::new(TypeSignature::UIntType))),
        _ => panic!("expected an optional"),
    }
    match Value::err_uint(3) {
        Value::Response(r) => assert_eq!(
            r.type_signature(),
            TypeSignature::ResponseType(Box::new(TypeSignature::NoType), Box::new(TypeSignature::UIntType))
        ),
        _ => panic!("expected a response"),
    }
}
