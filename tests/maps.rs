use clarity::maps::{
    check_special_fetch_contract_entry, AnalysisDatabase,
    check_special_delete_entry, check_special_fetch_entry, check_special_insert_entry, check_special_set_entry,
    CheckErrors, MapTypes,
};
use clarity::names::ClarityName;
use clarity::parser::parse;
use clarity::sugar::{expand_all, SymbolicExpression};
use clarity::types::{QualifiedContractIdentifier, StandardPrincipalData, TypeSignature};

fn name(s: &str) -> ClarityName {
    ClarityName::parse(s).unwrap()
}

fn args(src: &str) -> Vec<SymbolicExpression> {
    expand_all(parse(src).unwrap(), StandardPrincipalData::transient())
}

fn key_type() -> TypeSignature {
    TypeSignature::TupleType(vec![(name("a"), TypeSignature::IntType)])
}

fn maps() -> MapTypes {
    let mut m = MapTypes::new();
    m.add(name("map-foo"), key_type(), TypeSignature::OptionalType(Box::new(TypeSignature::UIntType))).unwrap();
    m
}

#[test]
fn fetch_entry_returns_an_optional_value() {
    assert_eq!(
        check_special_fetch_entry(&args("map-foo {a: 1}"), key_type(), &maps()),
        Ok(TypeSignature::OptionalType(Box::new(TypeSignature::OptionalType(Box::new(TypeSignature::UIntType)))))
    );
}

#[test]
fn fetch_entry_rejects_a_wrong_key() {
    assert_eq!(
        check_special_fetch_entry(&args("map-foo 1"), TypeSignature::IntType, &maps()),
        Err(CheckErrors::TypeError(key_type(), TypeSignature::IntType))
    );
}

#[test]
fn fetch_entry_needs_a_declared_map_name_and_two_arguments() {
    assert_eq!(check_special_fetch_entry(&args("map-foo"), key_type(), &maps()), Err(CheckErrors::RequiresAtLeastArguments(2, 1)));
    assert_eq!(check_special_fetch_entry(&args("1 2"), key_type(), &maps()), Err(CheckErrors::BadMapName));
    assert_eq!(
        check_special_fetch_entry(&args("map-bar 2"), key_type(), &maps()),
        Err(CheckErrors::NoSuchMap(b"map-bar".to_vec()))
    );
}

#[test]
fn mutators_return_bool() {
    let value = TypeSignature::OptionalType(Box::new(TypeSignature::UIntType));
    assert_eq!(check_special_delete_entry(&args("map-foo {a: 1}"), key_type(), &maps()), Ok(TypeSignature::BoolType));
    assert_eq!(
        check_special_set_entry(&args("map-foo {a: 1} none"), key_type(), TypeSignature::OptionalType(Box::new(TypeSignature::NoType)), &maps()),
        Ok(TypeSignature::BoolType)
    );
    assert_eq!(check_special_insert_entry(&args("map-foo {a: 1} (some u1)"), key_type(), value, &maps()), Ok(TypeSignature::BoolType));
    assert_eq!(
        check_special_set_entry(&args("map-foo {a: 1} 1"), key_type(), TypeSignature::IntType, &maps()),
        Err(CheckErrors::TypeError(TypeSignature::OptionalType(Box::new(TypeSignature::UIntType)), TypeSignature::IntType))
    );
    assert_eq!(
        check_special_insert_entry(&args("map-foo {a: 1}"), key_type(), TypeSignature::IntType, &maps()),
        Err(CheckErrors::RequiresAtLeastArguments(3, 2))
    );
}

#[test]
fn maps_are_declared_once() {
    let mut m = maps();
    assert!(matches!(m.add(name("map-foo"), TypeSignature::IntType, TypeSignature::IntType), Err(CheckErrors::NameAlreadyUsed(_))));
}

#[test]
fn shorter_buffers_are_admitted() {
    assert!(TypeSignature::BufferType(32).admits_type(&TypeSignature::BufferType(20)));
    assert!(!TypeSignature::BufferType(20).admits_type(&TypeSignature::BufferType(32)));
    assert!(TypeSignature::IntType.admits_type(&TypeSignature::NoType));
}

#[test]
fn other_contracts_maps_need_their_saved_analysis() {
    let mut db = AnalysisDatabase::new();
    let a = "'SZ2J6ZY48GV1EZ5V2V5RB9MP66SW86PYKKQ9H6DPR.contract-a map-foo {a: 1}";
    // before contract-a is saved
    assert_eq!(check_special_fetch_contract_entry(&args(a), key_type(), &db), Err(CheckErrors::NoSuchContract));
    let id = QualifiedContractIdentifier::parse("SZ2J6ZY48GV1EZ5V2V5RB9MP66SW86PYKKQ9H6DPR.contract-a").unwrap();
    db.insert_contract(id, maps()).unwrap();
    assert_eq!(
        check_special_fetch_contract_entry(&args(a), key_type(), &db),
        Ok(TypeSignature::OptionalType(Box::new(TypeSignature::OptionalType(Box::new(TypeSignature::UIntType)))))
    );
    let again = QualifiedContractIdentifier::parse("SZ2J6ZY48GV1EZ5V2V5RB9MP66SW86PYKKQ9H6DPR.contract-a").unwrap();
    assert_eq!(db.insert_contract(again, MapTypes::new()), Err(CheckErrors::ContractAlreadyExists));
    assert_eq!(
        check_special_fetch_contract_entry(&args("map-foo map-foo {a: 1}"), key_type(), &db),
        Err(CheckErrors::ContractCallExpectName)
    );
}
