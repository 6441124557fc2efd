use clarity::names::{ClarityName, ContractName};
use clarity::parser::parse;
use clarity::sugar::{expand_all, SymbolicExpressionType};
use clarity::types::{PrincipalData, StandardPrincipalData, Value};

#[test]
fn sugared_contract_becomes_a_principal_of_the_issuer() {
    let issuer = StandardPrincipalData::transient();
    let out = expand_all(parse(".my-contract").unwrap(), issuer);
    match &out[0].expr {
        SymbolicExpressionType::LiteralValue(Value::Principal(PrincipalData::Contract(id))) => {
            assert_eq!(id.issuer, issuer);
            assert_eq!(id.name, ContractName::parse("my-contract").unwrap());
        }
        other => panic!("unexpected {:?}", other),
    }
}

#[test]
fn sugared_field_becomes_a_field_of_the_issuer() {
    let issuer = StandardPrincipalData::transient();
    let out = expand_all(parse(".my-contract.my-trait").unwrap(), issuer);
    match &out[0].expr {
        SymbolicExpressionType::Field(t) => {
            assert_eq!(t.contract_identifier.issuer, issuer);
            assert_eq!(t.contract_identifier.name, ContractName::parse("my-contract").unwrap());
            assert_eq!(t.name, ClarityName::parse("my-trait").unwrap());
        }
        other => panic!("unexpected {:?}", other),
    }
}

#[test]
fn tuple_literal_becomes_a_tuple_call() {
    let out = expand_all(parse("{a: 1, b: 2}").unwrap(), StandardPrincipalData::transient());
    match &out[0].expr {
        SymbolicExpressionType::List(items) => {
            assert_eq!(items.len(), 3);
            assert_eq!(items[0].expr, SymbolicExpressionType::Atom(ClarityName::parse("tuple").unwrap()));
            match &items[2].expr {
                SymbolicExpressionType::List(pair) => {
                    assert_eq!(pair[0].expr, SymbolicExpressionType::Atom(ClarityName::parse("b").unwrap()));
                    assert_eq!(pair[1].expr, SymbolicExpressionType::AtomValue(Value::Int(2)));
                }
                other => panic!("unexpected {:?}", other),
            }
        }
        other => panic!("unexpected {:?}", other),
    }
}
