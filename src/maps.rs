//! Type rules of the map built-ins: `fetch-entry`, `set-entry`,
//! `insert-entry` and `delete-entry`, given the types of the argument
//! expressions.
use vstd::prelude::*;
use crate::names::ClarityName;
use crate::sugar::{SymbolicExpression, SymbolicExpressionType};
use crate::types::{admits_type_spec, compare_bytes, same_type, PrincipalData, QualifiedContractIdentifier, TypeSignature, Value};

verus! {

/// Why an expression does not type-check.
#[derive(Debug, PartialEq, Eq)]
pub enum CheckErrors {
    /// At least this many arguments were needed; this many were given.
    RequiresAtLeastArguments(usize, usize),
    /// The map argument is not a name.
    BadMapName,
    NoSuchMap(Vec<u8>),
    /// A map with this name is already declared.
    NameAlreadyUsed(Vec<u8>),
    /// The expected type, then the type found.
    TypeError(TypeSignature, TypeSignature),
    /// The first argument is not a literal contract principal.
    ContractCallExpectName,
    /// No analysis is saved for this contract.
    NoSuchContract,
    /// An analysis is already saved for this contract.
    ContractAlreadyExists,
}

/// The maps a contract declares: name, key type and value type; no name twice.
pub struct MapTypes {
    maps: Vec<(ClarityName, TypeSignature, TypeSignature)>,
}

pub open spec fn has_map(ms: Seq<(ClarityName, TypeSignature, TypeSignature)>, name: Seq<u8>) -> bool {
    exists|i: int| 0 <= i < ms.len() && (#[trigger] ms[i]).0@ == name
}

impl MapTypes {
    pub closed spec fn entries(&self) -> Seq<(ClarityName, TypeSignature, TypeSignature)> {
        self.maps@
    }

    /// No map name is declared twice.
    pub open spec fn wf(&self) -> bool {
        forall|i: int, j: int| 0 <= i < j < self.entries().len() ==> (#[trigger] self.entries()[i]).0@ != (#[trigger] self.entries()[j]).0@
    }

    pub fn new() -> (r: MapTypes)
        ensures
            r.wf(),
            r.entries().len() == 0,
    {
        MapTypes { maps: Vec::new() }
    }

    fn find(&self, name: &[u8]) -> (r: Option<usize>)
        ensures
            r matches Some(i) ==> i < self.maps@.len() && self.maps@[i as int].0@ == name@,
            r is None ==> !has_map(self.maps@, name@),
    {
        let mut i: usize = 0;
        while i < self.maps.len()
            invariant
                i <= self.maps@.len(),
                forall|j: int| 0 <= j < i ==> (#[trigger] self.maps@[j]).0@ != name@,
            decreases self.maps@.len() - i,
        {
            if compare_bytes(self.maps[i].0.as_bytes(), name) == 0 {
                return Some(i);
            }
            i = i + 1;
        }
        None
    }

    /// Declares a map; a name may be declared once.
    pub fn add(&mut self, name: ClarityName, key: TypeSignature, value: TypeSignature) -> (r: Result<(), CheckErrors>)
        requires
            old(self).wf(),
        ensures
            final(self).wf(),
            has_map(old(self).entries(), name@) ==> r is Err && final(self).entries() == old(self).entries(),
            !has_map(old(self).entries(), name@) ==> r is Ok && final(self).entries() == old(self).entries().push((name, key, value)),
    {
        if let Some(_) = self.find(name.as_bytes()) {
            return Err(CheckErrors::NameAlreadyUsed(crate::names::slice_to_vec(name.as_bytes())));
        }
        let ghost before = self.maps@;
        self.maps.push((name, key, value));
        proof {
            assert forall|i: int, j: int| 0 <= i < j < self.entries().len() implies (#[trigger] self.entries()[i]).0@ != (#[trigger] self.entries()[j]).0@ by {
                assert(before == old(self).entries());
                if j == before.len() {
                    assert(self.maps@[i] == before[i]);
                    assert(old(self).entries()[i].0@ != name@);
                } else {
                    assert(self.maps@[i] == before[i] && self.maps@[j] == before[j]);
                    assert(old(self).entries()[i].0@ != old(self).entries()[j].0@);
                }
            }
        }
        Ok(())
    }
}

/// Whether the first argument names a map that is not declared.
pub open spec fn names_missing_map(args: Seq<SymbolicExpression>, ms: Seq<(ClarityName, TypeSignature, TypeSignature)>) -> bool {
    map_arg(args) is Some && !has_map(ms, map_arg(args)->Some_0)
}

/// Whether the first argument names a declared map.
pub open spec fn names_known_map(args: Seq<SymbolicExpression>, ms: Seq<(ClarityName, TypeSignature, TypeSignature)>) -> bool {
    map_arg(args) is Some && has_map(ms, map_arg(args)->Some_0)
}

/// The map named by the first argument, when it is a name.
pub open spec fn map_arg(args: Seq<SymbolicExpression>) -> Option<Seq<u8>> {
    match args[0].expr {
        SymbolicExpressionType::Atom(n) => Some(n@),
        _ => None,
    }
}

/// Checks the shared part of the map rules: enough arguments, a map name,
/// a declared map. Returns the map's index.
fn find_map_arg(args: &Vec<SymbolicExpression>, needed: usize, maps: &MapTypes) -> (r: Result<usize, CheckErrors>)
    requires
        maps.wf(),
        needed >= 1,
    ensures
        args@.len() < needed ==> r == Err::<usize, CheckErrors>(CheckErrors::RequiresAtLeastArguments(needed, args@.len() as usize)),
        args@.len() >= needed && map_arg(args@) is None ==> r == Err::<usize, CheckErrors>(CheckErrors::BadMapName),
        args@.len() >= needed && names_missing_map(args@, maps.entries()) ==> (r matches Err(e) && e is NoSuchMap),
        r matches Ok(i) ==> args@.len() >= needed && i < maps.entries().len() && map_arg(args@) == Some(maps.entries()[i as int].0@),
        r matches Err(e) ==> !(e is TypeError),
        args@.len() >= needed && names_known_map(args@, maps.entries()) ==> r is Ok,
{
    if args.len() < needed {
        return Err(CheckErrors::RequiresAtLeastArguments(needed, args.len()));
    }
    let name = match &args[0].expr {
        SymbolicExpressionType::Atom(n) => n,
        _ => return Err(CheckErrors::BadMapName),
    };
    match maps.find(name.as_bytes()) {
        Some(i) => Ok(i),
        None => Err(CheckErrors::NoSuchMap(crate::names::slice_to_vec(name.as_bytes()))),
    }
}

/// `(fetch-entry map key)`: the type is `(optional value-type)` when the
/// map's key type admits `key_type`, the type of the key argument.
pub fn check_special_fetch_entry(args: &Vec<SymbolicExpression>, key_type: TypeSignature, maps: &MapTypes) -> (r: Result<TypeSignature, CheckErrors>)
    requires
        maps.wf(),
    ensures
        args@.len() < 2 ==> r == Err::<TypeSignature, CheckErrors>(CheckErrors::RequiresAtLeastArguments(2, args@.len() as usize)),
        args@.len() >= 2 && map_arg(args@) is None ==> r == Err::<TypeSignature, CheckErrors>(CheckErrors::BadMapName),
        args@.len() >= 2 && names_missing_map(args@, maps.entries()) ==> (r matches Err(e) && e is NoSuchMap),
        r matches Ok(t) ==> exists|i: int| 0 <= i < maps.entries().len() && map_arg(args@) == Some(maps.entries()[i].0@)
            && admits_type_spec(maps.entries()[i].1, key_type) && (t matches TypeSignature::OptionalType(v) && same_type(maps.entries()[i].2, *v)),
        r matches Err(CheckErrors::TypeError(expected, found)) ==> found == key_type && exists|i: int| 0 <= i < maps.entries().len()
            && map_arg(args@) == Some(maps.entries()[i].0@) && !admits_type_spec(maps.entries()[i].1, key_type)
            && same_type(maps.entries()[i].1, expected),
        args@.len() >= 2 && names_known_map(args@, maps.entries()) ==> (r is Ok || r matches Err(CheckErrors::TypeError(_, _))),
{
    let i = match find_map_arg(args, 2, maps) {
        Ok(i) => i,
        Err(e) => return Err(e),
    };
    let (_, expected_key, value) = &maps.maps[i];
    if expected_key.admits_type(&key_type) {
        Ok(TypeSignature::OptionalType(Box::new(value.duplicate())))
    } else {
        Err(CheckErrors::TypeError(expected_key.duplicate(), key_type))
    }
}

/// `(delete-entry map key)`: the type is `bool` when the map's key type
/// admits `key_type`.
pub fn check_special_delete_entry(args: &Vec<SymbolicExpression>, key_type: TypeSignature, maps: &MapTypes) -> (r: Result<TypeSignature, CheckErrors>)
    requires
        maps.wf(),
    ensures
        args@.len() < 2 ==> r == Err::<TypeSignature, CheckErrors>(CheckErrors::RequiresAtLeastArguments(2, args@.len() as usize)),
        args@.len() >= 2 && map_arg(args@) is None ==> r == Err::<TypeSignature, CheckErrors>(CheckErrors::BadMapName),
        args@.len() >= 2 && names_missing_map(args@, maps.entries()) ==> (r matches Err(e) && e is NoSuchMap),
        r matches Ok(t) ==> t == TypeSignature::BoolType && exists|i: int| 0 <= i < maps.entries().len() && map_arg(args@) == Some(maps.entries()[i].0@)
            && admits_type_spec(maps.entries()[i].1, key_type),
        r matches Err(CheckErrors::TypeError(expected, found)) ==> found == key_type && exists|i: int| 0 <= i < maps.entries().len()
            && map_arg(args@) == Some(maps.entries()[i].0@) && !admits_type_spec(maps.entries()[i].1, key_type)
            && same_type(maps.entries()[i].1, expected),
        args@.len() >= 2 && names_known_map(args@, maps.entries()) ==> (r is Ok || r matches Err(CheckErrors::TypeError(_, _))),
{
    let i = match find_map_arg(args, 2, maps) {
        Ok(i) => i,
        Err(e) => return Err(e),
    };
    let (_, expected_key, _) = &maps.maps[i];
    if expected_key.admits_type(&key_type) {
        Ok(TypeSignature::BoolType)
    } else {
        Err(CheckErrors::TypeError(expected_key.duplicate(), key_type))
    }
}

/// `(set-entry map key value)` and `(insert-entry map key value)`: the type
/// is `bool` when the map's key and value types admit `key_type` and
/// `value_type`; the key is checked first.
pub fn check_set_or_insert_entry(
    args: &Vec<SymbolicExpression>,
    key_type: TypeSignature,
    value_type: TypeSignature,
    maps: &MapTypes,
) -> (r: Result<TypeSignature, CheckErrors>)
    requires
        maps.wf(),
    ensures
        args@.len() < 3 ==> r == Err::<TypeSignature, CheckErrors>(CheckErrors::RequiresAtLeastArguments(3, args@.len() as usize)),
        args@.len() >= 3 && map_arg(args@) is None ==> r == Err::<TypeSignature, CheckErrors>(CheckErrors::BadMapName),
        args@.len() >= 3 && names_missing_map(args@, maps.entries()) ==> (r matches Err(e) && e is NoSuchMap),
        r matches Ok(t) ==> t == TypeSignature::BoolType && exists|i: int| 0 <= i < maps.entries().len() && map_arg(args@) == Some(maps.entries()[i].0@)
            && admits_type_spec(maps.entries()[i].1, key_type) && admits_type_spec(maps.entries()[i].2, value_type),
        r matches Err(CheckErrors::TypeError(expected, found)) ==> exists|i: int| 0 <= i < maps.entries().len()
            && map_arg(args@) == Some(maps.entries()[i].0@) && (if !admits_type_spec(maps.entries()[i].1, key_type) {
                found == key_type && same_type(maps.entries()[i].1, expected)
            } else {
                found == value_type && !admits_type_spec(maps.entries()[i].2, value_type) && same_type(maps.entries()[i].2, expected)
            }),
        args@.len() >= 3 && names_known_map(args@, maps.entries()) ==> (r is Ok || r matches Err(CheckErrors::TypeError(_, _))),
{
    let i = match find_map_arg(args, 3, maps) {
        Ok(i) => i,
        Err(e) => return Err(e),
    };
    let (_, expected_key, expected_value) = &maps.maps[i];
    if !expected_key.admits_type(&key_type) {
        Err(CheckErrors::TypeError(expected_key.duplicate(), key_type))
    } else if !expected_value.admits_type(&value_type) {
        Err(CheckErrors::TypeError(expected_value.duplicate(), value_type))
    } else {
        Ok(TypeSignature::BoolType)
    }
}

/// `(set-entry map key value)`.
pub fn check_special_set_entry(args: &Vec<SymbolicExpression>, key_type: TypeSignature, value_type: TypeSignature, maps: &MapTypes) -> (r: Result<TypeSignature, CheckErrors>)
    requires
        maps.wf(),
    ensures
        args@.len() < 3 ==> r == Err::<TypeSignature, CheckErrors>(CheckErrors::RequiresAtLeastArguments(3, args@.len() as usize)),
        args@.len() >= 3 && map_arg(args@) is None ==> r == Err::<TypeSignature, CheckErrors>(CheckErrors::BadMapName),
        args@.len() >= 3 && names_missing_map(args@, maps.entries()) ==> (r matches Err(e) && e is NoSuchMap),
        r matches Ok(t) ==> t == TypeSignature::BoolType && exists|i: int| 0 <= i < maps.entries().len() && map_arg(args@) == Some(maps.entries()[i].0@)
            && admits_type_spec(maps.entries()[i].1, key_type) && admits_type_spec(maps.entries()[i].2, value_type),
        r matches Err(CheckErrors::TypeError(expected, found)) ==> exists|i: int| 0 <= i < maps.entries().len()
            && map_arg(args@) == Some(maps.entries()[i].0@) && (if !admits_type_spec(maps.entries()[i].1, key_type) {
                found == key_type && same_type(maps.entries()[i].1, expected)
            } else {
                found == value_type && !admits_type_spec(maps.entries()[i].2, value_type) && same_type(maps.entries()[i].2, expected)
            }),
        args@.len() >= 3 && names_known_map(args@, maps.entries()) ==> (r is Ok || r matches Err(CheckErrors::TypeError(_, _))),
{
    check_set_or_insert_entry(args, key_type, value_type, maps)
}

/// `(insert-entry map key value)`.
pub fn check_special_insert_entry(args: &Vec<SymbolicExpression>, key_type: TypeSignature, value_type: TypeSignature, maps: &MapTypes) -> (r: Result<TypeSignature, CheckErrors>)
    requires
        maps.wf(),
    ensures
        args@.len() < 3 ==> r == Err::<TypeSignature, CheckErrors>(CheckErrors::RequiresAtLeastArguments(3, args@.len() as usize)),
        args@.len() >= 3 && map_arg(args@) is None ==> r == Err::<TypeSignature, CheckErrors>(CheckErrors::BadMapName),
        args@.len() >= 3 && names_missing_map(args@, maps.entries()) ==> (r matches Err(e) && e is NoSuchMap),
        r matches Ok(t) ==> t == TypeSignature::BoolType && exists|i: int| 0 <= i < maps.entries().len() && map_arg(args@) == Some(maps.entries()[i].0@)
            && admits_type_spec(maps.entries()[i].1, key_type) && admits_type_spec(maps.entries()[i].2, value_type),
        r matches Err(CheckErrors::TypeError(expected, found)) ==> exists|i: int| 0 <= i < maps.entries().len()
            && map_arg(args@) == Some(maps.entries()[i].0@) && (if !admits_type_spec(maps.entries()[i].1, key_type) {
                found == key_type && same_type(maps.entries()[i].1, expected)
            } else {
                found == value_type && !admits_type_spec(maps.entries()[i].2, value_type) && same_type(maps.entries()[i].2, expected)
            }),
        args@.len() >= 3 && names_known_map(args@, maps.entries()) ==> (r is Ok || r matches Err(CheckErrors::TypeError(_, _))),
{
    check_set_or_insert_entry(args, key_type, value_type, maps)
}


/// Whether two contract identifiers are the same contract.
pub open spec fn same_contract(a: QualifiedContractIdentifier, b: QualifiedContractIdentifier) -> bool {
    a.issuer.0 == b.issuer.0 && a.issuer.1@ == b.issuer.1@ && a.name@ == b.name@
}

fn same_contract_exec(a: &QualifiedContractIdentifier, b: &QualifiedContractIdentifier) -> (r: bool)
    ensures
        r == same_contract(*a, *b),
{
    if a.issuer.0 != b.issuer.0 {
        return false;
    }
    let mut i: usize = 0;
    while i < 20
        invariant
            i <= 20,
            a.issuer.1@.len() == 20,
            b.issuer.1@.len() == 20,
            forall|j: int| 0 <= j < i ==> a.issuer.1@[j] == b.issuer.1@[j],
        decreases 20 - i,
    {
        if a.issuer.1[i] != b.issuer.1[i] {
            return false;
        }
        i = i + 1;
    }
    assert(a.issuer.1@ =~= b.issuer.1@);
    compare_bytes(a.name.as_bytes(), b.name.as_bytes()) == 0
}

/// The saved analyses that other contracts' checks read: for each
/// contract, the maps it declares.
pub struct AnalysisDatabase {
    contracts: Vec<(QualifiedContractIdentifier, MapTypes)>,
}

pub open spec fn has_contract(cs: Seq<(QualifiedContractIdentifier, MapTypes)>, id: QualifiedContractIdentifier) -> bool {
    exists|i: int| 0 <= i < cs.len() && same_contract((#[trigger] cs[i]).0, id)
}

impl AnalysisDatabase {
    pub closed spec fn entries(&self) -> Seq<(QualifiedContractIdentifier, MapTypes)> {
        self.contracts@
    }

    /// Each saved contract's maps are well formed, and no contract is saved twice.
    pub open spec fn wf(&self) -> bool {
        &&& forall|i: int| 0 <= i < self.entries().len() ==> (#[trigger] self.entries()[i]).1.wf()
        &&& forall|i: int, j: int| 0 <= i < j < self.entries().len() ==> !same_contract((#[trigger] self.entries()[i]).0, (#[trigger] self.entries()[j]).0)
    }

    pub fn new() -> (r: AnalysisDatabase)
        ensures
            r.wf(),
            r.entries().len() == 0,
    {
        AnalysisDatabase { contracts: Vec::new() }
    }

    fn find(&self, id: &QualifiedContractIdentifier) -> (r: Option<usize>)
        ensures
            r matches Some(i) ==> i < self.contracts@.len() && same_contract(self.contracts@[i as int].0, *id),
            r is None ==> !has_contract(self.contracts@, *id),
    {
        let mut i: usize = 0;
        while i < self.contracts.len()
            invariant
                i <= self.contracts@.len(),
                forall|j: int| 0 <= j < i ==> !same_contract((#[trigger] self.contracts@[j]).0, *id),
            decreases self.contracts@.len() - i,
        {
            if same_contract_exec(&self.contracts[i].0, id) {
                return Some(i);
            }
            i = i + 1;
        }
        None
    }

    /// Saves a contract's maps; a contract is saved once.
    pub fn insert_contract(&mut self, id: QualifiedContractIdentifier, maps: MapTypes) -> (r: Result<(), CheckErrors>)
        requires
            old(self).wf(),
            maps.wf(),
        ensures
            final(self).wf(),
            has_contract(old(self).entries(), id) ==> r == Err::<(), CheckErrors>(CheckErrors::ContractAlreadyExists)
                && final(self).entries() == old(self).entries(),
            !has_contract(old(self).entries(), id) ==> r is Ok && final(self).entries() == old(self).entries().push((id, maps)),
    {
        if let Some(_) = self.find(&id) {
            return Err(CheckErrors::ContractAlreadyExists);
        }
        let ghost before = self.contracts@;
        self.contracts.push((id, maps));
        proof {
            assert forall|i: int| 0 <= i < self.entries().len() implies (#[trigger] self.entries()[i]).1.wf() by {
                if i < before.len() {
                    assert(self.contracts@[i] == before[i]);
                    assert(old(self).entries()[i].1.wf());
                }
            }
            assert forall|i: int, j: int| 0 <= i < j < self.entries().len() implies !same_contract((#[trigger] self.entries()[i]).0, (#[trigger] self.entries()[j]).0) by {
                assert(self.contracts@[i] == before[i]);
                if j < before.len() {
                    assert(self.contracts@[j] == before[j]);
                    assert(!same_contract(old(self).entries()[i].0, old(self).entries()[j].0));
                } else {
                    assert(!same_contract(old(self).entries()[i].0, id));
                }
            }
        }
        Ok(())
    }
}

/// Whether `r` is what looking up map `name` among `ms` with a key of type
/// `key_type` gives: `NoSuchMap` when it is not declared, else
/// `(optional value-type)` when its key type admits `key_type`, else a type
/// error naming the key type and `key_type`.
pub open spec fn fetch_outcome(
    ms: Seq<(ClarityName, TypeSignature, TypeSignature)>,
    name: Seq<u8>,
    key_type: TypeSignature,
    r: Result<TypeSignature, CheckErrors>,
) -> bool {
    if !has_map(ms, name) {
        r is Err && r->Err_0 is NoSuchMap
    } else {
        forall|i: int| 0 <= i < ms.len() && (#[trigger] ms[i]).0@ == name ==> if admits_type_spec(ms[i].1, key_type) {
            r is Ok && r->Ok_0 is OptionalType && same_type(ms[i].2, *r->Ok_0->OptionalType_0)
        } else {
            r is Err && r->Err_0 is TypeError && r->Err_0->TypeError_1 == key_type && same_type(ms[i].1, r->Err_0->TypeError_0)
        }
    }
}

/// The contract named by the first argument, when it is a literal contract principal.
pub open spec fn contract_arg(args: Seq<SymbolicExpression>) -> Option<QualifiedContractIdentifier> {
    match args[0].expr {
        SymbolicExpressionType::LiteralValue(Value::Principal(PrincipalData::Contract(c))) => Some(c),
        _ => None,
    }
}

/// `(fetch-contract-entry .contract map key)`: like `fetch-entry`, on a map
/// of another contract whose analysis is saved in `db`.
pub fn check_special_fetch_contract_entry(
    args: &Vec<SymbolicExpression>,
    key_type: TypeSignature,
    db: &AnalysisDatabase,
) -> (r: Result<TypeSignature, CheckErrors>)
    requires
        db.wf(),
    ensures
        args@.len() < 3 ==> r == Err::<TypeSignature, CheckErrors>(CheckErrors::RequiresAtLeastArguments(3, args@.len() as usize)),
        args@.len() >= 3 && contract_arg(args@) is None ==> r == Err::<TypeSignature, CheckErrors>(CheckErrors::ContractCallExpectName),
        args@.len() >= 3 && contract_arg(args@) is Some && map_arg(args@.drop_first()) is None ==> r == Err::<TypeSignature, CheckErrors>(CheckErrors::BadMapName),
        args@.len() >= 3 && contract_arg(args@) is Some && map_arg(args@.drop_first()) is Some && !has_contract(db.entries(), contract_arg(args@)->Some_0)
            ==> r == Err::<TypeSignature, CheckErrors>(CheckErrors::NoSuchContract),
        r matches Ok(t) ==> exists|c: int, i: int| 0 <= c < db.entries().len() && same_contract(db.entries()[c].0, contract_arg(args@)->Some_0)
            && 0 <= i < db.entries()[c].1.entries().len()
            && map_arg(args@.drop_first()) == Some(db.entries()[c].1.entries()[i].0@)
            && admits_type_spec(db.entries()[c].1.entries()[i].1, key_type)
            && (t matches TypeSignature::OptionalType(v) && same_type(db.entries()[c].1.entries()[i].2, *v)),
        args@.len() >= 3 && contract_arg(args@) is Some && map_arg(args@.drop_first()) is Some ==> forall|c: int|
            0 <= c < db.entries().len() && same_contract((#[trigger] db.entries()[c]).0, contract_arg(args@)->Some_0)
                ==> fetch_outcome(db.entries()[c].1.entries(), map_arg(args@.drop_first())->Some_0, key_type, r),
{
    if args.len() < 3 {
        return Err(CheckErrors::RequiresAtLeastArguments(3, args.len()));
    }
    let contract = match &args[0].expr {
        SymbolicExpressionType::LiteralValue(Value::Principal(PrincipalData::Contract(c))) => c,
        _ => return Err(CheckErrors::ContractCallExpectName),
    };
    let map_name = match &args[1].expr {
        SymbolicExpressionType::Atom(n) => n,
        _ => {
            assert(args@.drop_first()[0] == args@[1]);
            return Err(CheckErrors::BadMapName);
        },
    };
    assert(args@.drop_first()[0] == args@[1]);
    let c = match db.find(contract) {
        Some(c) => c,
        None => return Err(CheckErrors::NoSuchContract),
    };
    let maps = &db.contracts[c].1;
    assert(db.entries()[c as int].1.wf());
    assert(maps.wf());
    assert(contract_arg(args@) == Some(*contract));
    assert(map_arg(args@.drop_first()) == Some(map_name@));
    proof {
        assert forall|c2: int| 0 <= c2 < db.entries().len() && same_contract((#[trigger] db.entries()[c2]).0, *contract) implies c2 == c by {
            if c2 < c {
                assert(!same_contract(db.contracts@[c2].0, db.contracts@[c as int].0));
            } else if c2 > c {
                assert(!same_contract(db.contracts@[c as int].0, db.contracts@[c2].0));
            }
        }
    }
    let i = match maps.find(map_name.as_bytes()) {
        Some(i) => i,
        None => return Err(CheckErrors::NoSuchMap(crate::names::slice_to_vec(map_name.as_bytes()))),
    };
    proof {
        assert forall|i2: int| 0 <= i2 < maps.entries().len() && (#[trigger] maps.entries()[i2]).0@ == map_name@ implies i2 == i by {
            if i2 < i {
                assert(maps.maps@[i2].0@ != maps.maps@[i as int].0@);
            } else if i2 > i {
                assert(maps.maps@[i as int].0@ != maps.maps@[i2].0@);
            }
        }
    }
    let (_, expected_key, value) = &maps.maps[i];
    if expected_key.admits_type(&key_type) {
        let r = TypeSignature::OptionalType(Box::new(value.duplicate()));
        proof {
            assert(contract_arg(args@) == Some(*contract));
            assert(db.entries()[c as int].1 == *maps);
            assert(map_arg(args@.drop_first()) == Some(maps.entries()[i as int].0@));
            assert(same_contract(db.entries()[c as int].0, contract_arg(args@)->Some_0));
        }
        Ok(r)
    } else {
        Err(CheckErrors::TypeError(expected_key.duplicate(), key_type))
    }
}

} // verus!
