//! The value model: principals, contract and trait identifiers, and values
//! whose constructors keep every value within the size and depth limits.
use vstd::prelude::*;
use crate::names::{copy_range, slice_to_vec, is_alnum, is_clarity_name, is_contract_name, transient_name, ClarityName, ContractName};
use vstd::string::{StringExecFns, StringSliceAdditionalSpecFns};

verus! {

broadcast use vstd::std_specs::vec::axiom_vec_index_decreases;

/// Largest accepted size of a value.
pub const MAX_VALUE_SIZE: u64 = 1048576;

/// Deepest accepted nesting of a value's type.
pub const MAX_TYPE_DEPTH: u64 = 32;

/// What a wrapper (`some`, `ok`, `err`) adds to the size of what it wraps.
pub const WRAPPER_VALUE_SIZE: u64 = 1;

/// Size charged for a principal: version, hash, name length, longest name.
pub const PRINCIPAL_SIZE: u64 = 150;

/// Size charged for an integer of either sign.
pub const INT_SIZE: u64 = 16;

/// Size charged on top of a list's items for its length.
pub const LENGTH_PREFIX_SIZE: u64 = 4;

/// A standard principal: a version byte and a 20-byte hash.
#[derive(Debug, Clone, Copy, PartialEq, Eq, Hash, PartialOrd, Ord)]
pub struct StandardPrincipalData(pub u8, pub [u8; 20]);

impl StandardPrincipalData {
    /// The issuer of throw-away contracts: version 1, every hash byte 1.
    pub fn transient() -> (r: StandardPrincipalData)
        ensures
            r.0 == 1,
            r.1@ == Seq::new(20, |i: int| 1u8),
    {
        let r = StandardPrincipalData(1, [1, 1, 1, 1, 1, 1, 1, 1, 1, 1, 1, 1, 1, 1, 1, 1, 1, 1, 1, 1]);
        assert(r.1@ =~= Seq::new(20, |i: int| 1u8));
        r
    }
}

/// A contract: the principal that published it and its name.
#[derive(Debug, PartialEq, Eq, Hash, PartialOrd, Ord)]
pub struct QualifiedContractIdentifier {
    pub issuer: StandardPrincipalData,
    pub name: ContractName,
}

impl QualifiedContractIdentifier {
    pub fn duplicate(&self) -> (r: QualifiedContractIdentifier)
        ensures
            r.issuer == self.issuer,
            r.name@ == self.name@,
    {
        QualifiedContractIdentifier { issuer: self.issuer, name: self.name.duplicate() }
    }

    pub fn new(issuer: StandardPrincipalData, name: ContractName) -> (r: QualifiedContractIdentifier)
        ensures
            r.issuer == issuer,
            r.name == name,
    {
        QualifiedContractIdentifier { issuer, name }
    }

    /// A contract named `name` under the transient issuer; `None` when the
    /// name is not a valid contract name.
    pub fn local(name: &str) -> (r: Option<QualifiedContractIdentifier>)
        ensures
            r is Some <==> is_contract_name(name.spec_bytes()),
            r matches Some(id) ==> id.name@ == name.spec_bytes() && id.issuer.0 == 1
                && id.issuer.1@ == Seq::new(20, |i: int| 1u8),
    {
        match ContractName::parse(name) {
            Some(n) => Some(Self::new(StandardPrincipalData::transient(), n)),
            None => None,
        }
    }

    /// The contract `__transient` under the transient issuer.
    pub fn transient() -> (r: QualifiedContractIdentifier)
        ensures
            r.name@ == transient_name(),
            r.issuer.0 == 1,
            r.issuer.1@ == Seq::new(20, |i: int| 1u8),
    {
        QualifiedContractIdentifier { issuer: StandardPrincipalData::transient(), name: ContractName::transient() }
    }
}

/// Who may hold assets: a standard principal or a contract.
#[derive(Debug, PartialEq, Eq, Hash)]
pub enum PrincipalData {
    Standard(StandardPrincipalData),
    Contract(QualifiedContractIdentifier),
}

/// A contract named on its own (issued by the current publisher) or in full.
#[derive(Debug, PartialEq, Eq)]
pub enum ContractIdentifier {
    Relative(ContractName),
    Qualified(QualifiedContractIdentifier),
}

/// A trait, named inside the contract that defines it.
#[derive(Debug, PartialEq, Eq, Hash, PartialOrd, Ord)]
pub struct TraitIdentifier {
    pub name: ClarityName,
    pub contract_identifier: QualifiedContractIdentifier,
}

impl TraitIdentifier {
    pub fn new(issuer: StandardPrincipalData, contract_name: ContractName, name: ClarityName) -> (r: TraitIdentifier)
        ensures
            r.name == name,
            r.contract_identifier.issuer == issuer,
            r.contract_identifier.name == contract_name,
    {
        TraitIdentifier { name, contract_identifier: QualifiedContractIdentifier { issuer, name: contract_name } }
    }
}

#[derive(Debug, PartialEq, Eq)]
pub struct BuffData {
    pub data: Vec<u8>,
}

impl BuffData {
    pub fn len(&self) -> (r: usize)
        ensures
            r == self.data@.len(),
    {
        self.data.len()
    }
}

/// A list, with the size and depth of its type worked out when it was built.
#[derive(Debug, PartialEq, Eq)]
pub struct ListData {
    pub data: Vec<Value>,
    pub size: u64,
    pub depth: u64,
    /// The type every item has: their least supertype, or the type given.
    pub item_type: TypeSignature,
}

impl ListData {
    pub open spec fn item_type(&self) -> TypeSignature {
        self.item_type
    }

    pub open spec fn items(&self) -> Seq<Value> {
        self.data@
    }

    pub open spec fn spec_size(&self) -> nat {
        self.size as nat
    }

    pub open spec fn spec_depth(&self) -> nat {
        self.depth as nat
    }

    pub fn len(&self) -> (r: usize)
        ensures
            r == self.items().len(),
    {
        self.data.len()
    }

    pub fn items_ref(&self) -> (r: &Vec<Value>)
        ensures
            r@ == self.items(),
    {
        &self.data
    }
}

/// A tuple: fields in increasing order of name, no name twice.
#[derive(Debug, PartialEq, Eq)]
pub struct TupleData {
    pub data_map: Vec<(ClarityName, Value)>,
    pub size: u64,
    pub depth: u64,
}

#[derive(Debug, PartialEq, Eq)]
pub struct OptionalData {
    pub data: Option<Box<Value>>,
}

#[derive(Debug, PartialEq, Eq)]
pub struct ResponseData {
    pub committed: bool,
    pub data: Box<Value>,
}

#[derive(Debug, PartialEq, Eq)]
pub enum Value {
    Int(i128),
    UInt(u128),
    Bool(bool),
    Buffer(BuffData),
    List(ListData),
    Principal(PrincipalData),
    Tuple(TupleData),
    Optional(OptionalData),
    Response(ResponseData),
}

/// Why a value could not be built.
#[derive(Debug, PartialEq, Eq)]
pub enum ValueError {
    ValueTooLarge,
    TypeSignatureTooDeep,
    /// A tuple field name given twice.
    NameAlreadyUsed(Vec<u8>),
    NoSuchTupleField,
    EmptyTuplesNotAllowed,
    /// The items of a list have no common type.
    NoCommonType,
}

impl TupleData {
    pub open spec fn fields(&self) -> Seq<(ClarityName, Value)> {
        self.data_map@
    }

    pub open spec fn spec_size(&self) -> nat {
        self.size as nat
    }

    pub open spec fn spec_depth(&self) -> nat {
        self.depth as nat
    }

    pub fn len(&self) -> (r: usize)
        ensures
            r == self.fields().len(),
    {
        self.data_map.len()
    }
}

/// The size of a value's type.
pub open spec fn size_of(v: Value) -> nat
    decreases v,
{
    match v {
        Value::Int(_) => INT_SIZE as nat,
        Value::UInt(_) => INT_SIZE as nat,
        Value::Bool(_) => 1,
        Value::Buffer(b) => b.data@.len(),
        Value::Principal(_) => PRINCIPAL_SIZE as nat,
        Value::List(l) => l.spec_size(),
        Value::Tuple(t) => t.spec_size(),
        Value::Optional(o) => match o.data {
            Some(x) => (size_of(*x) + WRAPPER_VALUE_SIZE) as nat,
            None => WRAPPER_VALUE_SIZE as nat,
        },
        Value::Response(r) => (size_of(*r.data) + WRAPPER_VALUE_SIZE) as nat,
    }
}

/// How deeply a value's type nests.
pub open spec fn depth_of(v: Value) -> nat
    decreases v,
{
    match v {
        Value::List(l) => l.spec_depth(),
        Value::Tuple(t) => t.spec_depth(),
        Value::Optional(o) => match o.data {
            Some(x) => depth_of(*x) + 1,
            None => 2,
        },
        Value::Response(r) => depth_of(*r.data) + 1,
        _ => 1,
    }
}

/// Within the limits that every constructed value keeps.
pub open spec fn within_limits(v: Value) -> bool {
    size_of(v) <= MAX_VALUE_SIZE && depth_of(v) <= MAX_TYPE_DEPTH
}

/// What the wrappers `some`, `okay` and `error` return for `data`.
pub open spec fn wrap_result(data: Value, wrapped: Value) -> Result<Value, ValueError> {
    if size_of(data) + WRAPPER_VALUE_SIZE > MAX_VALUE_SIZE {
        Err(ValueError::ValueTooLarge)
    } else if depth_of(data) + 1 > MAX_TYPE_DEPTH {
        Err(ValueError::TypeSignatureTooDeep)
    } else {
        Ok(wrapped)
    }
}

pub open spec fn seq_size(vs: Seq<Value>) -> nat
    decreases vs.len(),
{
    if vs.len() == 0 {
        0
    } else {
        seq_size(vs.drop_last()) + size_of(vs.last())
    }
}

pub open spec fn seq_depth(vs: Seq<Value>) -> nat
    decreases vs.len(),
{
    if vs.len() == 0 {
        0
    } else {
        let d = seq_depth(vs.drop_last());
        if depth_of(vs.last()) > d { depth_of(vs.last()) } else { d }
    }
}

/// The size of a list holding `vs`.
pub open spec fn list_size(vs: Seq<Value>) -> nat {
    (LENGTH_PREFIX_SIZE + seq_size(vs)) as nat
}

/// The depth of a list holding `vs`: one more than its deepest item.
pub open spec fn list_depth(vs: Seq<Value>) -> nat {
    1 + seq_depth(vs)
}

impl Value {
    /// `min(size_of(self), u64::MAX)`.
    pub fn size(&self) -> (r: u64)
        ensures
            r as nat == if size_of(*self) > u64::MAX { u64::MAX as nat } else { size_of(*self) },
        decreases *self,
    {
        match self {
            Value::Int(_) => INT_SIZE,
            Value::UInt(_) => INT_SIZE,
            Value::Bool(_) => 1,
            Value::Buffer(b) => b.data.len() as u64,
            Value::Principal(_) => PRINCIPAL_SIZE,
            Value::List(l) => l.size,
            Value::Tuple(t) => t.size,
            Value::Optional(o) => match &o.data {
                Some(x) => x.size().saturating_add(WRAPPER_VALUE_SIZE),
                None => WRAPPER_VALUE_SIZE,
            },
            Value::Response(d) => d.data.size().saturating_add(WRAPPER_VALUE_SIZE),
        }
    }

    /// `min(depth_of(self), u64::MAX)`.
    pub fn depth(&self) -> (r: u64)
        ensures
            r as nat == if depth_of(*self) > u64::MAX { u64::MAX as nat } else { depth_of(*self) },
        decreases *self,
    {
        match self {
            Value::List(l) => l.depth,
            Value::Tuple(t) => t.depth,
            Value::Optional(o) => match &o.data {
                Some(x) => x.depth().saturating_add(1),
                None => 2,
            },
            Value::Response(d) => d.data.depth().saturating_add(1),
            _ => 1,
        }
    }

    fn check_wrappable(data: &Value) -> (r: Result<(), ValueError>)
        ensures
            r is Ok <==> size_of(*data) + WRAPPER_VALUE_SIZE <= MAX_VALUE_SIZE && depth_of(*data) + 1
                <= MAX_TYPE_DEPTH,
            r matches Err(e) ==> e == if size_of(*data) + WRAPPER_VALUE_SIZE > MAX_VALUE_SIZE {
                ValueError::ValueTooLarge
            } else {
                ValueError::TypeSignatureTooDeep
            },
    {
        let s = data.size();
        if s >= MAX_VALUE_SIZE {
            Err(ValueError::ValueTooLarge)
        } else if data.depth() >= MAX_TYPE_DEPTH {
            Err(ValueError::TypeSignatureTooDeep)
        } else {
            Ok(())
        }
    }

    /// `(some data)`, unless that would exceed the limits.
    pub fn some(data: Value) -> (r: Result<Value, ValueError>)
        ensures
            r == wrap_result(data, Value::Optional(OptionalData { data: Some(Box::new(data)) })),
            r matches Ok(v) ==> within_limits(v),
            r matches Ok(v) ==> size_of(v) == size_of(data) + WRAPPER_VALUE_SIZE && depth_of(v)
                == depth_of(data) + 1,
    {
        match Self::check_wrappable(&data) {
            Err(e) => Err(e),
            Ok(()) => Ok(Value::Optional(OptionalData { data: Some(Box::new(data)) })),
        }
    }

    /// `none`.
    pub fn none() -> (r: Value)
        ensures
            r == Value::Optional(OptionalData { data: None }),
            within_limits(r),
    {
        Value::Optional(OptionalData { data: None })
    }

    /// `(ok true)`.
    pub fn okay_true() -> (r: Value)
        ensures
            r == Value::Response(ResponseData { committed: true, data: Box::new(Value::Bool(true)) }),
            within_limits(r),
    {
        let r = Value::Response(ResponseData { committed: true, data: Box::new(Value::Bool(true)) });
        assert(size_of(Value::Bool(true)) == 1 && depth_of(Value::Bool(true)) == 1);
        r
    }

    /// `(err ecode)` with an unsigned code.
    pub fn err_uint(ecode: u128) -> (r: Value)
        ensures
            r == Value::Response(ResponseData { committed: false, data: Box::new(Value::UInt(ecode)) }),
            within_limits(r),
    {
        let r = Value::Response(ResponseData { committed: false, data: Box::new(Value::UInt(ecode)) });
        assert(size_of(Value::UInt(ecode)) == INT_SIZE && depth_of(Value::UInt(ecode)) == 1);
        r
    }

    /// `(ok data)`, unless that would exceed the limits.
    pub fn okay(data: Value) -> (r: Result<Value, ValueError>)
        ensures
            r == wrap_result(data, Value::Response(ResponseData { committed: true, data: Box::new(data) })),
            r matches Ok(v) ==> within_limits(v),
            r matches Ok(v) ==> size_of(v) == size_of(data) + WRAPPER_VALUE_SIZE && depth_of(v)
                == depth_of(data) + 1,
    {
        match Self::check_wrappable(&data) {
            Err(e) => Err(e),
            Ok(()) => Ok(Value::Response(ResponseData { committed: true, data: Box::new(data) })),
        }
    }

    /// `(err data)`, unless that would exceed the limits.
    pub fn error(data: Value) -> (r: Result<Value, ValueError>)
        ensures
            r == wrap_result(data, Value::Response(ResponseData { committed: false, data: Box::new(data) })),
            r matches Ok(v) ==> within_limits(v),
            r matches Ok(v) ==> size_of(v) == size_of(data) + WRAPPER_VALUE_SIZE && depth_of(v)
                == depth_of(data) + 1,
    {
        match Self::check_wrappable(&data) {
            Err(e) => Err(e),
            Ok(()) => Ok(Value::Response(ResponseData { committed: false, data: Box::new(data) })),
        }
    }

    /// A buffer holding `buff_data`, unless it is longer than the size limit.
    pub fn buff_from(buff_data: Vec<u8>) -> (r: Result<Value, ValueError>)
        ensures
            buff_data@.len() <= MAX_VALUE_SIZE ==> r == Ok::<Value, ValueError>(
                Value::Buffer(BuffData { data: buff_data }),
            ),
            buff_data@.len() > MAX_VALUE_SIZE ==> r == Err::<Value, ValueError>(ValueError::ValueTooLarge),
            r matches Ok(v) ==> within_limits(v),
    {
        if buff_data.len() as u64 > MAX_VALUE_SIZE {
            Err(ValueError::ValueTooLarge)
        } else {
            Ok(Value::Buffer(BuffData { data: buff_data }))
        }
    }

    /// A buffer holding the one byte `byte`.
    pub fn buff_from_byte(byte: u8) -> (r: Value)
        ensures
            r matches Value::Buffer(b) && b.data@ == seq![byte],
            within_limits(r),
    {
        Value::Buffer(BuffData { data: vec![byte] })
    }

    /// The size and depth of a list holding `list_data`, unless its type
    /// would exceed the limits.
    fn measure_list(list_data: &Vec<Value>) -> (r: Result<(u64, u64), ValueError>)
        ensures
            list_size(list_data@) > MAX_VALUE_SIZE ==> r == Err::<(u64, u64), ValueError>(ValueError::ValueTooLarge),
            list_size(list_data@) <= MAX_VALUE_SIZE && list_depth(list_data@) > MAX_TYPE_DEPTH ==> r
                == Err::<(u64, u64), ValueError>(ValueError::TypeSignatureTooDeep),
            r is Ok <==> list_size(list_data@) <= MAX_VALUE_SIZE && list_depth(list_data@) <= MAX_TYPE_DEPTH,
            r matches Ok((sz, d)) ==> sz == list_size(list_data@) && d == list_depth(list_data@),
    {
        let mut size: u64 = LENGTH_PREFIX_SIZE;
        let mut depth: u64 = 0;
        let mut i: usize = 0;
        while i < list_data.len()
            invariant
                i <= list_data@.len(),
                size as nat == LENGTH_PREFIX_SIZE + seq_size(list_data@.subrange(0, i as int)),
                size <= MAX_VALUE_SIZE,
                depth as nat == seq_depth(list_data@.subrange(0, i as int)),
                depth < MAX_TYPE_DEPTH,
            decreases list_data@.len() - i,
        {
            let ghost pre = list_data@.subrange(0, i as int);
            let ghost next = list_data@.subrange(0, i as int + 1);
            assert(next.drop_last() =~= pre);
            assert(next.last() == list_data@[i as int]);
            let s = list_data[i].size();
            let d = list_data[i].depth();
            if s > MAX_VALUE_SIZE - size {
                proof { lemma_seq_size_grows(list_data@, i as int + 1); }
                return Err(ValueError::ValueTooLarge);
            }
            size = size + s;
            if d >= MAX_TYPE_DEPTH {
                proof {
                    lemma_seq_depth_grows(list_data@, i as int + 1);
                    let j = i as int + 1;
                    if list_size(list_data@) > MAX_VALUE_SIZE {
                    }
                }
                if !Self::rest_fits(list_data, i + 1, size) {
                    return Err(ValueError::ValueTooLarge);
                }
                return Err(ValueError::TypeSignatureTooDeep);
            }
            if d > depth {
                depth = d;
            }
            i = i + 1;
        }
        assert(list_data@.subrange(0, list_data@.len() as int) =~= list_data@);
        Ok((size, depth + 1))
    }

    /// A list of `list_data`: its items must have a common type (their
    /// least supertype, `join_all`), and that type must keep within the
    /// limits.
    pub fn list_from(list_data: Vec<Value>) -> (r: Result<Value, ValueError>)
        ensures
            join_all(list_data@, list_data@.len() as int) is None ==> r == Err::<Value, ValueError>(ValueError::NoCommonType),
            join_all(list_data@, list_data@.len() as int) is Some && list_size(list_data@) > MAX_VALUE_SIZE ==> r
                == Err::<Value, ValueError>(ValueError::ValueTooLarge),
            join_all(list_data@, list_data@.len() as int) is Some && list_size(list_data@) <= MAX_VALUE_SIZE
                && list_depth(list_data@) > MAX_TYPE_DEPTH ==> r == Err::<Value, ValueError>(ValueError::TypeSignatureTooDeep),
            r is Ok <==> join_all(list_data@, list_data@.len() as int) is Some && list_size(list_data@) <= MAX_VALUE_SIZE
                && list_depth(list_data@) <= MAX_TYPE_DEPTH,
            r matches Ok(v) ==> v matches Value::List(l) && l.items() == list_data@ && size_of(v)
                == list_size(list_data@) && depth_of(v) == list_depth(list_data@)
                && type_view(l.item_type()) == join_all(list_data@, list_data@.len() as int)->Some_0,
            r matches Ok(v) ==> within_limits(v),
    {
        let item_type = match Self::common_type(&list_data) {
            Some(t) => t,
            None => return Err(ValueError::NoCommonType),
        };
        match Self::measure_list(&list_data) {
            Ok((size, depth)) => Ok(Value::List(ListData { data: list_data, size, depth, item_type })),
            Err(e) => Err(e),
        }
    }

    /// The least supertype of the items' types, if they have one.
    #[verifier::loop_isolation(false)]
    fn common_type(list_data: &Vec<Value>) -> (r: Option<TypeSignature>)
        ensures
            match join_all(list_data@, list_data@.len() as int) {
                Some(c) => r matches Some(t) && type_view(t) == c,
                None => r is None,
            },
    {
        let mut acc = TypeSignature::NoType;
        let mut i: usize = 0;
        while i < list_data.len()
            invariant
                i <= list_data@.len(),
                join_all(list_data@, i as int) == Some(type_view(acc)),
            decreases list_data@.len() - i,
        {
            let t = type_of(&list_data[i]);
            match join_types(&acc, &t) {
                Some(j) => {
                    acc = j;
                },
                None => {
                    proof { lemma_join_all_none(list_data@, i as int + 1, list_data@.len() as int); }
                    return None;
                },
            }
            i = i + 1;
        }
        Some(acc)
    }

    /// Whether the items from `i` on still fit beside `size` already counted.
    fn rest_fits(list_data: &Vec<Value>, i: usize, size: u64) -> (r: bool)
        requires
            i <= list_data@.len(),
            size as nat == LENGTH_PREFIX_SIZE + seq_size(list_data@.subrange(0, i as int)),
            size <= MAX_VALUE_SIZE,
        ensures
            r <==> list_size(list_data@) <= MAX_VALUE_SIZE,
    {
        let mut size = size;
        let mut k: usize = i;
        while k < list_data.len()
            invariant
                i <= k <= list_data@.len(),
                size as nat == LENGTH_PREFIX_SIZE + seq_size(list_data@.subrange(0, k as int)),
                size <= MAX_VALUE_SIZE,
            decreases list_data@.len() - k,
        {
            let ghost next = list_data@.subrange(0, k as int + 1);
            assert(next.drop_last() =~= list_data@.subrange(0, k as int));
            let s = list_data[k].size();
            if s > MAX_VALUE_SIZE - size {
                proof { lemma_seq_size_grows(list_data@, k as int + 1); }
                return false;
            }
            size = size + s;
            k = k + 1;
        }
        assert(list_data@.subrange(0, list_data@.len() as int) =~= list_data@);
        true
    }
}

/// A prefix of a sequence never has a larger total size.
pub proof fn lemma_seq_size_grows(vs: Seq<Value>, j: int)
    requires
        0 <= j <= vs.len(),
    ensures
        seq_size(vs.subrange(0, j)) <= seq_size(vs),
    decreases vs.len() - j,
{
    if j < vs.len() {
        lemma_seq_size_grows(vs, j + 1);
        assert(vs.subrange(0, j + 1).drop_last() =~= vs.subrange(0, j));
    } else {
        assert(vs.subrange(0, j) =~= vs);
    }
}

/// A prefix of a sequence never has a deeper item.
pub proof fn lemma_seq_depth_grows(vs: Seq<Value>, j: int)
    requires
        0 <= j <= vs.len(),
    ensures
        seq_depth(vs.subrange(0, j)) <= seq_depth(vs),
    decreases vs.len() - j,
{
    if j < vs.len() {
        lemma_seq_depth_grows(vs, j + 1);
        assert(vs.subrange(0, j + 1).drop_last() =~= vs.subrange(0, j));
    } else {
        assert(vs.subrange(0, j) =~= vs);
    }
}


/// The version and payload bytes of an `S`-prefixed c32check address, or
/// `None` when it does not decode or its checksum does not match.
pub uninterp spec fn c32_address_decoded(b: Seq<u8>) -> Option<(Seq<u8>, u8)>;

/// Relies on c32::decode_check_prefixed with prefix `S`: decodes an address
/// and checks its checksum; a version it returns is below 32.
#[verifier::external_body]
pub(crate) fn c32_address_decode(b: &[u8]) -> (r: Option<(Vec<u8>, u8)>)
    requires
        b@.len() >= 10,
    ensures
        r matches Some((d, v)) ==> c32_address_decoded(b@) == Some((d@, v)) && v < 32,
        r is None ==> c32_address_decoded(b@) is None,
{
    match std::str::from_utf8(b) {
        Ok(text) => c32::decode_check_prefixed(text, 'S').ok(),
        Err(_) => None,
    }
}

/// The c32check address text of a version and payload, `S`-prefixed.
pub uninterp spec fn c32_address_encoded(data: Seq<u8>, version: u8) -> Seq<char>;

/// Relies on c32::encode_check_prefixed with prefix `S`, which fails only on
/// a version of 32 or more.
#[verifier::external_body]
pub(crate) fn c32_address_encode(data: &[u8], version: u8) -> (r: String)
    requires
        version < 32,
    ensures
        r@ == c32_address_encoded(data@, version),
{
    c32::encode_check_prefixed(data, 'S', version).unwrap_or_default()
}

/// The text of `a` followed by that of `b`.
pub(crate) fn append_text(a: String, b: &str) -> (r: String)
    ensures
        r@ == a@ + b@,
{
    a.concat(b)
}

/// Relies on String::from_utf8: ASCII bytes read as the characters they code.
#[verifier::external_body]
pub(crate) fn ascii_to_string(b: &[u8]) -> (r: String)
    requires
        forall|i: int| 0 <= i < b@.len() ==> b@[i] < 128,
    ensures
        r@ == Seq::new(b@.len(), |i: int| b@[i] as char),
{
    String::from_utf8(b.to_vec()).unwrap_or_default()
}

/// Whether `t` is the text of a standard principal.
pub open spec fn principal_text_ok(t: Seq<u8>) -> bool {
    c32_address_decoded(t) matches Some((d, v)) && d.len() == 20
}

/// Whether `p` is the standard principal that `t` spells.
pub open spec fn is_principal_of(t: Seq<u8>, p: StandardPrincipalData) -> bool {
    c32_address_decoded(t) == Some((p.1@, p.0))
}

/// The standard principal spelled by the address `b` (without its quote).
pub fn parse_standard_principal_bytes(b: &[u8]) -> (r: Option<StandardPrincipalData>)
    ensures
        r is Some <==> b@.len() >= 10 && principal_text_ok(b@),
        r matches Some(p) ==> is_principal_of(b@, p),
{
    if b.len() < 10 {
        return None;
    }
    match c32_address_decode(b) {
        Some((d, v)) => {
            if d.len() != 20 {
                return None;
            }
            let h: [u8; 20] = [
                d[0], d[1], d[2], d[3], d[4], d[5], d[6], d[7], d[8], d[9], d[10], d[11], d[12],
                d[13], d[14], d[15], d[16], d[17], d[18], d[19],
            ];
            assert(h@ =~= d@);
            Some(StandardPrincipalData(v, h))
        },
        None => None,
    }
}

impl PrincipalData {
    /// The standard principal spelled by `literal`.
    pub fn parse_standard_principal(literal: &str) -> (r: Option<StandardPrincipalData>)
        ensures
            r is Some <==> literal.spec_bytes().len() >= 10 && principal_text_ok(literal.spec_bytes()),
            r matches Some(p) ==> is_principal_of(literal.spec_bytes(), p),
    {
        parse_standard_principal_bytes(literal.as_bytes())
    }

    /// The principal as source text: `'ADDRESS` or `'ADDRESS.contract`.
    pub fn to_string(&self) -> (r: String)
        ensures
            r@ == principal_text(*self),
    {
        let q = "'";
        proof { reveal_strlit("'"); }
        match self {
            PrincipalData::Standard(p) => crate::types::append_text(q.to_owned(), p.to_address().as_str()),
            PrincipalData::Contract(c) => {
                let a = crate::types::append_text(q.to_owned(), c.issuer.to_address().as_str());
                let dot = ".";
                proof { reveal_strlit("."); }
                let a = crate::types::append_text(a, dot);
                proof {
                    use_type_invariant(&c.name);
                    c.name.lemma_valid();
                    lemma_contract_name_ascii(c.name@);
                }
                let n = ascii_to_string(c.name.as_bytes());
                crate::types::append_text(a, n.as_str())
            },
        }
    }
}

/// The characters that ASCII bytes code.
pub open spec fn ascii_chars(b: Seq<u8>) -> Seq<char> {
    Seq::new(b.len(), |i: int| b[i] as char)
}

proof fn lemma_contract_name_ascii(b: Seq<u8>)
    requires
        is_contract_name(b),
    ensures
        forall|i: int| 0 <= i < b.len() ==> b[i] < 128,
{
    assert forall|i: int| 0 <= i < b.len() implies b[i] < 128 by {
        if b == transient_name() {
        } else {
            if i > 0 {
                assert(is_alnum(b[i]) || b[i] == 45 || b[i] == 95);
            }
        }
    }
}

impl StandardPrincipalData {
    /// The c32check address of this principal, or `INVALID_C32_ADD` when its
    /// version is 32 or more.
    pub fn to_address(&self) -> (r: String)
        ensures
            r@ == address_text(*self),
    {
        if self.0 < 32 {
            c32_address_encode(&self.1, self.0)
        } else {
            proof { reveal_strlit("INVALID_C32_ADD"); }
            "INVALID_C32_ADD".to_owned()
        }
    }
}


/// Byte-wise lexicographic order: the order of tuple field names.
pub open spec fn bytes_lt(a: Seq<u8>, b: Seq<u8>) -> bool
    decreases a.len(),
{
    if a.len() == 0 {
        b.len() > 0
    } else if b.len() == 0 {
        false
    } else if a[0] != b[0] {
        a[0] < b[0]
    } else {
        bytes_lt(a.drop_first(), b.drop_first())
    }
}

proof fn lemma_bytes_lt_total(a: Seq<u8>, b: Seq<u8>)
    ensures
        a != b ==> bytes_lt(a, b) || bytes_lt(b, a),
        !(bytes_lt(a, b) && bytes_lt(b, a)),
        !bytes_lt(a, a),
    decreases a.len(),
{
    if a.len() > 0 && b.len() > 0 {
        lemma_bytes_lt_total(a.drop_first(), b.drop_first());
        if a[0] == b[0] && a.drop_first() == b.drop_first() {
            assert(a =~= seq![a[0]] + a.drop_first());
            assert(b =~= seq![b[0]] + b.drop_first());
        }
    } else if a.len() > 0 {
    } else if b.len() > 0 {
    } else {
        assert(a =~= b);
    }
    if a.len() > 0 {
        lemma_bytes_lt_total(a.drop_first(), a.drop_first());
    }
}

/// Compares two byte strings: negative, zero or positive as `a` is before,
/// equal to or after `b`.
pub fn compare_bytes(a: &[u8], b: &[u8]) -> (r: i8)
    ensures
        r < 0 <==> bytes_lt(a@, b@),
        r == 0 <==> a@ == b@,
        r > 0 <==> bytes_lt(b@, a@),
{
    proof { lemma_bytes_lt_total(a@, b@); }
    assert(a@.subrange(0, a@.len() as int) =~= a@);
    assert(b@.subrange(0, b@.len() as int) =~= b@);
    let mut i: usize = 0;
    while i < a.len() && i < b.len() && a[i] == b[i]
        invariant
            i <= a@.len(),
            i <= b@.len(),
            a@.subrange(0, i as int) == b@.subrange(0, i as int),
            bytes_lt(a@, b@) == bytes_lt(a@.subrange(i as int, a@.len() as int), b@.subrange(i as int, b@.len() as int)),
            bytes_lt(b@, a@) == bytes_lt(b@.subrange(i as int, b@.len() as int), a@.subrange(i as int, a@.len() as int)),
        decreases a@.len() - i,
    {
        let ghost sa = a@.subrange(i as int, a@.len() as int);
        let ghost sb = b@.subrange(i as int, b@.len() as int);
        assert(sa.drop_first() =~= a@.subrange(i + 1, a@.len() as int));
        assert(sb.drop_first() =~= b@.subrange(i + 1, b@.len() as int));
        assert(a@.subrange(0, i + 1) =~= a@.subrange(0, i as int).push(a@[i as int]));
        assert(b@.subrange(0, i + 1) =~= b@.subrange(0, i as int).push(b@[i as int]));
        i = i + 1;
    }
    let ghost sa = a@.subrange(i as int, a@.len() as int);
    let ghost sb = b@.subrange(i as int, b@.len() as int);
    if i < a.len() && i < b.len() {
        if a[i] < b[i] {
            -1
        } else {
            assert(a@[i as int] != b@[i as int]);
            1
        }
    } else if i < b.len() {
        assert(a@ =~= a@.subrange(0, i as int));
        1 - 2
    } else if i < a.len() {
        assert(b@ =~= b@.subrange(0, i as int));
        1
    } else {
        assert(a@ =~= a@.subrange(0, i as int));
        assert(b@ =~= b@.subrange(0, i as int));
        0
    }
}

/// Whether `f` is one of the fields `fs`.
pub open spec fn has_field(fs: Seq<(ClarityName, Value)>, f: (ClarityName, Value)) -> bool {
    exists|j: int| 0 <= j < fs.len() && fs[j] == f
}

/// Whether field names strictly increase along `fs`.
pub open spec fn names_sorted(fs: Seq<(ClarityName, Value)>) -> bool {
    forall|i: int| 0 <= i < fs.len() - 1 ==> bytes_lt(#[trigger] fs[i].0@, fs[i + 1].0@)
}

/// Whether two of `data` share a name.
pub open spec fn has_duplicate_name(data: Seq<(ClarityName, Value)>) -> bool {
    exists|i: int, j: int| 0 <= i < j < data.len() && #[trigger] data[i].0@ == #[trigger] data[j].0@
}

pub open spec fn fields_size(fs: Seq<(ClarityName, Value)>) -> nat
    decreases fs.len(),
{
    if fs.len() == 0 {
        0
    } else {
        fields_size(fs.drop_last()) + fs.last().0@.len() + size_of(fs.last().1)
    }
}

pub open spec fn fields_depth(fs: Seq<(ClarityName, Value)>) -> nat
    decreases fs.len(),
{
    if fs.len() == 0 {
        0
    } else {
        let d = fields_depth(fs.drop_last());
        if depth_of(fs.last().1) > d { depth_of(fs.last().1) } else { d }
    }
}

/// The size of a tuple type with fields `fs`: each name and value.
pub open spec fn tuple_size(fs: Seq<(ClarityName, Value)>) -> nat {
    fields_size(fs)
}

/// The depth of a tuple type: one more than its deepest field.
pub open spec fn tuple_depth(fs: Seq<(ClarityName, Value)>) -> nat {
    1 + fields_depth(fs)
}

proof fn lemma_fields_size_grows(fs: Seq<(ClarityName, Value)>, j: int)
    requires
        0 <= j <= fs.len(),
    ensures
        fields_size(fs.subrange(0, j)) <= fields_size(fs),
        fields_depth(fs.subrange(0, j)) <= fields_depth(fs),
    decreases fs.len() - j,
{
    if j < fs.len() {
        lemma_fields_size_grows(fs, j + 1);
        assert(fs.subrange(0, j + 1).drop_last() =~= fs.subrange(0, j));
    } else {
        assert(fs.subrange(0, j) =~= fs);
    }
}

impl TupleData {
    /// Size and depth of the fields, or the limit they break.
    fn measure(fields: &Vec<(ClarityName, Value)>) -> (r: Result<(u64, u64), ValueError>)
        ensures
            tuple_size(fields@) > MAX_VALUE_SIZE ==> r == Err::<(u64, u64), ValueError>(ValueError::ValueTooLarge),
            tuple_size(fields@) <= MAX_VALUE_SIZE && tuple_depth(fields@) > MAX_TYPE_DEPTH ==> r
                == Err::<(u64, u64), ValueError>(ValueError::TypeSignatureTooDeep),
            r matches Ok((sz, d)) ==> sz == tuple_size(fields@) && d == tuple_depth(fields@)
                && sz <= MAX_VALUE_SIZE && d <= MAX_TYPE_DEPTH,
            r matches Err(e) ==> e == ValueError::ValueTooLarge || e == ValueError::TypeSignatureTooDeep,
            tuple_size(fields@) <= MAX_VALUE_SIZE && tuple_depth(fields@) <= MAX_TYPE_DEPTH ==> r is Ok,
    {
        let mut size: u64 = 0;
        let mut depth: u64 = 0;
        let mut deep = false;
        let mut i: usize = 0;
        while i < fields.len()
            invariant
                i <= fields@.len(),
                size as nat == fields_size(fields@.subrange(0, i as int)),
                size <= MAX_VALUE_SIZE,
                deep ==> fields_depth(fields@.subrange(0, i as int)) >= MAX_TYPE_DEPTH,
                !deep ==> depth as nat == fields_depth(fields@.subrange(0, i as int)) && depth < MAX_TYPE_DEPTH,
            decreases fields@.len() - i,
        {
            let ghost next = fields@.subrange(0, i as int + 1);
            assert(next.drop_last() =~= fields@.subrange(0, i as int));
            let s = fields[i].1.size();
            let n = fields[i].0.len() as u64;
            if s > MAX_VALUE_SIZE - size || n > MAX_VALUE_SIZE - size - s {
                proof { lemma_fields_size_grows(fields@, i as int + 1); }
                return Err(ValueError::ValueTooLarge);
            }
            size = size + n + s;
            let d = fields[i].1.depth();
            if !deep {
                if d >= MAX_TYPE_DEPTH {
                    deep = true;
                } else if d > depth {
                    depth = d;
                }
            }
            i = i + 1;
        }
        assert(fields@.subrange(0, fields@.len() as int) =~= fields@);
        if deep {
            return Err(ValueError::TypeSignatureTooDeep);
        }
        Ok((size, depth + 1))
    }

    /// A tuple of `data`, fields ordered by name; fails on a repeated name,
    /// on no fields at all, or when the type would exceed the limits.
    #[verifier::loop_isolation(false)]
    pub fn from_data(data: Vec<(ClarityName, Value)>) -> (r: Result<TupleData, ValueError>)
        ensures
            has_duplicate_name(data@) ==> (r is Err && r->Err_0 is NameAlreadyUsed && exists|i: int, j: int|
                0 <= i < j < data@.len() && #[trigger] data@[i].0@ == #[trigger] data@[j].0@ && data@[j].0@
                    == r->Err_0->NameAlreadyUsed_0@),
            !has_duplicate_name(data@) && data@.len() == 0 ==> r == Err::<TupleData, ValueError>(ValueError::EmptyTuplesNotAllowed),
            r is Ok ==> data@.len() > 0 && !has_duplicate_name(data@),
            r matches Ok(t) ==> names_sorted(t.fields()) && t.fields().len() == data@.len(),
            r matches Ok(t) ==> forall|i: int|
                0 <= i < data@.len() ==> #[trigger] has_field(t.fields(), data@[i]),
            r matches Ok(t) ==> t.spec_size() == tuple_size(data@) && t.spec_depth() == tuple_depth(data@),
            !has_duplicate_name(data@) && data@.len() > 0 && tuple_size(data@) <= MAX_VALUE_SIZE && tuple_depth(data@)
                <= MAX_TYPE_DEPTH ==> r is Ok,
            !has_duplicate_name(data@) && data@.len() > 0 && tuple_size(data@) > MAX_VALUE_SIZE ==> r
                == Err::<TupleData, ValueError>(ValueError::ValueTooLarge),
            !has_duplicate_name(data@) && data@.len() > 0 && tuple_size(data@) <= MAX_VALUE_SIZE && tuple_depth(data@)
                > MAX_TYPE_DEPTH ==> r == Err::<TupleData, ValueError>(ValueError::TypeSignatureTooDeep),
            r matches Ok(t) ==> t.spec_size() <= MAX_VALUE_SIZE && t.spec_depth() <= MAX_TYPE_DEPTH,
            r matches Ok(t) ==> within_limits(Value::Tuple(t)),
            r is Err && !has_duplicate_name(data@) && data@.len() > 0 ==> r == Err::<TupleData, ValueError>(ValueError::ValueTooLarge)
                || r == Err::<TupleData, ValueError>(ValueError::TypeSignatureTooDeep),
    {
        let ghost items = data@;
        let n = data.len();
        let measured = Self::measure(&data);
        let mut pending = data;
        let mut rev: Vec<(ClarityName, Value)> = Vec::new();
        while pending.len() > 0
            invariant
                items == data@,
                pending@.len() + rev@.len() == items.len(),
                pending@ == items.subrange(0, pending@.len() as int),
                forall|j: int| 0 <= j < rev@.len() ==> rev@[j] == items[items.len() - 1 - j],
            decreases pending@.len(),
        {
            let x = pending.pop().unwrap();
            rev.push(x);
        }
        let mut fields: Vec<(ClarityName, Value)> = Vec::new();
        let ghost mut pos: Seq<int> = Seq::empty();
        let ghost mut src: Seq<int> = Seq::empty();
        while rev.len() > 0
            invariant
                items == data@,
                n == items.len(),
                rev@.len() <= items.len(),
                forall|j: int| 0 <= j < rev@.len() ==> rev@[j] == items[items.len() - 1 - j],
                fields@.len() == items.len() - rev@.len(),
                pos.len() == fields@.len(),
                names_sorted(fields@),
                forall|i: int| 0 <= i < pos.len() ==> 0 <= #[trigger] pos[i] < fields@.len() && fields@[pos[i]] == items[i],
                !has_duplicate_name(items.subrange(0, fields@.len() as int)),
                src.len() == fields@.len(),
                forall|j: int| 0 <= j < src.len() ==> 0 <= #[trigger] src[j] < fields@.len() && fields@[j] == items[src[j]],
            decreases rev@.len(),
        {
            let ghost k = fields@.len() as int;
            let item = rev.pop().unwrap();
            assert(item == items[k]);
            // a repeated name?
            let mut j: usize = 0;
            while j < fields.len()
                invariant
                    j <= fields@.len(),
                    forall|m: int| 0 <= m < j ==> fields@[m].0@ != item.0@,
                decreases fields@.len() - j,
            {
                if compare_bytes(fields[j].0.as_bytes(), item.0.as_bytes()) == 0 {
                    proof {
                        let i = src[j as int];
                        assert(items[i].0@ == items[k].0@);
                        assert(0 <= i < k < items.len());
                    }
                    let used = slice_to_vec(item.0.as_bytes());
                    assert(exists|a: int, b: int|
                        0 <= a < b < items.len() && #[trigger] items[a].0@ == #[trigger] items[b].0@ && items[b].0@ == used@) by {
                        assert(items[src[j as int]].0@ == items[k].0@);
                    }
                    return Err(ValueError::NameAlreadyUsed(used));
                }
                j = j + 1;
            }
            // where it goes
            let mut idx: usize = 0;
            while idx < fields.len() && compare_bytes(fields[idx].0.as_bytes(), item.0.as_bytes()) < 0
                invariant
                    idx <= fields@.len(),
                    forall|m: int| 0 <= m < idx ==> bytes_lt(#[trigger] fields@[m].0@, item.0@),
                decreases fields@.len() - idx,
            {
                idx = idx + 1;
            }
            proof {
                if idx < fields@.len() {
                    lemma_bytes_lt_total(fields@[idx as int].0@, item.0@);
                }
            }
            let ghost old_fields = fields@;
            fields.insert(idx, item);
            proof {
                assert forall|m: int| 0 <= m < fields@.len() - 1 implies bytes_lt(#[trigger] fields@[m].0@, fields@[m + 1].0@) by {
                    if m + 1 < idx {
                        assert(fields@[m] == old_fields[m] && fields@[m + 1] == old_fields[m + 1]);
                    } else if m + 1 == idx {
                    } else if m == idx {
                    } else {
                        assert(fields@[m] == old_fields[m - 1] && fields@[m + 1] == old_fields[m]);
                    }
                }
                let new_pos = Seq::new(pos.len(), |i: int| if pos[i] >= idx { pos[i] + 1 } else { pos[i] }).push(idx as int);
                assert forall|i: int| 0 <= i < new_pos.len() implies 0 <= #[trigger] new_pos[i] < fields@.len() && fields@[new_pos[i]] == items[i] by {
                    if i < pos.len() {
                        if pos[i] >= idx {
                            assert(fields@[pos[i] + 1] == old_fields[pos[i]]);
                        } else {
                            assert(fields@[pos[i]] == old_fields[pos[i]]);
                        }
                    }
                }
                let new_src = src.insert(idx as int, k);
                assert forall|j2: int| 0 <= j2 < new_src.len() implies 0 <= #[trigger] new_src[j2] < fields@.len() && fields@[j2] == items[new_src[j2]] by {
                    if j2 < idx {
                        assert(new_src[j2] == src[j2]);
                    } else if j2 > idx {
                        assert(new_src[j2] == src[j2 - 1]);
                    }
                }
                src = new_src;
                let pre = items.subrange(0, k + 1);
                assert forall|a: int, b: int| 0 <= a < b < pre.len() implies #[trigger] pre[a].0@ != #[trigger] pre[b].0@ by {
                    if b == k {
                        assert(fields@[new_pos[a]] == items[a]);
                        assert(old_fields[pos[a]] == items[a]);
                    } else {
                        assert(items.subrange(0, k)[a] == pre[a] && items.subrange(0, k)[b] == pre[b]);
                    }
                }
                pos = new_pos;
            }
        }
        assert(items.subrange(0, items.len() as int) =~= items);
        if n == 0 {
            return Err(ValueError::EmptyTuplesNotAllowed);
        }
        let (size, depth) = match measured {
            Ok(m) => m,
            Err(e) => return Err(e),
        };
        let t = TupleData { data_map: fields, size, depth };
        assert(items == data@);
        assert forall|i: int| 0 <= i < data@.len() implies #[trigger] has_field(t.fields(), data@[i]) by {
            assert(t.fields()[pos[i]] == items[i]);
        }
        assert(!has_duplicate_name(items));
        assert(names_sorted(t.fields()));
        assert(t.fields().len() == items.len());

        Ok(t)
    }

    /// The value of the field called `name`.
    #[verifier::loop_isolation(false)]
    pub fn get(&self, name: &str) -> (r: Result<&Value, ValueError>)
        ensures
            r matches Ok(v) ==> exists|j: int| 0 <= j < self.fields().len() && self.fields()[j].0@ == name.spec_bytes() && self.fields()[j].1 == *v,
            r is Err ==> r == Err::<&Value, ValueError>(ValueError::NoSuchTupleField) && forall|j: int| 0 <= j < self.fields().len() ==> self.fields()[j].0@ != name.spec_bytes(),
    {
        let key = name.as_bytes();
        let mut j: usize = 0;
        while j < self.data_map.len()
            invariant
                j <= self.data_map@.len(),
                key@ == name.spec_bytes(),
                forall|m: int| 0 <= m < j ==> self.data_map@[m].0@ != key@,
            decreases self.data_map@.len() - j,
        {
            if compare_bytes(self.data_map[j].0.as_bytes(), key) == 0 {
                assert(self.fields()[j as int].0@ == name.spec_bytes() && self.fields()[j as int].1 == self.data_map@[j as int].1);
                return Ok(&self.data_map[j].1);
            }
            j = j + 1;
        }
        Err(ValueError::NoSuchTupleField)
    }

    /// The value of the field called `name`, taking the tuple apart.
    pub fn get_owned(self, name: &str) -> (r: Result<Value, ValueError>)
        ensures
            r matches Ok(v) ==> exists|j: int| 0 <= j < self.fields().len() && self.fields()[j].0@ == name.spec_bytes() && self.fields()[j].1 == v,
            r is Err ==> r == Err::<Value, ValueError>(ValueError::NoSuchTupleField) && forall|j: int| 0 <= j < self.fields().len() ==> self.fields()[j].0@ != name.spec_bytes(),
    {
        let key = name.as_bytes();
        let ghost fs = self.data_map@;
        assert(fs == self.fields());
        let mut j: usize = 0;
        while j < self.data_map.len()
            invariant
                j <= self.data_map@.len(),
                fs == self.data_map@,
                fs == self.fields(),
                key@ == name.spec_bytes(),
                forall|m: int| 0 <= m < j ==> self.data_map@[m].0@ != key@,
            decreases self.data_map@.len() - j,
        {
            if compare_bytes(self.data_map[j].0.as_bytes(), key) == 0 {
                let mut fields = self.data_map;
                let (_, v) = fields.remove(j);
                assert(fs[j as int].0@ == name.spec_bytes() && fs[j as int].1 == v);
                assert(exists|m: int| 0 <= m < fs.len() && fs[m].0@ == name.spec_bytes() && fs[m].1 == v);
                return Ok(v);
            }
            j = j + 1;
        }
        Err(ValueError::NoSuchTupleField)
    }

    /// The fields in order of name.
    pub fn fields_ref(&self) -> (r: &Vec<(ClarityName, Value)>)
        ensures
            r@ == self.fields(),
    {
        &self.data_map
    }
}


/// Position of the first `.` in `b` at or after `from`, or `b.len()`.
pub open spec fn first_dot(b: Seq<u8>, from: int) -> int
    decreases b.len() - from,
{
    if from >= b.len() || from < 0 {
        b.len() as int
    } else if b[from] == 46 {
        from
    } else {
        first_dot(b, from + 1)
    }
}

proof fn lemma_first_dot(b: Seq<u8>, from: int)
    requires
        0 <= from,
    ensures
        from <= first_dot(b, from) <= b.len() || (from > b.len() && first_dot(b, from) == b.len()),
        first_dot(b, from) < b.len() ==> b[first_dot(b, from)] == 46,
        forall|j: int| from <= j < first_dot(b, from) ==> b[j] != 46,
    decreases b.len() - from,
{
    if from < b.len() && b[from] != 46 {
        lemma_first_dot(b, from + 1);
    }
}

fn find_dot(b: &[u8], from: usize) -> (r: usize)
    requires
        from <= b@.len(),
    ensures
        r == first_dot(b@, from as int),
        from <= r <= b@.len(),
{
    proof { lemma_first_dot(b@, from as int); }
    let mut i = from;
    while i < b.len() && b[i] != 46
        invariant
            from <= i <= b@.len(),
            first_dot(b@, from as int) == first_dot(b@, i as int),
        decreases b@.len() - i,
    {
        i = i + 1;
    }
    i
}

/// Whether `b` reads as `ADDRESS.contract`, split at its first dot.
pub open spec fn qualified_text_ok(b: Seq<u8>) -> bool {
    let d = first_dot(b, 0);
    d < b.len() && d >= 10 && principal_text_ok(b.subrange(0, d)) && is_contract_name(
        b.subrange(d + 1, b.len() as int),
    )
}

impl QualifiedContractIdentifier {
    /// Reads `ADDRESS.contract`: the text before the first `.` is the
    /// issuer's address, the rest the contract name.
    pub fn parse(literal: &str) -> (r: Option<QualifiedContractIdentifier>)
        ensures
            r is Some <==> qualified_text_ok(literal.spec_bytes()),
            r matches Some(id) ==> is_principal_of(literal.spec_bytes().subrange(0, first_dot(literal.spec_bytes(), 0)), id.issuer)
                && id.name@ == literal.spec_bytes().subrange(first_dot(literal.spec_bytes(), 0) + 1, literal.spec_bytes().len() as int),
    {
        let b = literal.as_bytes();
        let d = find_dot(b, 0);
        if d == b.len() {
            return None;
        }
        let issuer = match parse_standard_principal_bytes(copy_range(b, 0, d).as_slice()) {
            Some(p) => p,
            None => return None,
        };
        match ContractName::from_bytes(copy_range(b, d + 1, b.len())) {
            Some(name) => Some(QualifiedContractIdentifier::new(issuer, name)),
            None => None,
        }
    }

    /// `'ADDRESS.contract`.
    pub fn to_string(&self) -> (r: String)
        ensures
            r@ == principal_text(PrincipalData::Contract(*self)),
    {
        PrincipalData::Contract(self.duplicate()).to_string()
    }
}

impl PrincipalData {
    /// Reads `ADDRESS.contract` as a contract principal.
    pub fn parse_qualified_contract_principal(literal: &str) -> (r: Option<PrincipalData>)
        ensures
            r is Some <==> qualified_text_ok(literal.spec_bytes()),
            r matches Some(p) ==> p matches PrincipalData::Contract(id) && is_principal_of(
                literal.spec_bytes().subrange(0, first_dot(literal.spec_bytes(), 0)),
                id.issuer,
            ) && id.name@ == literal.spec_bytes().subrange(
                first_dot(literal.spec_bytes(), 0) + 1,
                literal.spec_bytes().len() as int,
            ),
    {
        match QualifiedContractIdentifier::parse(literal) {
            Some(id) => Some(PrincipalData::Contract(id)),
            None => None,
        }
    }
}

/// The three parts of `issuer.contract.name`, split at the first two dots.
pub open spec fn trait_parts(b: Seq<u8>) -> (int, int) {
    let d1 = first_dot(b, 0);
    (d1, first_dot(b, d1 + 1))
}

/// Whether `b` reads as `issuer.contract.name` with an empty or valid
/// issuer, a valid contract name and a valid name.
pub open spec fn trait_text_ok(b: Seq<u8>) -> bool {
    let (d1, d2) = trait_parts(b);
    &&& d1 < b.len() && d2 < b.len()
    &&& (d1 == 0 || (d1 >= 10 && principal_text_ok(b.subrange(0, d1))))
    &&& is_contract_name(b.subrange(d1 + 1, d2))
    &&& is_clarity_name(b.subrange(d2 + 1, b.len() as int))
}

impl TraitIdentifier {
    /// Reads `issuer.contract.name`, where the issuer may be empty.
    pub fn parse(literal: &str) -> (r: Option<(Option<StandardPrincipalData>, ContractName, ClarityName)>)
        ensures
            r is Some <==> trait_text_ok(literal.spec_bytes()),
            r matches Some((issuer, c, n)) ==> {
                let b = literal.spec_bytes();
                let (d1, d2) = trait_parts(b);
                &&& (d1 == 0 <==> issuer is None)
                &&& issuer matches Some(p) ==> is_principal_of(b.subrange(0, d1), p)
                &&& c@ == b.subrange(d1 + 1, d2)
                &&& n@ == b.subrange(d2 + 1, b.len() as int)
            },
    {
        let b = literal.as_bytes();
        let d1 = find_dot(b, 0);
        if d1 == b.len() {
            return None;
        }
        let d2 = find_dot(b, d1 + 1);
        if d2 == b.len() {
            return None;
        }
        let issuer = if d1 == 0 {
            None
        } else {
            match parse_standard_principal_bytes(copy_range(b, 0, d1).as_slice()) {
                Some(p) => Some(p),
                None => return None,
            }
        };
        let contract = match ContractName::from_bytes(copy_range(b, d1 + 1, d2)) {
            Some(c) => c,
            None => return None,
        };
        match ClarityName::from_bytes(copy_range(b, d2 + 1, b.len())) {
            Some(n) => Some((issuer, contract, n)),
            None => None,
        }
    }

    /// Reads `ADDRESS.contract.name`; the issuer may not be left out.
    pub fn parse_fully_qualified(literal: &str) -> (r: Option<TraitIdentifier>)
        ensures
            r is Some <==> trait_text_ok(literal.spec_bytes()) && trait_parts(literal.spec_bytes()).0 != 0,
            r matches Some(t) ==> {
                let b = literal.spec_bytes();
                let (d1, d2) = trait_parts(b);
                &&& is_principal_of(b.subrange(0, d1), t.contract_identifier.issuer)
                &&& t.contract_identifier.name@ == b.subrange(d1 + 1, d2)
                &&& t.name@ == b.subrange(d2 + 1, b.len() as int)
            },
    {
        match Self::parse(literal) {
            Some((Some(issuer), c, n)) => Some(TraitIdentifier::new(issuer, c, n)),
            _ => None,
        }
    }

    /// Reads `.contract.name` (or `ADDRESS.contract.name`) into its names.
    pub fn parse_sugared_syntax(literal: &str) -> (r: Option<(ContractName, ClarityName)>)
        ensures
            r is Some <==> trait_text_ok(literal.spec_bytes()),
            r matches Some((c, n)) ==> {
                let b = literal.spec_bytes();
                let (d1, d2) = trait_parts(b);
                &&& c@ == b.subrange(d1 + 1, d2)
                &&& n@ == b.subrange(d2 + 1, b.len() as int)
            },
    {
        match Self::parse(literal) {
            Some((_, c, n)) => Some((c, n)),
            None => None,
        }
    }
}


/// Decimal digits of `n`.
pub open spec fn dec_digits(n: nat) -> Seq<u8>
    decreases n,
{
    if n < 10 {
        seq![(48 + n) as u8]
    } else {
        dec_digits(n / 10) + seq![(48 + n % 10) as u8]
    }
}

/// The lowercase hex digit for `n < 16`.
pub open spec fn hex_digit(n: u8) -> u8 {
    if n < 10 {
        (48 + n) as u8
    } else {
        (87 + n) as u8
    }
}

/// Two lowercase hex digits per byte.
pub open spec fn hex_of(b: Seq<u8>) -> Seq<u8> {
    Seq::new(2 * b.len(), |i: int| if i % 2 == 0 { hex_digit(b[i / 2] / 16) } else { hex_digit(b[i / 2] % 16) })
}

pub open spec fn text_of(t: &str) -> Seq<char> {
    t@
}

/// A principal as source text.
pub open spec fn principal_text(p: PrincipalData) -> Seq<char> {
    match p {
        PrincipalData::Standard(sp) => seq!['\''] + address_text(sp),
        PrincipalData::Contract(c) => seq!['\''] + address_text(c.issuer) + seq!['.'] + ascii_chars(c.name@),
    }
}

pub open spec fn address_text(sp: StandardPrincipalData) -> Seq<char> {
    if sp.0 < 32 {
        c32_address_encoded(sp.1@, sp.0)
    } else {
        seq!['I', 'N', 'V', 'A', 'L', 'I', 'D', '_', 'C', '3', '2', '_', 'A', 'D', 'D']
    }
}

/// A value as source text.
pub open spec fn value_text(v: Value) -> Seq<char>
    decreases v, 1int,
{
    match v {
        Value::Int(i) => if i < 0 {
            seq!['-'] + ascii_chars(dec_digits((-i) as nat))
        } else {
            ascii_chars(dec_digits(i as nat))
        },
        Value::UInt(u) => seq!['u'] + ascii_chars(dec_digits(u as nat)),
        Value::Bool(b) => if b {
            seq!['t', 'r', 'u', 'e']
        } else {
            seq!['f', 'a', 'l', 's', 'e']
        },
        Value::Buffer(b) => seq!['0', 'x'] + ascii_chars(hex_of(b.data@)),
        Value::Principal(p) => principal_text(p),
        Value::Optional(o) => match o.data {
            Some(x) => seq!['(', 's', 'o', 'm', 'e', ' '] + value_text(*x) + seq![')'],
            None => seq!['n', 'o', 'n', 'e'],
        },
        Value::Response(r) => if r.committed {
            seq!['(', 'o', 'k', ' '] + value_text(*r.data) + seq![')']
        } else {
            seq!['(', 'e', 'r', 'r', ' '] + value_text(*r.data) + seq![')']
        },
        Value::List(l) => seq!['('] + items_text(l.data@, l.data@.len() as int) + seq![')'],
        Value::Tuple(t) => seq!['(', 't', 'u', 'p', 'l', 'e'] + fields_text(t.data_map@, t.data_map@.len() as int)
            + seq![')'],
    }
}

/// The first `k` items, separated by spaces.
pub open spec fn items_text(vs: Seq<Value>, k: int) -> Seq<char>
    decreases vs, 0int, k,
{
    if k <= 0 || k > vs.len() {
        Seq::empty()
    } else if k == 1 {
        value_text(vs[0])
    } else {
        items_text(vs, k - 1) + seq![' '] + value_text(vs[k - 1])
    }
}

/// ` (name value)` for each of the first `k` fields.
pub open spec fn fields_text(fs: Seq<(ClarityName, Value)>, k: int) -> Seq<char>
    decreases fs, 0int, k,
{
    if k <= 0 || k > fs.len() {
        Seq::empty()
    } else {
        fields_text(fs, k - 1) + seq![' ', '('] + ascii_chars(fs[k - 1].0@) + seq![' '] + value_text(fs[k - 1].1)
            + seq![')']
    }
}

fn decimal(n: u128) -> (r: Vec<u8>)
    ensures
        r@ == dec_digits(n as nat),
        forall|i: int| 0 <= i < r@.len() ==> 48 <= #[trigger] r@[i] <= 57,
    decreases n,
{
    if n < 10 {
        let v = vec![(48 + n) as u8];
        assert(v@ =~= dec_digits(n as nat));
        v
    } else {
        let mut v = decimal(n / 10);
        let ghost before = v@;
        v.push((48 + n % 10) as u8);
        assert(v@ =~= dec_digits(n as nat));
        v
    }
}

fn hex_digit_of(n: u8) -> (r: u8)
    requires
        n < 16,
    ensures
        r == hex_digit(n),
        r < 128,
{
    if n < 10 {
        48 + n
    } else {
        87 + n
    }
}

fn hex_text(b: &Vec<u8>) -> (r: Vec<u8>)
    ensures
        r@ == hex_of(b@),
        forall|i: int| 0 <= i < r@.len() ==> #[trigger] r@[i] < 128,
{
    let mut out: Vec<u8> = Vec::new();
    let mut i: usize = 0;
    while i < b.len()
        invariant
            i <= b@.len(),
            out@.len() == 2 * i,
            forall|k: int| 0 <= k < out@.len() ==> #[trigger] out@[k] == hex_of(b@)[k],
            forall|k: int| 0 <= k < out@.len() ==> #[trigger] out@[k] < 128,
        decreases b@.len() - i,
    {
        let x = b[i];
        out.push(hex_digit_of(x / 16));
        out.push(hex_digit_of(x % 16));
        proof {
            assert(hex_of(b@)[2 * i as int] == hex_digit(b@[i as int] / 16));
            assert(hex_of(b@)[2 * i + 1] == hex_digit(b@[i as int] % 16)) by {
                assert((2 * i + 1) / 2 == i as int);
                assert((2 * i + 1) % 2 == 1);
            }
        }
        i = i + 1;
    }
    assert(out@ =~= hex_of(b@));
    out
}

/// Appends the literal `t` to `out`.
fn push_lit(out: String, t: &str) -> (r: String)
    ensures
        r@ == out@ + t@,
{
    crate::types::append_text(out, t)
}

/// Appends ASCII bytes to `out`.
fn push_ascii(out: String, b: &Vec<u8>) -> (r: String)
    requires
        forall|i: int| 0 <= i < b@.len() ==> #[trigger] b@[i] < 128,
    ensures
        r@ == out@ + ascii_chars(b@),
{
    let t = ascii_to_string(b.as_slice());
    crate::types::append_text(out, t.as_str())
}

impl Value {
    /// The value as source text: `-12`, `u7`, `true`, `0x0aff`, `'ADDRESS`,
    /// `(some 1)`, `none`, `(ok 1)`, `(err 1)`, `(1 2)`, `(tuple (a 1))`.
    pub fn to_string(&self) -> (r: String)
        ensures
            r@ == value_text(*self),
    {
        let out = String::new();
        self.write_to(out)
    }

    #[verifier::loop_isolation(false)]
    fn write_to(&self, out: String) -> (r: String)
        ensures
            r@ == out@ + value_text(*self),
        decreases *self, 1int,
    {
        let ghost o = out@;
        let r = match self {
            Value::Int(i) => {
                if *i < 0 {
                    proof { reveal_strlit("-"); }
                    let out = push_lit(out, "-");
                    let m: u128 = if *i == i128::MIN { 0x8000_0000_0000_0000_0000_0000_0000_0000u128 } else { (-*i) as u128 };
                    push_ascii(out, &decimal(m))
                } else {
                    push_ascii(out, &decimal(*i as u128))
                }
            },
            Value::UInt(u) => {
                proof { reveal_strlit("u"); }
                let out = push_lit(out, "u");
                push_ascii(out, &decimal(*u))
            },
            Value::Bool(b) => {
                if *b {
                    proof { reveal_strlit("true"); }
                    push_lit(out, "true")
                } else {
                    proof { reveal_strlit("false"); }
                    push_lit(out, "false")
                }
            },
            Value::Buffer(b) => {
                proof { reveal_strlit("0x"); }
                let out = push_lit(out, "0x");
                push_ascii(out, &hex_text(&b.data))
            },
            Value::Principal(p) => {
                let t = p.to_string();
                crate::types::append_text(out, t.as_str())
            },
            Value::Optional(d) => match &d.data {
                Some(x) => {
                    proof { reveal_strlit("(some "); reveal_strlit(")"); }
                    let out = push_lit(out, "(some ");
                    let out = x.write_to(out);
                    push_lit(out, ")")
                },
                None => {
                    proof { reveal_strlit("none"); }
                    push_lit(out, "none")
                },
            },
            Value::Response(d) => {
                let out = if d.committed {
                    proof { reveal_strlit("(ok "); }
                    push_lit(out, "(ok ")
                } else {
                    proof { reveal_strlit("(err "); }
                    push_lit(out, "(err ")
                };
                let out = d.data.write_to(out);
                proof { reveal_strlit(")"); }
                push_lit(out, ")")
            },
            Value::List(l) => {
                proof { reveal_strlit("("); reveal_strlit(" "); reveal_strlit(")"); }
                let mut out = push_lit(out, "(");
                let ghost start = out@;
                let mut i: usize = 0;
                while i < l.data.len()
                    invariant
                        i <= l.data@.len(),
                        out@ == start + items_text(l.data@, i as int),
                    decreases l.data@.len() - i,
                {
                    assert(decreases_to!(*self => l.data@[i as int]));
                    let ghost before = out@;
                    if i > 0 {
                        out = push_lit(out, " ");
                    }
                    out = l.data[i].write_to(out);
                    proof {
                        if i == 0 {
                            assert(items_text(l.data@, 0) =~= Seq::<char>::empty());
                            assert(items_text(l.data@, 1) == value_text(l.data@[0]));
                            assert(out@ =~= start + items_text(l.data@, 1));
                        } else {
                            assert(items_text(l.data@, i as int + 1) == items_text(l.data@, i as int) + seq![' '] + value_text(l.data@[i as int]));
                            assert(out@ =~= start + items_text(l.data@, i as int + 1));
                        }
                    }
                    i = i + 1;
                }
                push_lit(out, ")")
            },
            Value::Tuple(t) => {
                proof { reveal_strlit("(tuple"); reveal_strlit(" ("); reveal_strlit(" "); reveal_strlit(")"); }
                let mut out = push_lit(out, "(tuple");
                let ghost start = out@;
                let mut i: usize = 0;
                while i < t.data_map.len()
                    invariant
                        i <= t.data_map@.len(),
                        out@ == start + fields_text(t.data_map@, i as int),
                    decreases t.data_map@.len() - i,
                {
                    assert(decreases_to!(*self => t.data_map@[i as int].1));
                    out = push_lit(out, " (");
                    let name = &t.data_map[i].0;
                    proof {
                        use_type_invariant(name);
                        name.lemma_valid();
                        lemma_clarity_name_ascii(name@);
                    }
                    out = push_ascii(out, &slice_to_vec(name.as_bytes()));
                    out = push_lit(out, " ");
                    out = t.data_map[i].1.write_to(out);
                    out = push_lit(out, ")");
                    proof {
                        assert(fields_text(t.data_map@, i as int + 1) == fields_text(t.data_map@, i as int) + seq![' ', '(']
                            + ascii_chars(t.data_map@[i as int].0@) + seq![' '] + value_text(t.data_map@[i as int].1) + seq![')']);
                        assert(out@ =~= start + fields_text(t.data_map@, i as int + 1));
                    }
                    i = i + 1;
                }
                push_lit(out, ")")
            },
        };
        r
    }
}

proof fn lemma_clarity_name_ascii(b: Seq<u8>)
    requires
        is_clarity_name(b),
    ensures
        forall|i: int| 0 <= i < b.len() ==> #[trigger] b[i] < 128,
{
    assert forall|i: int| 0 <= i < b.len() implies #[trigger] b[i] < 128 by {
        if crate::names::is_word_name(b) && i > 0 {
            assert(is_alnum(b[i]) || crate::names::is_name_symbol(b[i]));
        }
    }
}



/// The type of a value: what `admits` checks values against.
#[derive(Debug, PartialEq, Eq)]
pub enum TypeSignature {
    /// The type of nothing; what an empty list or a `none` holds.
    NoType,
    IntType,
    UIntType,
    BoolType,
    /// A buffer of at most this many bytes.
    BufferType(u32),
    PrincipalType,
    /// A list of items of the type, at most this many of them.
    ListType(Box<TypeSignature>, u32),
    /// Named fields, in increasing order of name.
    TupleType(Vec<(ClarityName, TypeSignature)>),
    OptionalType(Box<TypeSignature>),
    /// The type of `ok` values, then of `err` values.
    ResponseType(Box<TypeSignature>, Box<TypeSignature>),
}

/// Whether `t` admits the value `v`: structurally, with buffers and lists
/// no longer than the type allows.
pub open spec fn admits_value(t: TypeSignature, v: Value) -> bool
    decreases v, 1int,
{
    match v {
        Value::Int(_) => t is IntType,
        Value::UInt(_) => t is UIntType,
        Value::Bool(_) => t is BoolType,
        Value::Principal(_) => t is PrincipalType,
        Value::Buffer(b) => t matches TypeSignature::BufferType(n) && b.data@.len() <= n,
        Value::List(l) => t matches TypeSignature::ListType(et, n) && l.data@.len() <= n && items_admitted(
            *et,
            l.data@,
            l.data@.len() as int,
        ),
        Value::Tuple(tu) => t matches TypeSignature::TupleType(fs) && fs@.len() == tu.data_map@.len()
            && fields_admitted(fs@, tu.data_map@, tu.data_map@.len() as int),
        Value::Optional(o) => t matches TypeSignature::OptionalType(et) && match o.data {
            Some(x) => admits_value(*et, *x),
            None => true,
        },
        Value::Response(r) => t matches TypeSignature::ResponseType(ok, err) && if r.committed {
            admits_value(*ok, *r.data)
        } else {
            admits_value(*err, *r.data)
        },
    }
}

/// Whether `et` admits each of the first `k` of `vs`.
pub open spec fn items_admitted(et: TypeSignature, vs: Seq<Value>, k: int) -> bool
    decreases vs, 0int, k,
{
    if k <= 0 {
        true
    } else if k > vs.len() {
        false
    } else {
        items_admitted(et, vs, k - 1) && admits_value(et, vs[k - 1])
    }
}

/// Whether the first `k` fields have the same names as the field types and
/// are admitted by them.
pub open spec fn fields_admitted(fs: Seq<(ClarityName, TypeSignature)>, vs: Seq<(ClarityName, Value)>, k: int) -> bool
    decreases vs, 0int, k,
{
    if k <= 0 {
        true
    } else if k > vs.len() || k > fs.len() {
        false
    } else {
        fields_admitted(fs, vs, k - 1) && fs[k - 1].0@ == vs[k - 1].0@ && admits_value(fs[k - 1].1, vs[k - 1].1)
    }
}

impl TypeSignature {
    /// Whether this type admits `v`.
    #[verifier::loop_isolation(false)]
    pub fn admits(&self, v: &Value) -> (r: bool)
        ensures
            r == admits_value(*self, *v),
        decreases *v, 1int,
    {
        match v {
            Value::Int(_) => match self {
                TypeSignature::IntType => true,
                _ => false,
            },
            Value::UInt(_) => match self {
                TypeSignature::UIntType => true,
                _ => false,
            },
            Value::Bool(_) => match self {
                TypeSignature::BoolType => true,
                _ => false,
            },
            Value::Principal(_) => match self {
                TypeSignature::PrincipalType => true,
                _ => false,
            },
            Value::Buffer(b) => match self {
                TypeSignature::BufferType(n) => b.data.len() as u64 <= *n as u64,
                _ => false,
            },
            Value::List(l) => match self {
                TypeSignature::ListType(et, n) => {
                    if l.data.len() as u64 > *n as u64 {
                        return false;
                    }
                    let mut i: usize = 0;
                    while i < l.data.len()
                        invariant
                            i <= l.data@.len(),
                            items_admitted(**et, l.data@, i as int),
                        decreases l.data@.len() - i,
                    {
                        assert(decreases_to!(*v => l.data@[i as int]));
                        if !et.admits(&l.data[i]) {
                            proof { lemma_items_admitted_prefix(**et, l.data@, i as int + 1, l.data@.len() as int); }
                            return false;
                        }
                        i = i + 1;
                    }
                    true
                },
                _ => false,
            },
            Value::Tuple(tu) => match self {
                TypeSignature::TupleType(fs) => {
                    if fs.len() != tu.data_map.len() {
                        return false;
                    }
                    let mut i: usize = 0;
                    while i < tu.data_map.len()
                        invariant
                            i <= tu.data_map@.len(),
                            fs@.len() == tu.data_map@.len(),
                            fields_admitted(fs@, tu.data_map@, i as int),
                        decreases tu.data_map@.len() - i,
                    {
                        assert(decreases_to!(*v => tu.data_map@[i as int].1));
                        if compare_bytes(fs[i].0.as_bytes(), tu.data_map[i].0.as_bytes()) != 0 || !fs[i].1.admits(
                            &tu.data_map[i].1,
                        ) {
                            proof { lemma_fields_admitted_prefix(fs@, tu.data_map@, i as int + 1, tu.data_map@.len() as int); }
                            return false;
                        }
                        i = i + 1;
                    }
                    true
                },
                _ => false,
            },
            Value::Optional(o) => match self {
                TypeSignature::OptionalType(et) => match &o.data {
                    Some(x) => et.admits(x),
                    None => true,
                },
                _ => false,
            },
            Value::Response(r) => match self {
                TypeSignature::ResponseType(ok, err) => {
                    if r.committed {
                        ok.admits(&r.data)
                    } else {
                        err.admits(&r.data)
                    }
                },
                _ => false,
            },
        }
    }
}

proof fn lemma_items_admitted_prefix(et: TypeSignature, vs: Seq<Value>, j: int, k: int)
    requires
        0 <= j <= k <= vs.len(),
        !items_admitted(et, vs, j),
    ensures
        !items_admitted(et, vs, k),
    decreases k - j,
{
    if j < k {
        lemma_items_admitted_prefix(et, vs, j, k - 1);
    }
}

proof fn lemma_fields_admitted_prefix(fs: Seq<(ClarityName, TypeSignature)>, vs: Seq<(ClarityName, Value)>, j: int, k: int)
    requires
        0 <= j <= k <= vs.len(),
        k <= fs.len(),
        !fields_admitted(fs, vs, j),
    ensures
        !fields_admitted(fs, vs, k),
    decreases k - j,
{
    if j < k {
        lemma_fields_admitted_prefix(fs, vs, j, k - 1);
    }
}

/// Why a list could not be built with a given type.
#[derive(Debug, PartialEq, Eq)]
pub enum ListConstructionError {
    /// More items than the type allows, or an item it does not admit.
    FailureConstructingListWithType,
    /// The list's own type would break a limit.
    Value(ValueError),
}

impl Value {
    /// A list of `list_data` whose items `item_type` must admit, at most
    /// `max_len` of them.
    pub fn list_with_type(list_data: Vec<Value>, item_type: &TypeSignature, max_len: u32) -> (r: Result<Value, ListConstructionError>)
        ensures
            (list_data@.len() > max_len || !items_admitted(*item_type, list_data@, list_data@.len() as int)) ==> r
                == Err::<Value, ListConstructionError>(ListConstructionError::FailureConstructingListWithType),
            r matches Ok(v) ==> v matches Value::List(l) && l.items() == list_data@ && within_limits(v)
                && same_type(*item_type, l.item_type()),
            list_data@.len() <= max_len && items_admitted(*item_type, list_data@, list_data@.len() as int)
                && list_size(list_data@) <= MAX_VALUE_SIZE && list_depth(list_data@) <= MAX_TYPE_DEPTH ==> r is Ok,
            list_data@.len() <= max_len && items_admitted(*item_type, list_data@, list_data@.len() as int)
                && list_size(list_data@) > MAX_VALUE_SIZE ==> r == Err::<Value, ListConstructionError>(
                ListConstructionError::Value(ValueError::ValueTooLarge),
            ),
    {
        if list_data.len() as u64 > max_len as u64 {
            return Err(ListConstructionError::FailureConstructingListWithType);
        }
        let mut i: usize = 0;
        while i < list_data.len()
            invariant
                i <= list_data@.len(),
                items_admitted(*item_type, list_data@, i as int),
            decreases list_data@.len() - i,
        {
            if !item_type.admits(&list_data[i]) {
                proof { lemma_items_admitted_prefix(*item_type, list_data@, i as int + 1, list_data@.len() as int); }
                return Err(ListConstructionError::FailureConstructingListWithType);
            }
            i = i + 1;
        }
        match Self::measure_list(&list_data) {
            Ok((size, depth)) => {
                let it = item_type.duplicate();
                let v = Value::List(ListData { data: list_data, size, depth, item_type: it });
                assert(size_of(v) == size && depth_of(v) == depth);
                Ok(v)
            },
            Err(e) => Err(ListConstructionError::Value(e)),
        }
    }
}


/// Whether `a` and `b` are the same type.
pub open spec fn same_type(a: TypeSignature, b: TypeSignature) -> bool
    decreases a, 1int,
{
    match a {
        TypeSignature::ListType(t, n) => b matches TypeSignature::ListType(u, m) && n == m && same_type(*t, *u),
        TypeSignature::TupleType(fs) => b matches TypeSignature::TupleType(gs) && fs@.len() == gs@.len()
            && same_fields(fs@, gs@, fs@.len() as int),
        TypeSignature::OptionalType(t) => b matches TypeSignature::OptionalType(u) && same_type(*t, *u),
        TypeSignature::ResponseType(o, e) => b matches TypeSignature::ResponseType(o2, e2) && same_type(*o, *o2)
            && same_type(*e, *e2),
        _ => a == b,
    }
}

pub open spec fn same_fields(fs: Seq<(ClarityName, TypeSignature)>, gs: Seq<(ClarityName, TypeSignature)>, k: int) -> bool
    decreases fs, 0int, k,
{
    if k <= 0 {
        true
    } else if k > fs.len() || k > gs.len() {
        false
    } else {
        same_fields(fs, gs, k - 1) && fs[k - 1].0@ == gs[k - 1].0@ && same_type(fs[k - 1].1, gs[k - 1].1)
    }
}

/// Whether a value of type `b` may stand where type `a` is expected:
/// `NoType` anywhere in `b` fits, buffers and lists may be shorter, and
/// the rest must match part by part.
pub open spec fn admits_type_spec(a: TypeSignature, b: TypeSignature) -> bool
    decreases a, 1int,
{
    if b is NoType {
        true
    } else {
        match a {
            TypeSignature::BufferType(n) => b matches TypeSignature::BufferType(m) && m <= n,
            TypeSignature::ListType(t, n) => b matches TypeSignature::ListType(u, m) && m <= n && admits_type_spec(*t, *u),
            TypeSignature::TupleType(fs) => b matches TypeSignature::TupleType(gs) && fs@.len() == gs@.len()
                && fields_admit_types(fs@, gs@, fs@.len() as int),
            TypeSignature::OptionalType(t) => b matches TypeSignature::OptionalType(u) && admits_type_spec(*t, *u),
            TypeSignature::ResponseType(o, e) => b matches TypeSignature::ResponseType(o2, e2) && admits_type_spec(*o, *o2)
                && admits_type_spec(*e, *e2),
            _ => a == b,
        }
    }
}

pub open spec fn fields_admit_types(fs: Seq<(ClarityName, TypeSignature)>, gs: Seq<(ClarityName, TypeSignature)>, k: int) -> bool
    decreases fs, 0int, k,
{
    if k <= 0 {
        true
    } else if k > fs.len() || k > gs.len() {
        false
    } else {
        fields_admit_types(fs, gs, k - 1) && fs[k - 1].0@ == gs[k - 1].0@ && admits_type_spec(fs[k - 1].1, gs[k - 1].1)
    }
}

proof fn lemma_fields_admit_types_prefix(fs: Seq<(ClarityName, TypeSignature)>, gs: Seq<(ClarityName, TypeSignature)>, j: int, k: int)
    requires
        0 <= j <= k <= fs.len(),
        k <= gs.len(),
        !fields_admit_types(fs, gs, j),
    ensures
        !fields_admit_types(fs, gs, k),
    decreases k - j,
{
    if j < k {
        lemma_fields_admit_types_prefix(fs, gs, j, k - 1);
    }
}

impl TypeSignature {
    /// Whether a value of type `other` may stand where this type is expected.
    #[verifier::loop_isolation(false)]
    pub fn admits_type(&self, other: &TypeSignature) -> (r: bool)
        ensures
            r == admits_type_spec(*self, *other),
        decreases *self, 1int,
    {
        if let TypeSignature::NoType = other {
            return true;
        }
        match self {
            TypeSignature::BufferType(n) => match other {
                TypeSignature::BufferType(m) => *m <= *n,
                _ => false,
            },
            TypeSignature::ListType(t, n) => match other {
                TypeSignature::ListType(u, m) => *m <= *n && t.admits_type(u),
                _ => false,
            },
            TypeSignature::TupleType(fs) => match other {
                TypeSignature::TupleType(gs) => {
                    if fs.len() != gs.len() {
                        return false;
                    }
                    let mut i: usize = 0;
                    while i < fs.len()
                        invariant
                            i <= fs@.len(),
                            fs@.len() == gs@.len(),
                            fields_admit_types(fs@, gs@, i as int),
                        decreases fs@.len() - i,
                    {
                        assert(decreases_to!(*self => fs@[i as int].1));
                        if compare_bytes(fs[i].0.as_bytes(), gs[i].0.as_bytes()) != 0 || !fs[i].1.admits_type(&gs[i].1) {
                            proof { lemma_fields_admit_types_prefix(fs@, gs@, i as int + 1, fs@.len() as int); }
                            return false;
                        }
                        i = i + 1;
                    }
                    true
                },
                _ => false,
            },
            TypeSignature::OptionalType(t) => match other {
                TypeSignature::OptionalType(u) => t.admits_type(u),
                _ => false,
            },
            TypeSignature::ResponseType(o, e) => match other {
                TypeSignature::ResponseType(o2, e2) => o.admits_type(o2) && e.admits_type(e2),
                _ => false,
            },
            TypeSignature::NoType => match other {
                TypeSignature::NoType => true,
                _ => false,
            },
            TypeSignature::IntType => match other {
                TypeSignature::IntType => true,
                _ => false,
            },
            TypeSignature::UIntType => match other {
                TypeSignature::UIntType => true,
                _ => false,
            },
            TypeSignature::BoolType => match other {
                TypeSignature::BoolType => true,
                _ => false,
            },
            TypeSignature::PrincipalType => match other {
                TypeSignature::PrincipalType => true,
                _ => false,
            },
        }
    }

    /// A copy of this type.
    #[verifier::loop_isolation(false)]
    pub fn duplicate(&self) -> (r: TypeSignature)
        ensures
            same_type(*self, r),
        decreases *self, 1int,
    {
        match self {
            TypeSignature::NoType => TypeSignature::NoType,
            TypeSignature::IntType => TypeSignature::IntType,
            TypeSignature::UIntType => TypeSignature::UIntType,
            TypeSignature::BoolType => TypeSignature::BoolType,
            TypeSignature::PrincipalType => TypeSignature::PrincipalType,
            TypeSignature::BufferType(n) => TypeSignature::BufferType(*n),
            TypeSignature::ListType(t, n) => TypeSignature::ListType(Box::new(t.duplicate()), *n),
            TypeSignature::OptionalType(t) => TypeSignature::OptionalType(Box::new(t.duplicate())),
            TypeSignature::ResponseType(o, e) => TypeSignature::ResponseType(Box::new(o.duplicate()), Box::new(e.duplicate())),
            TypeSignature::TupleType(fs) => {
                let mut out: Vec<(ClarityName, TypeSignature)> = Vec::new();
                let mut i: usize = 0;
                while i < fs.len()
                    invariant
                        i <= fs@.len(),
                        out@.len() == i,
                        same_fields(fs@, out@, i as int),
                    decreases fs@.len() - i,
                {
                    assert(decreases_to!(*self => fs@[i as int].1));
                    let t = fs[i].1.duplicate();
                    let n = fs[i].0.duplicate();
                    let ghost before = out@;
                    out.push((n, t));
                    proof { lemma_same_fields_push(fs@, before, out@, i as int); }
                    i = i + 1;
                }
                TypeSignature::TupleType(out)
            },
        }
    }
}

proof fn lemma_same_fields_push(fs: Seq<(ClarityName, TypeSignature)>, before: Seq<(ClarityName, TypeSignature)>, after: Seq<(ClarityName, TypeSignature)>, i: int)
    requires
        0 <= i < fs.len(),
        before.len() == i,
        after == before.push(after[i]),
        same_fields(fs, before, i),
        fs[i].0@ == after[i].0@,
        same_type(fs[i].1, after[i].1),
    ensures
        same_fields(fs, after, i + 1),
{
    lemma_same_fields_prefix(fs, before, after, i);
}

proof fn lemma_same_fields_prefix(fs: Seq<(ClarityName, TypeSignature)>, a: Seq<(ClarityName, TypeSignature)>, b: Seq<(ClarityName, TypeSignature)>, k: int)
    requires
        0 <= k <= a.len(),
        k <= b.len(),
        forall|i: int| 0 <= i < k ==> a[i] == b[i],
    ensures
        same_fields(fs, a, k) == same_fields(fs, b, k),
    decreases k,
{
    if k > 0 {
        lemma_same_fields_prefix(fs, a, b, k - 1);
    }
}


/// A type as a mathematical value.
pub enum TypeView {
    NoType,
    Int,
    UInt,
    Bool,
    Buffer(nat),
    Principal,
    List(Box<TypeView>, nat),
    Tuple(Seq<(Seq<u8>, TypeView)>),
    Optional(Box<TypeView>),
    Response(Box<TypeView>, Box<TypeView>),
}

/// What a type signature stands for.
pub open spec fn type_view(t: TypeSignature) -> TypeView
    decreases t, 1int,
{
    match t {
        TypeSignature::NoType => TypeView::NoType,
        TypeSignature::IntType => TypeView::Int,
        TypeSignature::UIntType => TypeView::UInt,
        TypeSignature::BoolType => TypeView::Bool,
        TypeSignature::PrincipalType => TypeView::Principal,
        TypeSignature::BufferType(n) => TypeView::Buffer(n as nat),
        TypeSignature::ListType(e, n) => TypeView::List(Box::new(type_view(*e)), n as nat),
        TypeSignature::TupleType(fs) => TypeView::Tuple(fields_view(fs@, fs@.len() as int)),
        TypeSignature::OptionalType(e) => TypeView::Optional(Box::new(type_view(*e))),
        TypeSignature::ResponseType(o, e) => TypeView::Response(Box::new(type_view(*o)), Box::new(type_view(*e))),
    }
}

/// The views of the first `k` field types.
pub open spec fn fields_view(fs: Seq<(ClarityName, TypeSignature)>, k: int) -> Seq<(Seq<u8>, TypeView)>
    decreases fs, 0int, k,
{
    if k <= 0 || k > fs.len() {
        Seq::empty()
    } else {
        fields_view(fs, k - 1).push((fs[k - 1].0@, type_view(fs[k - 1].1)))
    }
}

/// The type of a value: a list has the type of its items, a buffer or list
/// its length, `none` is an optional of nothing, and a response has nothing
/// on the side it is not.
pub open spec fn value_type(v: Value) -> TypeView
    decreases v, 1int,
{
    match v {
        Value::Int(_) => TypeView::Int,
        Value::UInt(_) => TypeView::UInt,
        Value::Bool(_) => TypeView::Bool,
        Value::Principal(_) => TypeView::Principal,
        Value::Buffer(b) => TypeView::Buffer((b.data@.len() as u32) as nat),
        Value::List(l) => TypeView::List(Box::new(type_view(l.item_type)), (l.data@.len() as u32) as nat),
        Value::Tuple(t) => TypeView::Tuple(value_fields_type(t.data_map@, t.data_map@.len() as int)),
        Value::Optional(o) => match o.data {
            Some(x) => TypeView::Optional(Box::new(value_type(*x))),
            None => TypeView::Optional(Box::new(TypeView::NoType)),
        },
        Value::Response(r) => if r.committed {
            TypeView::Response(Box::new(value_type(*r.data)), Box::new(TypeView::NoType))
        } else {
            TypeView::Response(Box::new(TypeView::NoType), Box::new(value_type(*r.data)))
        },
    }
}

pub open spec fn value_fields_type(vs: Seq<(ClarityName, Value)>, k: int) -> Seq<(Seq<u8>, TypeView)>
    decreases vs, 0int, k,
{
    if k <= 0 || k > vs.len() {
        Seq::empty()
    } else {
        value_fields_type(vs, k - 1).push((vs[k - 1].0@, value_type(vs[k - 1].1)))
    }
}

pub open spec fn max_nat(a: nat, b: nat) -> nat {
    if a > b { a } else { b }
}

/// The least supertype of `a` and `b`, if they have one: nothing joins
/// anything, buffers and lists take the longer length, and the rest must
/// match part by part.
pub open spec fn join(a: TypeView, b: TypeView) -> Option<TypeView>
    decreases a, 1int,
{
    if a is NoType {
        Some(b)
    } else if b is NoType {
        Some(a)
    } else {
        match (a, b) {
            (TypeView::Int, TypeView::Int) => Some(a),
            (TypeView::UInt, TypeView::UInt) => Some(a),
            (TypeView::Bool, TypeView::Bool) => Some(a),
            (TypeView::Principal, TypeView::Principal) => Some(a),
            (TypeView::Buffer(n), TypeView::Buffer(m)) => Some(TypeView::Buffer(max_nat(n, m))),
            (TypeView::List(x, n), TypeView::List(y, m)) => match join(*x, *y) {
                Some(c) => Some(TypeView::List(Box::new(c), max_nat(n, m))),
                None => None,
            },
            (TypeView::Optional(x), TypeView::Optional(y)) => match join(*x, *y) {
                Some(c) => Some(TypeView::Optional(Box::new(c))),
                None => None,
            },
            (TypeView::Response(o, e), TypeView::Response(o2, e2)) => match (join(*o, *o2), join(*e, *e2)) {
                (Some(c), Some(d)) => Some(TypeView::Response(Box::new(c), Box::new(d))),
                _ => None,
            },
            (TypeView::Tuple(fs), TypeView::Tuple(gs)) => if fs.len() == gs.len() {
                match join_fields(fs, gs, fs.len() as int) {
                    Some(hs) => Some(TypeView::Tuple(hs)),
                    None => None,
                }
            } else {
                None
            },
            _ => None,
        }
    }
}

/// The field-by-field join of the first `k` fields, which must have the
/// same names.
pub open spec fn join_fields(fs: Seq<(Seq<u8>, TypeView)>, gs: Seq<(Seq<u8>, TypeView)>, k: int) -> Option<Seq<(Seq<u8>, TypeView)>>
    decreases fs, 0int, k,
{
    if k <= 0 {
        Some(Seq::empty())
    } else if k > fs.len() || k > gs.len() {
        None
    } else {
        match join_fields(fs, gs, k - 1) {
            Some(hs) => if fs[k - 1].0 == gs[k - 1].0 {
                match join(fs[k - 1].1, gs[k - 1].1) {
                    Some(c) => Some(hs.push((fs[k - 1].0, c))),
                    None => None,
                }
            } else {
                None
            },
            None => None,
        }
    }
}

/// The least supertype of the types of the first `k` values.
pub open spec fn join_all(vs: Seq<Value>, k: int) -> Option<TypeView>
    decreases k,
{
    if k <= 0 {
        Some(TypeView::NoType)
    } else {
        match join_all(vs, k - 1) {
            Some(acc) => join(acc, value_type(vs[k - 1])),
            None => None,
        }
    }
}

proof fn lemma_join_all_none(vs: Seq<Value>, j: int, k: int)
    requires
        1 <= j <= k,
        join_all(vs, j) is None,
    ensures
        join_all(vs, k) is None,
    decreases k - j,
{
    if j < k {
        lemma_join_all_none(vs, j, k - 1);
    }
}

proof fn lemma_fields_view_prefix(a: Seq<(ClarityName, TypeSignature)>, b: Seq<(ClarityName, TypeSignature)>, k: int)
    requires
        0 <= k <= a.len(),
        k <= b.len(),
        forall|i: int| 0 <= i < k ==> a[i] == b[i],
    ensures
        fields_view(a, k) == fields_view(b, k),
    decreases k,
{
    if k > 0 {
        lemma_fields_view_prefix(a, b, k - 1);
    }
}

/// The type of `v`.
#[verifier::loop_isolation(false)]
pub fn type_of(v: &Value) -> (r: TypeSignature)
    ensures
        type_view(r) == value_type(*v),
    decreases *v, 1int,
{
    match v {
        Value::Int(_) => TypeSignature::IntType,
        Value::UInt(_) => TypeSignature::UIntType,
        Value::Bool(_) => TypeSignature::BoolType,
        Value::Principal(_) => TypeSignature::PrincipalType,
        Value::Buffer(b) => TypeSignature::BufferType(b.data.len() as u32),
        Value::List(l) => TypeSignature::ListType(Box::new(copy_type(&l.item_type)), l.data.len() as u32),
        Value::Optional(o) => match &o.data {
            Some(x) => TypeSignature::OptionalType(Box::new(type_of(x))),
            None => TypeSignature::OptionalType(Box::new(TypeSignature::NoType)),
        },
        Value::Response(r) => if r.committed {
            TypeSignature::ResponseType(Box::new(type_of(&r.data)), Box::new(TypeSignature::NoType))
        } else {
            TypeSignature::ResponseType(Box::new(TypeSignature::NoType), Box::new(type_of(&r.data)))
        },
        Value::Tuple(t) => {
            let mut out: Vec<(ClarityName, TypeSignature)> = Vec::new();
            let mut i: usize = 0;
            while i < t.data_map.len()
                invariant
                    i <= t.data_map@.len(),
                    out@.len() == i,
                    fields_view(out@, i as int) == value_fields_type(t.data_map@, i as int),
                decreases t.data_map@.len() - i,
            {
                assert(decreases_to!(*v => t.data_map@[i as int].1));
                let ft = type_of(&t.data_map[i].1);
                let n = t.data_map[i].0.duplicate();
                let ghost before = out@;
                out.push((n, ft));
                proof { lemma_fields_view_prefix(out@, before, i as int); }
                i = i + 1;
            }
            TypeSignature::TupleType(out)
        },
    }
}

/// A copy of `t` that stands for the same type.
#[verifier::loop_isolation(false)]
pub fn copy_type(t: &TypeSignature) -> (r: TypeSignature)
    ensures
        type_view(r) == type_view(*t),
    decreases *t, 1int,
{
    match t {
        TypeSignature::NoType => TypeSignature::NoType,
        TypeSignature::IntType => TypeSignature::IntType,
        TypeSignature::UIntType => TypeSignature::UIntType,
        TypeSignature::BoolType => TypeSignature::BoolType,
        TypeSignature::PrincipalType => TypeSignature::PrincipalType,
        TypeSignature::BufferType(n) => TypeSignature::BufferType(*n),
        TypeSignature::ListType(e, n) => TypeSignature::ListType(Box::new(copy_type(e)), *n),
        TypeSignature::OptionalType(e) => TypeSignature::OptionalType(Box::new(copy_type(e))),
        TypeSignature::ResponseType(o, e) => TypeSignature::ResponseType(Box::new(copy_type(o)), Box::new(copy_type(e))),
        TypeSignature::TupleType(fs) => {
            let mut out: Vec<(ClarityName, TypeSignature)> = Vec::new();
            let mut i: usize = 0;
            while i < fs.len()
                invariant
                    i <= fs@.len(),
                    out@.len() == i,
                    fields_view(out@, i as int) == fields_view(fs@, i as int),
                decreases fs@.len() - i,
            {
                assert(decreases_to!(*t => fs@[i as int].1));
                let ft = copy_type(&fs[i].1);
                let n = fs[i].0.duplicate();
                let ghost before = out@;
                out.push((n, ft));
                proof { lemma_fields_view_prefix(out@, before, i as int); }
                i = i + 1;
            }
            TypeSignature::TupleType(out)
        },
    }
}

/// The least supertype of `a` and `b`, if they have one.
#[verifier::loop_isolation(false)]
pub fn join_types(a: &TypeSignature, b: &TypeSignature) -> (r: Option<TypeSignature>)
    ensures
        match join(type_view(*a), type_view(*b)) {
            Some(c) => r matches Some(t) && type_view(t) == c,
            None => r is None,
        },
    decreases *a, 1int,
{
    if let TypeSignature::NoType = a {
        return Some(copy_type(b));
    }
    if let TypeSignature::NoType = b {
        return Some(copy_type(a));
    }
    match (a, b) {
        (TypeSignature::IntType, TypeSignature::IntType) => Some(TypeSignature::IntType),
        (TypeSignature::UIntType, TypeSignature::UIntType) => Some(TypeSignature::UIntType),
        (TypeSignature::BoolType, TypeSignature::BoolType) => Some(TypeSignature::BoolType),
        (TypeSignature::PrincipalType, TypeSignature::PrincipalType) => Some(TypeSignature::PrincipalType),
        (TypeSignature::BufferType(n), TypeSignature::BufferType(m)) => Some(
            TypeSignature::BufferType(if *n > *m { *n } else { *m }),
        ),
        (TypeSignature::ListType(x, n), TypeSignature::ListType(y, m)) => match join_types(x, y) {
            Some(c) => Some(TypeSignature::ListType(Box::new(c), if *n > *m { *n } else { *m })),
            None => None,
        },
        (TypeSignature::OptionalType(x), TypeSignature::OptionalType(y)) => match join_types(x, y) {
            Some(c) => Some(TypeSignature::OptionalType(Box::new(c))),
            None => None,
        },
        (TypeSignature::ResponseType(o, e), TypeSignature::ResponseType(o2, e2)) => {
            let c = join_types(o, o2);
            let d = join_types(e, e2);
            match (c, d) {
                (Some(c), Some(d)) => Some(TypeSignature::ResponseType(Box::new(c), Box::new(d))),
                _ => None,
            }
        },
        (TypeSignature::TupleType(fs), TypeSignature::TupleType(gs)) => {
            let ghost fv = fields_view(fs@, fs@.len() as int);
            let ghost gv = fields_view(gs@, gs@.len() as int);
            proof {
                lemma_fields_view_index(fs@, fs@.len() as int);
                lemma_fields_view_index(gs@, gs@.len() as int);
            }
            if fs.len() != gs.len() {
                return None;
            }
            let mut out: Vec<(ClarityName, TypeSignature)> = Vec::new();
            let mut i: usize = 0;
            while i < fs.len()
                invariant
                    i <= fs@.len(),
                    fs@.len() == gs@.len(),
                    out@.len() == i,
                    join_fields(fv, gv, i as int) == Some(fields_view(out@, i as int)),
                decreases fs@.len() - i,
            {
                assert(decreases_to!(*a => fs@[i as int].1));
                if compare_bytes(fs[i].0.as_bytes(), gs[i].0.as_bytes()) != 0 {
                    proof { lemma_join_fields_none(fv, gv, i as int + 1, fv.len() as int); }
                    return None;
                }
                match join_types(&fs[i].1, &gs[i].1) {
                    Some(c) => {
                        let n = fs[i].0.duplicate();
                        let ghost before = out@;
                        out.push((n, c));
                        proof { lemma_fields_view_prefix(out@, before, i as int); }
                    },
                    None => {
                        proof { lemma_join_fields_none(fv, gv, i as int + 1, fv.len() as int); }
                        return None;
                    },
                }
                i = i + 1;
            }
            Some(TypeSignature::TupleType(out))
        },
        _ => None,
    }
}

proof fn lemma_fields_view_index(fs: Seq<(ClarityName, TypeSignature)>, k: int)
    requires
        0 <= k <= fs.len(),
    ensures
        fields_view(fs, k).len() == k,
        forall|i: int| 0 <= i < k ==> #[trigger] fields_view(fs, k)[i] == (fs[i].0@, type_view(fs[i].1)),
    decreases k,
{
    if k > 0 {
        lemma_fields_view_index(fs, k - 1);
    }
}

proof fn lemma_join_fields_none(fs: Seq<(Seq<u8>, TypeView)>, gs: Seq<(Seq<u8>, TypeView)>, j: int, k: int)
    requires
        1 <= j <= k,
        join_fields(fs, gs, j) is None,
    ensures
        join_fields(fs, gs, k) is None,
    decreases k - j,
{
    if j < k {
        lemma_join_fields_none(fs, gs, j, k - 1);
    }
}


impl OptionalData {
    /// The type of this optional value: an optional of its content's type,
    /// or of nothing.
    pub fn type_signature(&self) -> (r: TypeSignature)
        ensures
            type_view(r) == value_type(Value::Optional(*self)),
    {
        match &self.data {
            Some(x) => TypeSignature::OptionalType(Box::new(type_of(x))),
            None => TypeSignature::OptionalType(Box::new(TypeSignature::NoType)),
        }
    }
}

impl ResponseData {
    /// The type of this response: its content's type on its side, nothing
    /// on the other.
    pub fn type_signature(&self) -> (r: TypeSignature)
        ensures
            type_view(r) == value_type(Value::Response(*self)),
    {
        if self.committed {
            TypeSignature::ResponseType(Box::new(type_of(&self.data)), Box::new(TypeSignature::NoType))
        } else {
            TypeSignature::ResponseType(Box::new(TypeSignature::NoType), Box::new(type_of(&self.data)))
        }
    }
}

} // verus!
