//! Bounded identifier strings: variable / function names and contract names.
use vstd::prelude::*;
use vstd::string::StringSliceAdditionalSpecFns;

verus! {

/// Longest accepted identifier.
pub const MAX_STRING_LEN: usize = 128;

/// Shortest accepted contract name.
pub const CONTRACT_MIN_NAME_LENGTH: usize = 5;

/// Longest accepted contract name.
pub const CONTRACT_MAX_NAME_LENGTH: usize = 40;

pub open spec fn is_alpha(c: u8) -> bool {
    (65 <= c && c <= 90) || (97 <= c && c <= 122)
}

pub open spec fn is_digit(c: u8) -> bool {
    48 <= c && c <= 57
}

pub open spec fn is_alnum(c: u8) -> bool {
    is_alpha(c) || is_digit(c)
}

/// Symbols that may follow the first letter of an identifier.
pub open spec fn is_name_symbol(c: u8) -> bool {
    c == 45 || c == 95 || c == 33 || c == 63 || c == 43 || c == 60 || c == 62
        || c == 61 || c == 47 || c == 42
}

/// A letter followed by letters, digits and identifier symbols.
pub open spec fn is_word_name(s: Seq<u8>) -> bool {
    &&& s.len() >= 1
    &&& is_alpha(s[0])
    &&& forall|i: int| 1 <= i < s.len() ==> is_alnum(#[trigger] s[i]) || is_name_symbol(s[i])
}

/// One of the operator names `-`, `+`, `=`, `/`, `*`, `<`, `>`, `<=`, `>=`.
pub open spec fn is_operator_name(s: Seq<u8>) -> bool {
    ||| (s.len() == 1 && (s[0] == 45 || s[0] == 43 || s[0] == 61 || s[0] == 47 || s[0]
        == 42 || s[0] == 60 || s[0] == 62))
    ||| (s.len() == 2 && (s[0] == 60 || s[0] == 62) && s[1] == 61)
}

/// What a variable, function, map or trait name may be.
pub open spec fn is_clarity_name(s: Seq<u8>) -> bool {
    s.len() <= MAX_STRING_LEN && (is_word_name(s) || is_operator_name(s))
}

/// The reserved name of the contract that holds throw-away programs.
pub open spec fn transient_name() -> Seq<u8> {
    seq![95, 95, 116, 114, 97, 110, 115, 105, 101, 110, 116]
}

/// A letter followed by letters, digits, `-` and `_`.
pub open spec fn is_contract_word(s: Seq<u8>) -> bool {
    &&& s.len() >= 1
    &&& is_alpha(s[0])
    &&& forall|i: int|
        1 <= i < s.len() ==> is_alnum(#[trigger] s[i]) || s[i] == 45 || s[i] == 95
}

/// What a contract name may be.
pub open spec fn is_contract_name(s: Seq<u8>) -> bool {
    &&& CONTRACT_MIN_NAME_LENGTH <= s.len() <= CONTRACT_MAX_NAME_LENGTH
    &&& (is_contract_word(s) || s == transient_name())
}

pub fn byte_is_alpha(c: u8) -> (r: bool)
    ensures
        r == is_alpha(c),
{
    (65 <= c && c <= 90) || (97 <= c && c <= 122)
}

pub fn byte_is_digit(c: u8) -> (r: bool)
    ensures
        r == is_digit(c),
{
    48 <= c && c <= 57
}

pub fn byte_is_alnum(c: u8) -> (r: bool)
    ensures
        r == is_alnum(c),
{
    byte_is_alpha(c) || byte_is_digit(c)
}

fn byte_is_name_symbol(c: u8) -> (r: bool)
    ensures
        r == is_name_symbol(c),
{
    c == 45 || c == 95 || c == 33 || c == 63 || c == 43 || c == 60 || c == 62 || c
        == 61 || c == 47 || c == 42
}

/// Decides `is_clarity_name`.
pub fn check_clarity_name(s: &[u8]) -> (r: bool)
    ensures
        r == is_clarity_name(s@),
{
    let n = s.len();
    if n > MAX_STRING_LEN || n == 0 {
        return false;
    }
    if n == 1 {
        let c = s[0];
        if c == 45 || c == 43 || c == 61 || c == 47 || c == 42 || c == 60 || c == 62 {
            return true;
        }
    }
    if n == 2 && (s[0] == 60 || s[0] == 62) && s[1] == 61 {
        return true;
    }
    if !byte_is_alpha(s[0]) {
        return false;
    }
    let mut i: usize = 1;
    while i < n
        invariant
            1 <= i <= n,
            n == s@.len(),
            forall|j: int| 1 <= j < i ==> is_alnum(#[trigger] s@[j]) || is_name_symbol(s@[j]),
        decreases n - i,
    {
        if !(byte_is_alnum(s[i]) || byte_is_name_symbol(s[i])) {
            assert(!is_word_name(s@));
            return false;
        }
        i = i + 1;
    }
    true
}

/// Decides `is_contract_name`.
pub fn check_contract_name(s: &[u8]) -> (r: bool)
    ensures
        r == is_contract_name(s@),
{
    let n = s.len();
    if n < CONTRACT_MIN_NAME_LENGTH || n > CONTRACT_MAX_NAME_LENGTH {
        return false;
    }
    if n == 11 && s[0] == 95 && s[1] == 95 && s[2] == 116 && s[3] == 114 && s[4] == 97
        && s[5] == 110 && s[6] == 115 && s[7] == 105 && s[8] == 101 && s[9] == 110 && s[10]
        == 116 {
        assert(s@ =~= transient_name());
        return true;
    }
    assert(s@ != transient_name()) by {
        if s@ == transient_name() {
            assert(s@[0] == 95);
        }
    }
    if !byte_is_alpha(s[0]) {
        return false;
    }
    let mut i: usize = 1;
    while i < n
        invariant
            1 <= i <= n,
            n == s@.len(),
            forall|j: int| 1 <= j < i ==> is_alnum(#[trigger] s@[j]) || s@[j] == 45 || s@[j] == 95,
        decreases n - i,
    {
        let c = s[i];
        if !(byte_is_alnum(c) || c == 45 || c == 95) {
            assert(!is_contract_word(s@));
            return false;
        }
        i = i + 1;
    }
    true
}

/// A valid `is_clarity_name` identifier, held as its ASCII bytes.
#[derive(Debug, PartialEq, Eq, Hash, PartialOrd, Ord)]
pub struct ClarityName {
    bytes: Vec<u8>,
}

impl View for ClarityName {
    type V = Seq<u8>;

    closed spec fn view(&self) -> Seq<u8> {
        self.bytes@
    }
}

impl ClarityName {
    #[verifier::type_invariant]
    pub closed spec fn inv(self) -> bool {
        is_clarity_name(self.bytes@)
    }

    /// Every name of this type is a valid one.
    pub proof fn lemma_valid(self)
        requires
            self.inv(),
        ensures
            is_clarity_name(self@),
    {
    }

    pub fn duplicate(&self) -> (r: ClarityName)
        ensures
            r@ == self@,
    {
        proof { use_type_invariant(self); }
        let bytes = slice_to_vec(self.bytes.as_slice());
        assert(bytes@ =~= self.bytes@);
        ClarityName { bytes }
    }

    /// The name spelled by `bytes`, if it is a valid one.
    pub fn from_bytes(bytes: Vec<u8>) -> (r: Option<ClarityName>)
        ensures
            r is Some <==> is_clarity_name(bytes@),
            r matches Some(n) ==> n@ == bytes@,
    {
        if check_clarity_name(bytes.as_slice()) {
            Some(ClarityName { bytes })
        } else {
            None
        }
    }

    /// The name spelled by `s`, if it is a valid one.
    pub fn parse(s: &str) -> (r: Option<ClarityName>)
        ensures
            r is Some <==> is_clarity_name(s.spec_bytes()),
            r matches Some(n) ==> n@ == s.spec_bytes(),
    {
        let b = s.as_bytes();
        let v = slice_to_vec(b);
        Self::from_bytes(v)
    }

    pub fn as_bytes(&self) -> (r: &[u8])
        ensures
            r@ == self@,
    {
        self.bytes.as_slice()
    }

    pub fn len(&self) -> (r: usize)
        ensures
            r == self@.len(),
    {
        self.bytes.len()
    }
}

/// A valid `is_contract_name` contract name, held as its ASCII bytes.
#[derive(Debug, PartialEq, Eq, Hash, PartialOrd, Ord)]
pub struct ContractName {
    bytes: Vec<u8>,
}

impl View for ContractName {
    type V = Seq<u8>;

    closed spec fn view(&self) -> Seq<u8> {
        self.bytes@
    }
}

impl ContractName {
    #[verifier::type_invariant]
    pub closed spec fn inv(self) -> bool {
        is_contract_name(self.bytes@)
    }

    /// Every name of this type is a valid one.
    pub proof fn lemma_valid(self)
        requires
            self.inv(),
        ensures
            is_contract_name(self@),
    {
    }

    pub fn duplicate(&self) -> (r: ContractName)
        ensures
            r@ == self@,
    {
        proof { use_type_invariant(self); }
        let bytes = slice_to_vec(self.bytes.as_slice());
        assert(bytes@ =~= self.bytes@);
        ContractName { bytes }
    }

    /// The contract name spelled by `bytes`, if it is a valid one.
    pub fn from_bytes(bytes: Vec<u8>) -> (r: Option<ContractName>)
        ensures
            r is Some <==> is_contract_name(bytes@),
            r matches Some(n) ==> n@ == bytes@,
    {
        if check_contract_name(bytes.as_slice()) {
            Some(ContractName { bytes })
        } else {
            None
        }
    }

    /// The contract name spelled by `s`, if it is a valid one.
    pub fn parse(s: &str) -> (r: Option<ContractName>)
        ensures
            r is Some <==> is_contract_name(s.spec_bytes()),
            r matches Some(n) ==> n@ == s.spec_bytes(),
    {
        let b = s.as_bytes();
        let v = slice_to_vec(b);
        Self::from_bytes(v)
    }

    /// The name of the contract that holds throw-away programs.
    pub fn transient() -> (r: ContractName)
        ensures
            r@ == transient_name(),
    {
        let v: Vec<u8> = vec![95, 95, 116, 114, 97, 110, 115, 105, 101, 110, 116];
        assert(v@ =~= transient_name());
        assert(v@.len() == 11);
        ContractName { bytes: v }
    }

    pub fn as_bytes(&self) -> (r: &[u8])
        ensures
            r@ == self@,
    {
        self.bytes.as_slice()
    }
}

/// Copies a run of bytes into a new vector.
pub fn slice_to_vec(b: &[u8]) -> (r: Vec<u8>)
    ensures
        r@ == b@,
{
    let mut v: Vec<u8> = Vec::new();
    let mut i: usize = 0;
    while i < b.len()
        invariant
            i <= b@.len(),
            v@ == b@.subrange(0, i as int),
        decreases b@.len() - i,
    {
        v.push(b[i]);
        i = i + 1;
        assert(v@ =~= b@.subrange(0, i as int));
    }
    assert(v@ =~= b@);
    v
}

/// The bytes `b[start..end]` as a new vector.
pub fn copy_range(b: &[u8], start: usize, end: usize) -> (r: Vec<u8>)
    requires
        start <= end <= b@.len(),
    ensures
        r@ == b@.subrange(start as int, end as int),
{
    let mut v: Vec<u8> = Vec::new();
    let mut i: usize = start;
    while i < end
        invariant
            start <= i <= end,
            end <= b@.len(),
            v@ == b@.subrange(start as int, i as int),
        decreases end - i,
    {
        v.push(b[i]);
        i = i + 1;
        assert(v@ =~= b@.subrange(start as int, i as int));
    }
    v
}

} // verus!
