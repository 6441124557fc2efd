//! The lexer: source bytes to tokens with their line and column.
//!
//! Tokens are tried in a fixed order at each position and the first pattern
//! that matches wins. After a literal, the next token must close it
//! (whitespace, `)`, `}`, `,` or `:`).
use vstd::prelude::*;
use vstd::string::StringSliceAdditionalSpecFns;
use crate::names::{
    byte_is_alnum, byte_is_alpha, byte_is_digit, copy_range, is_alnum, is_alpha, is_clarity_name,
    is_contract_name, is_digit, ClarityName, ContractName,
};
use crate::errors::ParseErrors;
use crate::types::{
    is_principal_of, parse_standard_principal_bytes, principal_text_ok, BuffData, PrincipalData,
    QualifiedContractIdentifier, StandardPrincipalData, TraitIdentifier, Value, MAX_VALUE_SIZE,
};

verus! {

/// Longest source the lexer takes: its positions fit in 32 bits.
pub const MAX_SOURCE_LEN: usize = 0xffff_fffe;

/// The kinds of tokens, in the order in which they are tried.
#[derive(Debug, Clone, Copy, PartialEq, Eq)]
pub enum TokenType {
    StringLiteral,
    Whitespace,
    Comma,
    Colon,
    LParens,
    RParens,
    LCurly,
    RCurly,
    TraitReferenceLiteral,
    HexStringLiteral,
    UIntLiteral,
    IntLiteral,
    QuoteLiteral,
    FullyQualifiedFieldIdentifierLiteral,
    SugaredFieldIdentifierLiteral,
    FullyQualifiedContractIdentifierLiteral,
    SugaredContractIdentifierLiteral,
    PrincipalLiteral,
    Variable,
}

/// Sets of bytes that tokens are made of.
#[derive(Debug, Clone, Copy, PartialEq, Eq)]
pub enum ByteClass {
    /// ASCII 32 to 126.
    Printable,
    /// `\n`.
    Newline,
    /// space and tab.
    Blank,
    /// letters, digits, `_` and `-`.
    WordDash,
    /// hexadecimal digits of either case.
    HexDigit,
    /// decimal digits.
    Digit,
    /// the 32 digits of Crockford base 32: no I, L, O or U.
    C32,
    /// letters, digits and `-`.
    ContractChar,
    /// letters, digits, `_` and `-!?+<>=/*`.
    VarChar,
}

pub open spec fn in_class(c: u8, k: ByteClass) -> bool {
    match k {
        ByteClass::Printable => 32 <= c <= 126,
        ByteClass::Newline => c == 10,
        ByteClass::Blank => c == 32 || c == 9,
        ByteClass::WordDash => is_alnum(c) || c == 95 || c == 45,
        ByteClass::HexDigit => is_digit(c) || (97 <= c <= 102) || (65 <= c <= 70),
        ByteClass::Digit => is_digit(c),
        ByteClass::C32 => is_digit(c) || (65 <= c <= 90 && c != 73 && c != 76 && c != 79 && c != 85),
        ByteClass::ContractChar => is_alnum(c) || c == 45,
        ByteClass::VarChar => is_alnum(c) || c == 95 || c == 45 || c == 33 || c == 63 || c == 43
            || c == 60 || c == 62 || c == 61 || c == 47 || c == 42,
    }
}

fn byte_in_class(c: u8, k: ByteClass) -> (r: bool)
    ensures
        r == in_class(c, k),
{
    match k {
        ByteClass::Printable => 32 <= c && c <= 126,
        ByteClass::Newline => c == 10,
        ByteClass::Blank => c == 32 || c == 9,
        ByteClass::WordDash => byte_is_alnum(c) || c == 95 || c == 45,
        ByteClass::HexDigit => byte_is_digit(c) || (97 <= c && c <= 102) || (65 <= c && c <= 70),
        ByteClass::Digit => byte_is_digit(c),
        ByteClass::C32 => byte_is_digit(c) || (65 <= c && c <= 90 && c != 73 && c != 76 && c != 79
            && c != 85),
        ByteClass::ContractChar => byte_is_alnum(c) || c == 45,
        ByteClass::VarChar => byte_is_alnum(c) || c == 95 || c == 45 || c == 33 || c == 63 || c
            == 43 || c == 60 || c == 62 || c == 61 || c == 47 || c == 42,
    }
}

/// The byte at `j`, or 0 past either end.
pub open spec fn at(s: Seq<u8>, j: int) -> u8 {
    if 0 <= j < s.len() {
        s[j]
    } else {
        0
    }
}

fn byte_at(s: &[u8], j: usize) -> (r: u8)
    ensures
        r == at(s@, j as int),
{
    if j < s.len() {
        s[j]
    } else {
        0
    }
}

/// Length of the longest run of bytes of class `k` starting at `i`.
pub open spec fn run(s: Seq<u8>, i: int, k: ByteClass) -> nat
    decreases s.len() - i,
{
    if 0 <= i < s.len() && in_class(s[i], k) {
        1 + run(s, i + 1, k)
    } else {
        0
    }
}

proof fn lemma_run_bound(s: Seq<u8>, i: int, k: ByteClass)
    requires
        0 <= i,
    ensures
        i + run(s, i, k) <= if i < s.len() { s.len() as int } else { i },
    decreases s.len() - i,
{
    if 0 <= i < s.len() && in_class(s[i], k) {
        lemma_run_bound(s, i + 1, k);
    }
}

fn run_len(s: &[u8], i: usize, k: ByteClass) -> (r: usize)
    ensures
        r == run(s@, i as int, k),
        i + r <= if i < s@.len() { s@.len() as int } else { i as int },
{
    proof { lemma_run_bound(s@, i as int, k); }
    let mut j: usize = i;
    while j < s.len() && byte_in_class(s[j], k)
        invariant
            i <= j,
            j <= s@.len() || j == i,
            run(s@, i as int, k) == (j - i) + run(s@, j as int, k),
        decreases s@.len() - j,
    {
        j = j + 1;
    }
    j - i
}

/// Where a string literal whose body starts at `p` ends (just past its
/// closing quote). `\"` is first read as an escaped quote, and as a
/// backslash followed by the closing quote only when nothing later closes.
pub open spec fn str_end(s: Seq<u8>, p: int) -> Option<int>
    decreases s.len() - p,
{
    if p < 0 || p >= s.len() {
        None
    } else if s[p] == 92 && at(s, p + 1) == 34 {
        match str_end(s, p + 2) {
            Some(e) => Some(e),
            None => Some(p + 2),
        }
    } else if s[p] == 34 {
        Some(p + 1)
    } else if 32 <= s[p] <= 126 {
        str_end(s, p + 1)
    } else {
        None
    }
}

pub open spec fn min_nat(a: nat, b: nat) -> nat {
    if a < b {
        a
    } else {
        b
    }
}

/// `"` body `"`.
pub open spec fn m_string(s: Seq<u8>, i: int) -> nat {
    if at(s, i) == 34 {
        match str_end(s, i + 1) {
            Some(e) => (e - i) as nat,
            None => 0,
        }
    } else {
        0
    }
}

/// `;;` and printable bytes to the end of the line.
pub open spec fn m_comment(s: Seq<u8>, i: int) -> nat {
    if at(s, i) == 59 && at(s, i + 1) == 59 {
        2 + run(s, i + 2, ByteClass::Printable)
    } else {
        0
    }
}

/// A run of `\n`, or a run of spaces and tabs.
pub open spec fn m_space(s: Seq<u8>, i: int) -> nat {
    if at(s, i) == 10 {
        run(s, i, ByteClass::Newline)
    } else {
        run(s, i, ByteClass::Blank)
    }
}

/// `<name>`.
pub open spec fn m_trait(s: Seq<u8>, i: int) -> nat {
    let r = run(s, i + 1, ByteClass::WordDash);
    if at(s, i) == 60 && r >= 1 && at(s, i + 1 + r) == 62 {
        r + 2
    } else {
        0
    }
}

/// `0x` and hexadecimal digits.
pub open spec fn m_hex(s: Seq<u8>, i: int) -> nat {
    let r = run(s, i + 2, ByteClass::HexDigit);
    if at(s, i) == 48 && at(s, i + 1) == 120 && r >= 1 {
        r + 2
    } else {
        0
    }
}

/// `u` and decimal digits.
pub open spec fn m_uint(s: Seq<u8>, i: int) -> nat {
    let r = run(s, i + 1, ByteClass::Digit);
    if at(s, i) == 117 && r >= 1 {
        r + 1
    } else {
        0
    }
}

/// An optional `-` and decimal digits.
pub open spec fn m_int(s: Seq<u8>, i: int) -> nat {
    if at(s, i) == 45 {
        let r = run(s, i + 1, ByteClass::Digit);
        if r >= 1 {
            r + 1
        } else {
            0
        }
    } else {
        run(s, i, ByteClass::Digit)
    }
}

pub open spec fn has_word(s: Seq<u8>, i: int, w: Seq<u8>) -> bool {
    forall|j: int| 0 <= j < w.len() ==> at(s, i + j) == #[trigger] w[j]
}

pub open spec fn word_true() -> Seq<u8> {
    seq![116u8, 114, 117, 101]
}

pub open spec fn word_false() -> Seq<u8> {
    seq![102u8, 97, 108, 115, 101]
}

/// `'true` or `'false`.
pub open spec fn m_quote(s: Seq<u8>, i: int) -> nat {
    if at(s, i) == 39 && has_word(s, i + 1, word_true()) {
        5
    } else if at(s, i) == 39 && has_word(s, i + 1, word_false()) {
        6
    } else {
        0
    }
}

/// Number of address digits in a principal that starts at `i` (after `'`).
pub open spec fn addr_len(s: Seq<u8>, i: int) -> nat {
    run(s, i + 1, ByteClass::C32)
}

/// `'ADDRESS.contract.name`: 28 to 41 address digits, a contract name of 5
/// to 40 and a field name of up to 128.
pub open spec fn m_fq_field(s: Seq<u8>, i: int) -> nat {
    let a = addr_len(s, i);
    let b = run(s, i + 2 + a, ByteClass::ContractChar);
    let c = run(s, i + 3 + a + b, ByteClass::ContractChar);
    if at(s, i) == 39 && 28 <= a <= 41 && at(s, i + 1 + a) == 46 && 5 <= b <= 40 && at(
        s,
        i + 2 + a + b,
    ) == 46 && c >= 1 {
        3 + a + b + min_nat(c, 128)
    } else {
        0
    }
}

/// `.contract.name`.
pub open spec fn m_sugared_field(s: Seq<u8>, i: int) -> nat {
    let b = run(s, i + 1, ByteClass::ContractChar);
    let c = run(s, i + 2 + b, ByteClass::ContractChar);
    if at(s, i) == 46 && 5 <= b <= 40 && at(s, i + 1 + b) == 46 && c >= 1 {
        2 + b + min_nat(c, 128)
    } else {
        0
    }
}

/// `'ADDRESS.contract`.
pub open spec fn m_fq_contract(s: Seq<u8>, i: int) -> nat {
    let a = addr_len(s, i);
    let b = run(s, i + 2 + a, ByteClass::ContractChar);
    if at(s, i) == 39 && 28 <= a <= 41 && at(s, i + 1 + a) == 46 && b >= 5 {
        2 + a + min_nat(b, 40)
    } else {
        0
    }
}

/// `.contract`.
pub open spec fn m_sugared_contract(s: Seq<u8>, i: int) -> nat {
    let b = run(s, i + 1, ByteClass::ContractChar);
    if at(s, i) == 46 && b >= 5 {
        1 + min_nat(b, 40)
    } else {
        0
    }
}

/// `'ADDRESS`.
pub open spec fn m_principal(s: Seq<u8>, i: int) -> nat {
    let a = addr_len(s, i);
    if at(s, i) == 39 && a >= 28 {
        1 + min_nat(a, 41)
    } else {
        0
    }
}

pub open spec fn single(s: Seq<u8>, i: int, c: u8) -> nat {
    if at(s, i) == c {
        1
    } else {
        0
    }
}

/// The first pattern that matches at `i`, with the length it takes; a
/// length of 0 when none does.
pub open spec fn match_at(s: Seq<u8>, i: int) -> (TokenType, nat) {
    if m_string(s, i) > 0 {
        (TokenType::StringLiteral, m_string(s, i))
    } else if m_comment(s, i) > 0 {
        (TokenType::Whitespace, m_comment(s, i))
    } else if m_space(s, i) > 0 {
        (TokenType::Whitespace, m_space(s, i))
    } else if single(s, i, 44) > 0 {
        (TokenType::Comma, 1)
    } else if single(s, i, 58) > 0 {
        (TokenType::Colon, 1)
    } else if single(s, i, 40) > 0 {
        (TokenType::LParens, 1)
    } else if single(s, i, 41) > 0 {
        (TokenType::RParens, 1)
    } else if single(s, i, 123) > 0 {
        (TokenType::LCurly, 1)
    } else if single(s, i, 125) > 0 {
        (TokenType::RCurly, 1)
    } else if m_trait(s, i) > 0 {
        (TokenType::TraitReferenceLiteral, m_trait(s, i))
    } else if m_hex(s, i) > 0 {
        (TokenType::HexStringLiteral, m_hex(s, i))
    } else if m_uint(s, i) > 0 {
        (TokenType::UIntLiteral, m_uint(s, i))
    } else if m_int(s, i) > 0 {
        (TokenType::IntLiteral, m_int(s, i))
    } else if m_quote(s, i) > 0 {
        (TokenType::QuoteLiteral, m_quote(s, i))
    } else if m_fq_field(s, i) > 0 {
        (TokenType::FullyQualifiedFieldIdentifierLiteral, m_fq_field(s, i))
    } else if m_sugared_field(s, i) > 0 {
        (TokenType::SugaredFieldIdentifierLiteral, m_sugared_field(s, i))
    } else if m_fq_contract(s, i) > 0 {
        (TokenType::FullyQualifiedContractIdentifierLiteral, m_fq_contract(s, i))
    } else if m_sugared_contract(s, i) > 0 {
        (TokenType::SugaredContractIdentifierLiteral, m_sugared_contract(s, i))
    } else if m_principal(s, i) > 0 {
        (TokenType::PrincipalLiteral, m_principal(s, i))
    } else {
        (TokenType::Variable, run(s, i, ByteClass::VarChar))
    }
}

fn match_string(s: &[u8], i: usize) -> (r: usize)
    requires
        i < s@.len() <= MAX_SOURCE_LEN,
    ensures
        r == m_string(s@, i as int),
        i + r <= s@.len(),
{
    if s[i] != 34 {
        return 0;
    }
    let ghost sv = s@;
    let mut p: usize = i + 1;
    let mut fallback: usize = 0;
    while p < s.len()
        invariant
            i < p <= s@.len() + 1,
            sv == s@,
            at(sv, i as int) == 34,
            fallback == 0 || (i + 1 < fallback <= p && fallback <= s@.len()),
            str_end(sv, i as int + 1) == if str_end(sv, p as int) is Some {
                str_end(sv, p as int)
            } else if fallback == 0 {
                None
            } else {
                Some(fallback as int)
            },
        decreases s@.len() + 1 - p,
    {
        proof { lemma_str_end_bound(sv, p as int + 2); }
        let c = s[p];
        if c == 92 && byte_at(s, p + 1) == 34 {
            fallback = p + 2;
            p = p + 2;
        } else if c == 34 {
            assert(str_end(sv, p as int) == Some(p as int + 1));
            return p + 1 - i;
        } else if 32 <= c && c <= 126 {
            p = p + 1;
        } else {
            assert(str_end(sv, p as int) is None);
            if fallback == 0 {
                return 0;
            }
            return fallback - i;
        }
    }
    if fallback == 0 {
        0
    } else {
        fallback - i
    }
}

proof fn lemma_str_end_bound(s: Seq<u8>, p: int)
    ensures
        str_end(s, p) matches Some(e) ==> p < e <= s.len(),
    decreases s.len() - p,
{
    if 0 <= p < s.len() {
        lemma_str_end_bound(s, p + 1);
        if p + 2 <= s.len() {
            lemma_str_end_bound(s, p + 2);
        }
    }
}

fn match_comment(s: &[u8], i: usize) -> (r: usize)
    requires
        i < s@.len() <= MAX_SOURCE_LEN,
    ensures
        r == m_comment(s@, i as int),
        i + r <= s@.len(),
{
    if s[i] == 59 && byte_at(s, i + 1) == 59 {
        2 + run_len(s, i + 2, ByteClass::Printable)
    } else {
        0
    }
}

fn match_space(s: &[u8], i: usize) -> (r: usize)
    requires
        i < s@.len() <= MAX_SOURCE_LEN,
    ensures
        r == m_space(s@, i as int),
        i + r <= s@.len(),
{
    if s[i] == 10 {
        run_len(s, i, ByteClass::Newline)
    } else {
        run_len(s, i, ByteClass::Blank)
    }
}

fn match_trait(s: &[u8], i: usize) -> (r: usize)
    requires
        i < s@.len() <= MAX_SOURCE_LEN,
    ensures
        r == m_trait(s@, i as int),
        i + r <= s@.len(),
{
    let r = run_len(s, i + 1, ByteClass::WordDash);
    if s[i] == 60 && r >= 1 && byte_at(s, i + 1 + r) == 62 {
        r + 2
    } else {
        0
    }
}

fn match_hex(s: &[u8], i: usize) -> (r: usize)
    requires
        i < s@.len() <= MAX_SOURCE_LEN,
    ensures
        r == m_hex(s@, i as int),
        i + r <= s@.len(),
{
    let r = run_len(s, i + 2, ByteClass::HexDigit);
    if s[i] == 48 && byte_at(s, i + 1) == 120 && r >= 1 {
        r + 2
    } else {
        0
    }
}

fn match_uint(s: &[u8], i: usize) -> (r: usize)
    requires
        i < s@.len() <= MAX_SOURCE_LEN,
    ensures
        r == m_uint(s@, i as int),
        i + r <= s@.len(),
{
    let r = run_len(s, i + 1, ByteClass::Digit);
    if s[i] == 117 && r >= 1 {
        r + 1
    } else {
        0
    }
}

fn match_int(s: &[u8], i: usize) -> (r: usize)
    requires
        i < s@.len() <= MAX_SOURCE_LEN,
    ensures
        r == m_int(s@, i as int),
        i + r <= s@.len(),
{
    if s[i] == 45 {
        let r = run_len(s, i + 1, ByteClass::Digit);
        if r >= 1 {
            r + 1
        } else {
            0
        }
    } else {
        run_len(s, i, ByteClass::Digit)
    }
}

fn match_quote(s: &[u8], i: usize) -> (r: usize)
    requires
        i < s@.len() <= MAX_SOURCE_LEN,
    ensures
        r == m_quote(s@, i as int),
        i + r <= s@.len(),
{
    if s[i] != 39 {
        return 0;
    }
    let t = byte_at(s, i + 1) == 116 && byte_at(s, i + 2) == 114 && byte_at(s, i + 3) == 117
        && byte_at(s, i + 4) == 101;
    assert(t == has_word(s@, i as int + 1, word_true())) by {
        if !t {
            if has_word(s@, i as int + 1, word_true()) {
                assert(at(s@, i + 1 + 0) == word_true()[0]);
                assert(at(s@, i + 1 + 1) == word_true()[1]);
                assert(at(s@, i + 1 + 2) == word_true()[2]);
                assert(at(s@, i + 1 + 3) == word_true()[3]);
            }
        }
    }
    if t {
        return 5;
    }
    let f = byte_at(s, i + 1) == 102 && byte_at(s, i + 2) == 97 && byte_at(s, i + 3) == 108
        && byte_at(s, i + 4) == 115 && byte_at(s, i + 5) == 101;
    assert(f == has_word(s@, i as int + 1, word_false())) by {
        if !f {
            if has_word(s@, i as int + 1, word_false()) {
                assert(at(s@, i + 1 + 0) == word_false()[0]);
                assert(at(s@, i + 1 + 1) == word_false()[1]);
                assert(at(s@, i + 1 + 2) == word_false()[2]);
                assert(at(s@, i + 1 + 3) == word_false()[3]);
                assert(at(s@, i + 1 + 4) == word_false()[4]);
            }
        }
    }
    if f {
        6
    } else {
        0
    }
}

fn min_usize(a: usize, b: usize) -> (r: usize)
    ensures
        r == min_nat(a as nat, b as nat),
{
    if a < b {
        a
    } else {
        b
    }
}

fn match_fq_field(s: &[u8], i: usize) -> (r: usize)
    requires
        i < s@.len() <= MAX_SOURCE_LEN,
    ensures
        r == m_fq_field(s@, i as int),
        i + r <= s@.len(),
{
    if s[i] != 39 {
        return 0;
    }
    let a = run_len(s, i + 1, ByteClass::C32);
    if a < 28 || a > 41 || byte_at(s, i + 1 + a) != 46 {
        return 0;
    }
    let b = run_len(s, i + 2 + a, ByteClass::ContractChar);
    if b < 5 || b > 40 || byte_at(s, i + 2 + a + b) != 46 {
        return 0;
    }
    let c = run_len(s, i + 3 + a + b, ByteClass::ContractChar);
    if c < 1 {
        return 0;
    }
    3 + a + b + min_usize(c, 128)
}

fn match_sugared_field(s: &[u8], i: usize) -> (r: usize)
    requires
        i < s@.len() <= MAX_SOURCE_LEN,
    ensures
        r == m_sugared_field(s@, i as int),
        i + r <= s@.len(),
{
    if s[i] != 46 {
        return 0;
    }
    let b = run_len(s, i + 1, ByteClass::ContractChar);
    if b < 5 || b > 40 || byte_at(s, i + 1 + b) != 46 {
        return 0;
    }
    let c = run_len(s, i + 2 + b, ByteClass::ContractChar);
    if c < 1 {
        return 0;
    }
    2 + b + min_usize(c, 128)
}

fn match_fq_contract(s: &[u8], i: usize) -> (r: usize)
    requires
        i < s@.len() <= MAX_SOURCE_LEN,
    ensures
        r == m_fq_contract(s@, i as int),
        i + r <= s@.len(),
{
    if s[i] != 39 {
        return 0;
    }
    let a = run_len(s, i + 1, ByteClass::C32);
    if a < 28 || a > 41 || byte_at(s, i + 1 + a) != 46 {
        return 0;
    }
    let b = run_len(s, i + 2 + a, ByteClass::ContractChar);
    if b < 5 {
        return 0;
    }
    2 + a + min_usize(b, 40)
}

fn match_sugared_contract(s: &[u8], i: usize) -> (r: usize)
    requires
        i < s@.len() <= MAX_SOURCE_LEN,
    ensures
        r == m_sugared_contract(s@, i as int),
        i + r <= s@.len(),
{
    if s[i] != 46 {
        return 0;
    }
    let b = run_len(s, i + 1, ByteClass::ContractChar);
    if b < 5 {
        return 0;
    }
    1 + min_usize(b, 40)
}

fn match_principal(s: &[u8], i: usize) -> (r: usize)
    requires
        i < s@.len() <= MAX_SOURCE_LEN,
    ensures
        r == m_principal(s@, i as int),
        i + r <= s@.len(),
{
    if s[i] != 39 {
        return 0;
    }
    let a = run_len(s, i + 1, ByteClass::C32);
    if a < 28 {
        return 0;
    }
    1 + min_usize(a, 41)
}

/// The first pattern that matches at `i` and the length it takes (0: none).
fn match_token(s: &[u8], i: usize) -> (r: (TokenType, usize))
    requires
        i < s@.len() <= MAX_SOURCE_LEN,
    ensures
        r.1 == match_at(s@, i as int).1,
        r.1 > 0 ==> r.0 == match_at(s@, i as int).0,
        i + r.1 <= s@.len(),
{
    let n = match_string(s, i);
    if n > 0 {
        return (TokenType::StringLiteral, n);
    }
    let n = match_comment(s, i);
    if n > 0 {
        return (TokenType::Whitespace, n);
    }
    let n = match_space(s, i);
    if n > 0 {
        return (TokenType::Whitespace, n);
    }
    let c = s[i];
    if c == 44 {
        return (TokenType::Comma, 1);
    }
    if c == 58 {
        return (TokenType::Colon, 1);
    }
    if c == 40 {
        return (TokenType::LParens, 1);
    }
    if c == 41 {
        return (TokenType::RParens, 1);
    }
    if c == 123 {
        return (TokenType::LCurly, 1);
    }
    if c == 125 {
        return (TokenType::RCurly, 1);
    }
    let n = match_trait(s, i);
    if n > 0 {
        return (TokenType::TraitReferenceLiteral, n);
    }
    let n = match_hex(s, i);
    if n > 0 {
        return (TokenType::HexStringLiteral, n);
    }
    let n = match_uint(s, i);
    if n > 0 {
        return (TokenType::UIntLiteral, n);
    }
    let n = match_int(s, i);
    if n > 0 {
        return (TokenType::IntLiteral, n);
    }
    let n = match_quote(s, i);
    if n > 0 {
        return (TokenType::QuoteLiteral, n);
    }
    let n = match_fq_field(s, i);
    if n > 0 {
        return (TokenType::FullyQualifiedFieldIdentifierLiteral, n);
    }
    let n = match_sugared_field(s, i);
    if n > 0 {
        return (TokenType::SugaredFieldIdentifierLiteral, n);
    }
    let n = match_fq_contract(s, i);
    if n > 0 {
        return (TokenType::FullyQualifiedContractIdentifierLiteral, n);
    }
    let n = match_sugared_contract(s, i);
    if n > 0 {
        return (TokenType::SugaredContractIdentifierLiteral, n);
    }
    let n = match_principal(s, i);
    if n > 0 {
        return (TokenType::PrincipalLiteral, n);
    }
    (TokenType::Variable, run_len(s, i, ByteClass::VarChar))
}


/// A token as the lexer hands it on.
#[derive(Debug, PartialEq, Eq)]
pub enum LexItem {
    LeftParen,
    RightParen,
    LeftCurly,
    RightCurly,
    /// A literal value and the length of its source text.
    LiteralValue(usize, Value),
    /// `.contract` and the length of its source text.
    SugaredContractIdentifier(usize, ContractName),
    /// `.contract.name` and the length of its source text.
    SugaredFieldIdentifier(usize, ContractName, ClarityName),
    /// `'ADDRESS.contract.name` and the length of its source text.
    FieldIdentifier(usize, TraitIdentifier),
    /// `<name>` and the length of its source text.
    TraitReference(usize, ClarityName),
    Variable(ClarityName),
    CommaSeparator,
    ColonSeparator,
    Whitespace,
}

/// The value of a run of decimal digits.
pub open spec fn digits_value(t: Seq<u8>) -> nat
    decreases t.len(),
{
    if t.len() == 0 {
        0
    } else {
        digits_value(t.drop_last()) * 10 + (t.last() - 48) as nat
    }
}

/// The value of an optionally negative run of decimal digits.
pub open spec fn int_text_value(t: Seq<u8>) -> int {
    if t.len() > 0 && t[0] == 45 {
        -(digits_value(t.subrange(1, t.len() as int)) as int)
    } else {
        digits_value(t) as int
    }
}

pub open spec fn hex_val(c: u8) -> int {
    if 48 <= c <= 57 {
        c - 48
    } else if 97 <= c <= 102 {
        c - 87
    } else {
        c - 55
    }
}

/// The bytes that pairs of hexadecimal digits spell.
pub open spec fn hex_decode(t: Seq<u8>) -> Seq<u8> {
    Seq::new(t.len() / 2, |k: int| (hex_val(t[2 * k]) * 16 + hex_val(t[2 * k + 1])) as u8)
}

/// `t` with each non-overlapping pair `a b`, read left to right, replaced by `c`.
pub open spec fn replace_pair(t: Seq<u8>, a: u8, b: u8, c: u8) -> Seq<u8>
    decreases t.len(),
{
    if t.len() == 0 {
        t
    } else if t.len() >= 2 && t[0] == a && t[1] == b {
        seq![c] + replace_pair(t.subrange(2, t.len() as int), a, b, c)
    } else {
        seq![t[0]] + replace_pair(t.subrange(1, t.len() as int), a, b, c)
    }
}

/// The bytes of a string literal's body: `\"` becomes `"`, then `\\` becomes `\`.
pub open spec fn unescape(t: Seq<u8>) -> Seq<u8> {
    replace_pair(replace_pair(t, 92, 34, 34), 92, 92, 92)
}

pub open spec fn text(s: Seq<u8>, p: int, l: nat) -> Seq<u8> {
    s.subrange(p, p + l)
}

/// Where the contract name of `'ADDRESS.contract...` at `p` ends.
pub open spec fn fq_contract_end(s: Seq<u8>, p: int) -> int {
    p + 2 + addr_len(s, p) + run(s, p + 2 + addr_len(s, p), ByteClass::ContractChar)
}

/// Where the contract name of `.contract.name` at `p` ends.
pub open spec fn sugared_contract_end(s: Seq<u8>, p: int) -> int {
    p + 1 + run(s, p + 1, ByteClass::ContractChar)
}

/// Whether the token of kind `t` at `p` of length `l` yields a value.
pub open spec fn decodes(s: Seq<u8>, t: TokenType, p: int, l: nat) -> bool {
    let a = addr_len(s, p);
    match t {
        TokenType::StringLiteral => unescape(s.subrange(p + 1, p + l - 1)).len() <= MAX_VALUE_SIZE,
        TokenType::HexStringLiteral => (l - 2) % 2 == 0 && (l - 2) / 2 <= MAX_VALUE_SIZE,
        TokenType::UIntLiteral => digits_value(s.subrange(p + 1, p + l)) <= u128::MAX,
        TokenType::IntLiteral => i128::MIN <= int_text_value(text(s, p, l)) <= i128::MAX,
        TokenType::FullyQualifiedFieldIdentifierLiteral => principal_text_ok(
            s.subrange(p + 1, p + 1 + a),
        ) && is_contract_name(s.subrange(p + 2 + a, fq_contract_end(s, p))) && is_clarity_name(
            s.subrange(fq_contract_end(s, p) + 1, p + l),
        ),
        TokenType::SugaredFieldIdentifierLiteral => is_contract_name(
            s.subrange(p + 1, sugared_contract_end(s, p)),
        ) && is_clarity_name(s.subrange(sugared_contract_end(s, p) + 1, p + l)),
        TokenType::FullyQualifiedContractIdentifierLiteral => principal_text_ok(
            s.subrange(p + 1, p + 1 + a),
        ) && is_contract_name(s.subrange(p + 2 + a, p + l)),
        TokenType::SugaredContractIdentifierLiteral => is_contract_name(s.subrange(p + 1, p + l)),
        TokenType::PrincipalLiteral => principal_text_ok(s.subrange(p + 1, p + l)),
        TokenType::TraitReferenceLiteral => is_clarity_name(s.subrange(p + 1, p + l - 1)),
        TokenType::Variable => is_clarity_name(text(s, p, l)),
        _ => true,
    }
}

/// Whether `item` is what the token of kind `t` at `p` of length `l` yields.
pub open spec fn item_matches(item: LexItem, s: Seq<u8>, t: TokenType, p: int, l: nat) -> bool {
    let a = addr_len(s, p);
    match t {
        TokenType::Whitespace => item is Whitespace,
        TokenType::Comma => item is CommaSeparator,
        TokenType::Colon => item is ColonSeparator,
        TokenType::LParens => item is LeftParen,
        TokenType::RParens => item is RightParen,
        TokenType::LCurly => item is LeftCurly,
        TokenType::RCurly => item is RightCurly,
        TokenType::StringLiteral => item matches LexItem::LiteralValue(n, Value::Buffer(b)) && n == l
            && b.data@ == unescape(s.subrange(p + 1, p + l - 1)),
        TokenType::HexStringLiteral => item matches LexItem::LiteralValue(n, Value::Buffer(b)) && n
            == l && b.data@ == hex_decode(s.subrange(p + 2, p + l)),
        TokenType::UIntLiteral => item matches LexItem::LiteralValue(n, Value::UInt(v)) && n == l
            && v == digits_value(s.subrange(p + 1, p + l)),
        TokenType::IntLiteral => item matches LexItem::LiteralValue(n, Value::Int(v)) && n == l && v
            == int_text_value(text(s, p, l)),
        TokenType::QuoteLiteral => item matches LexItem::LiteralValue(n, Value::Bool(v)) && n == l
            && v == (l == 5),
        TokenType::FullyQualifiedFieldIdentifierLiteral => item matches LexItem::FieldIdentifier(
            n,
            tr,
        ) && n == l && is_principal_of(s.subrange(p + 1, p + 1 + a), tr.contract_identifier.issuer)
            && tr.contract_identifier.name@ == s.subrange(p + 2 + a, fq_contract_end(s, p))
            && tr.name@ == s.subrange(fq_contract_end(s, p) + 1, p + l),
        TokenType::SugaredFieldIdentifierLiteral => item matches LexItem::SugaredFieldIdentifier(
            n,
            c,
            f,
        ) && n == l && c@ == s.subrange(p + 1, sugared_contract_end(s, p)) && f@ == s.subrange(
            sugared_contract_end(s, p) + 1,
            p + l,
        ),
        TokenType::FullyQualifiedContractIdentifierLiteral => item matches LexItem::LiteralValue(
            n,
            Value::Principal(PrincipalData::Contract(q)),
        ) && n == l && is_principal_of(s.subrange(p + 1, p + 1 + a), q.issuer) && q.name@
            == s.subrange(p + 2 + a, p + l),
        TokenType::SugaredContractIdentifierLiteral => item matches LexItem::SugaredContractIdentifier(
            n,
            c,
        ) && n == l && c@ == s.subrange(p + 1, p + l),
        TokenType::PrincipalLiteral => item matches LexItem::LiteralValue(
            n,
            Value::Principal(PrincipalData::Standard(sp)),
        ) && n == l && is_principal_of(s.subrange(p + 1, p + l), sp),
        TokenType::TraitReferenceLiteral => item matches LexItem::TraitReference(n, nm) && n == l
            && nm@ == s.subrange(p + 1, p + l - 1),
        TokenType::Variable => item matches LexItem::Variable(v) && v@ == text(s, p, l),
    }
}

/// Whether `e` is the error for a token of kind `t` at `p` of length `l`
/// that yields no value.
pub open spec fn decode_error_is(e: ParseErrors, s: Seq<u8>, t: TokenType, p: int, l: nat) -> bool {
    let x = text(s, p, l);
    match t {
        TokenType::StringLiteral => e is FailedParsingBuffer && e.text() == x,
        TokenType::HexStringLiteral => if (l - 2) % 2 != 0 {
            e is FailedParsingHexValue && e.text() == x
        } else {
            e is FailedParsingBuffer && e.text() == x
        },
        TokenType::UIntLiteral => e is FailedParsingIntValue && e.text() == x,
        TokenType::IntLiteral => e is FailedParsingIntValue && e.text() == x,
        TokenType::FullyQualifiedFieldIdentifierLiteral => e is FailedParsingField && e.text() == x,
        TokenType::SugaredFieldIdentifierLiteral => e is FailedParsingField && e.text() == x,
        TokenType::TraitReferenceLiteral => e is IllegalVariableName && e.text() == x,
        TokenType::Variable => e is IllegalVariableName && e.text() == x,
        _ => e is FailedParsingPrincipal && e.text() == x,
    }
}


proof fn lemma_run_all(s: Seq<u8>, i: int, k: ByteClass)
    requires
        0 <= i,
    ensures
        i + run(s, i, k) <= s.len() || run(s, i, k) == 0,
        forall|j: int| i <= j < i + run(s, i, k) ==> in_class(#[trigger] s[j], k),
    decreases s.len() - i,
{
    if 0 <= i < s.len() && in_class(s[i], k) {
        lemma_run_all(s, i + 1, k);
        assert(run(s, i, k) == 1 + run(s, i + 1, k));
        assert forall|j: int| i <= j < i + run(s, i, k) implies in_class(#[trigger] s[j], k) by {
            if j > i {
                assert(i + 1 <= j < i + 1 + run(s, i + 1, k));
            }
        }
    }
}

proof fn lemma_digits_prefix_grows(t: Seq<u8>, j: int, k: int)
    requires
        0 <= j <= k <= t.len(),
        forall|m: int| 0 <= m < t.len() ==> is_digit(#[trigger] t[m]),
    ensures
        digits_value(t.subrange(0, j)) <= digits_value(t.subrange(0, k)),
    decreases k - j,
{
    if j < k {
        lemma_digits_prefix_grows(t, j, k - 1);
        assert(t.subrange(0, k).drop_last() =~= t.subrange(0, k - 1));
    }
}

/// The value of the decimal digits `s[start..end]`, or `None` past `u128::MAX`.
fn parse_decimal(s: &[u8], start: usize, end: usize) -> (r: Option<u128>)
    requires
        start <= end <= s@.len(),
        forall|j: int| start <= j < end ==> is_digit(#[trigger] s@[j]),
    ensures
        r matches Some(v) ==> v == digits_value(s@.subrange(start as int, end as int)),
        r is None ==> digits_value(s@.subrange(start as int, end as int)) > u128::MAX,
{
    let ghost t = s@.subrange(start as int, end as int);
    let mut acc: u128 = 0;
    let mut k: usize = start;
    while k < end
        invariant
            start <= k <= end <= s@.len(),
            t == s@.subrange(start as int, end as int),
            forall|j: int| start <= j < end ==> is_digit(#[trigger] s@[j]),
            acc == digits_value(t.subrange(0, k - start)),
        decreases end - k,
    {
        let d = (s[k] - 48) as u128;
        assert(t.subrange(0, k - start + 1).drop_last() =~= t.subrange(0, k - start));
        assert(t[k - start] == s@[k as int]);
        proof {
            assert forall|m: int| 0 <= m < t.len() implies is_digit(#[trigger] t[m]) by {
                assert(t[m] == s@[start + m]);
            }
        }
        match acc.checked_mul(10) {
            None => {
                proof { lemma_digits_prefix_grows(t, k - start + 1, t.len() as int); }
                assert(t.subrange(0, t.len() as int) =~= t);
                return None;
            },
            Some(m) => match m.checked_add(d) {
                None => {
                    proof { lemma_digits_prefix_grows(t, k - start + 1, t.len() as int); }
                    assert(t.subrange(0, t.len() as int) =~= t);
                    return None;
                },
                Some(v) => {
                    acc = v;
                },
            },
        }
        k = k + 1;
    }
    assert(t.subrange(0, t.len() as int) =~= t);
    Some(acc)
}

proof fn lemma_replace_step(t: Seq<u8>, k: int, a: u8, b: u8, c: u8)
    requires
        0 <= k < t.len(),
    ensures
        (k + 1 < t.len() && t[k] == a && t[k + 1] == b) ==> replace_pair(t.subrange(k, t.len() as int), a, b, c)
            == seq![c] + replace_pair(t.subrange(k + 2, t.len() as int), a, b, c),
        !(k + 1 < t.len() && t[k] == a && t[k + 1] == b) ==> replace_pair(t.subrange(k, t.len() as int), a, b, c)
            == seq![t[k]] + replace_pair(t.subrange(k + 1, t.len() as int), a, b, c),
{
    let u = t.subrange(k, t.len() as int);
    if k + 1 < t.len() {
        assert(u.subrange(2, u.len() as int) =~= t.subrange(k + 2, t.len() as int));
    }
    assert(u.subrange(1, u.len() as int) =~= t.subrange(k + 1, t.len() as int));
}

/// `t` with each pair `a b`, read left to right, replaced by `c`.
fn replace_bytes(t: &Vec<u8>, a: u8, b: u8, c: u8) -> (r: Vec<u8>)
    ensures
        r@ == replace_pair(t@, a, b, c),
{
    let mut out: Vec<u8> = Vec::new();
    let mut k: usize = 0;
    let n = t.len();
    assert(t@.subrange(0, n as int) =~= t@);
    assert(out@ + replace_pair(t@, a, b, c) =~= replace_pair(t@, a, b, c));
    while k < n
        invariant
            k <= n == t@.len(),
            out@ + replace_pair(t@.subrange(k as int, n as int), a, b, c) == replace_pair(t@, a, b, c),
        decreases n - k,
    {
        proof { lemma_replace_step(t@, k as int, a, b, c); }
        if k + 1 < n && t[k] == a && t[k + 1] == b {
            out.push(c);
            assert(out@ + replace_pair(t@.subrange(k + 2, n as int), a, b, c) =~= replace_pair(t@, a, b, c)) by {
                let ghost o = out@.drop_last();
                assert(out@ =~= o + seq![c]);
            }
            k = k + 2;
        } else {
            let x = t[k];
            out.push(x);
            assert(out@ + replace_pair(t@.subrange(k + 1, n as int), a, b, c) =~= replace_pair(t@, a, b, c)) by {
                let ghost o = out@.drop_last();
                assert(out@ =~= o + seq![x]);
            }
            k = k + 1;
        }
    }
    assert(t@.subrange(n as int, n as int) =~= Seq::<u8>::empty());
    assert(out@ + Seq::<u8>::empty() =~= out@);
    out
}

fn hex_digit_value(c: u8) -> (r: u8)
    requires
        in_class(c, ByteClass::HexDigit),
    ensures
        r == hex_val(c),
        r < 16,
{
    if 48 <= c && c <= 57 {
        c - 48
    } else if 97 <= c && c <= 102 {
        c - 87
    } else {
        c - 55
    }
}

/// The bytes spelled by the hex digits `s[start..end]`, an even number of them.
fn hex_bytes(s: &[u8], start: usize, end: usize) -> (r: Vec<u8>)
    requires
        start <= end <= s@.len(),
        (end - start) % 2 == 0,
        forall|j: int| start <= j < end ==> in_class(#[trigger] s@[j], ByteClass::HexDigit),
    ensures
        r@ == hex_decode(s@.subrange(start as int, end as int)),
{
    let ghost t = s@.subrange(start as int, end as int);
    let mut out: Vec<u8> = Vec::new();
    let mut k: usize = start;
    while k < end
        invariant
            start <= k <= end <= s@.len(),
            (k - start) % 2 == 0,
            (end - start) % 2 == 0,
            t == s@.subrange(start as int, end as int),
            forall|j: int| start <= j < end ==> in_class(#[trigger] s@[j], ByteClass::HexDigit),
            out@.len() == (k - start) / 2,
            forall|j: int| 0 <= j < out@.len() ==> out@[j] == (hex_val(t[2 * j]) * 16 + hex_val(t[2 * j + 1])) as u8,
        decreases end - k,
    {
        let hi = hex_digit_value(s[k]);
        let lo = hex_digit_value(s[k + 1]);
        let ghost j = out@.len() as int;
        assert(t[2 * j] == s@[k as int]);
        assert(t[2 * j + 1] == s@[k + 1]);
        out.push(hi * 16 + lo);
        k = k + 2;
    }
    assert(out@ =~= hex_decode(t));
    out
}


/// Decodes the token of kind `t` at `p` of length `l` into what the lexer yields.
fn decode_token(s: &[u8], t: TokenType, p: usize, l: usize) -> (r: Result<LexItem, ParseErrors>)
    requires
        p < s@.len() <= MAX_SOURCE_LEN,
        l > 0,
        match_at(s@, p as int) == (t, l as nat),
        p + l <= s@.len(),
    ensures
        r is Ok <==> decodes(s@, t, p as int, l as nat),
        r matches Ok(item) ==> item_matches(item, s@, t, p as int, l as nat),
        r matches Err(e) ==> decode_error_is(e, s@, t, p as int, l as nat),
{
    let ghost sv = s@;
    let ghost pi = p as int;
    match t {
        TokenType::Whitespace => Ok(LexItem::Whitespace),
        TokenType::Comma => Ok(LexItem::CommaSeparator),
        TokenType::Colon => Ok(LexItem::ColonSeparator),
        TokenType::LParens => Ok(LexItem::LeftParen),
        TokenType::RParens => Ok(LexItem::RightParen),
        TokenType::LCurly => Ok(LexItem::LeftCurly),
        TokenType::RCurly => Ok(LexItem::RightCurly),
        TokenType::Variable => match ClarityName::from_bytes(copy_range(s, p, p + l)) {
            Some(name) => Ok(LexItem::Variable(name)),
            None => Err(ParseErrors::IllegalVariableName(copy_range(s, p, p + l))),
        },
        TokenType::QuoteLiteral => Ok(LexItem::LiteralValue(l, Value::Bool(l == 5))),
        TokenType::IntLiteral => {
            let neg = s[p] == 45;
            let start = if neg {
                p + 1
            } else {
                p
            };
            proof {
                lemma_run_all(sv, start as int, ByteClass::Digit);
                let x = text(sv, pi, l as nat);
                if neg {
                    assert(x.subrange(1, x.len() as int) =~= sv.subrange(start as int, pi + l));
                } else {
                    assert(x =~= sv.subrange(start as int, pi + l));
                }
            }
            match parse_decimal(s, start, p + l) {
                None => Err(ParseErrors::FailedParsingIntValue(copy_range(s, p, p + l))),
                Some(m) => {
                    if neg {
                        if m > 0x8000_0000_0000_0000_0000_0000_0000_0000u128 {
                            Err(ParseErrors::FailedParsingIntValue(copy_range(s, p, p + l)))
                        } else if m == 0x8000_0000_0000_0000_0000_0000_0000_0000u128 {
                            Ok(LexItem::LiteralValue(l, Value::Int(i128::MIN)))
                        } else {
                            Ok(LexItem::LiteralValue(l, Value::Int(-(m as i128))))
                        }
                    } else if m > 0x7fff_ffff_ffff_ffff_ffff_ffff_ffff_ffffu128 {
                        Err(ParseErrors::FailedParsingIntValue(copy_range(s, p, p + l)))
                    } else {
                        Ok(LexItem::LiteralValue(l, Value::Int(m as i128)))
                    }
                },
            }
        },
        TokenType::UIntLiteral => {
            proof { lemma_run_all(sv, pi + 1, ByteClass::Digit); }
            match parse_decimal(s, p + 1, p + l) {
                None => Err(ParseErrors::FailedParsingIntValue(copy_range(s, p, p + l))),
                Some(m) => Ok(LexItem::LiteralValue(l, Value::UInt(m))),
            }
        },
        TokenType::HexStringLiteral => {
            proof { lemma_run_all(sv, pi + 2, ByteClass::HexDigit); }
            if (l - 2) % 2 != 0 {
                Err(ParseErrors::FailedParsingHexValue(copy_range(s, p, p + l)))
            } else if ((l - 2) / 2) as u64 > MAX_VALUE_SIZE {
                Err(ParseErrors::FailedParsingBuffer(copy_range(s, p, p + l)))
            } else {
                let bytes = hex_bytes(s, p + 2, p + l);
                Ok(LexItem::LiteralValue(l, Value::Buffer(BuffData { data: bytes })))
            }
        },
        TokenType::StringLiteral => {
            proof { lemma_str_end_bound(sv, pi + 1); }
            let body = copy_range(s, p + 1, p + l - 1);
            let quotes = replace_bytes(&body, 92, 34, 34);
            let bytes = replace_bytes(&quotes, 92, 92, 92);
            if bytes.len() as u64 > MAX_VALUE_SIZE {
                Err(ParseErrors::FailedParsingBuffer(copy_range(s, p, p + l)))
            } else {
                Ok(LexItem::LiteralValue(l, Value::Buffer(BuffData { data: bytes })))
            }
        },
        TokenType::PrincipalLiteral => {
            let addr = copy_range(s, p + 1, p + l);
            match parse_standard_principal_bytes(addr.as_slice()) {
                Some(sp) => Ok(LexItem::LiteralValue(l, Value::Principal(PrincipalData::Standard(sp)))),
                None => Err(ParseErrors::FailedParsingPrincipal(copy_range(s, p, p + l))),
            }
        },
        TokenType::FullyQualifiedContractIdentifierLiteral => {
            let a = run_len(s, p + 1, ByteClass::C32);
            let addr = copy_range(s, p + 1, p + 1 + a);
            let issuer = match parse_standard_principal_bytes(addr.as_slice()) {
                Some(sp) => sp,
                None => return Err(ParseErrors::FailedParsingPrincipal(copy_range(s, p, p + l))),
            };
            match ContractName::from_bytes(copy_range(s, p + 2 + a, p + l)) {
                Some(name) => Ok(
                    LexItem::LiteralValue(
                        l,
                        Value::Principal(PrincipalData::Contract(QualifiedContractIdentifier::new(issuer, name))),
                    ),
                ),
                None => Err(ParseErrors::FailedParsingPrincipal(copy_range(s, p, p + l))),
            }
        },
        TokenType::SugaredContractIdentifierLiteral => {
            match ContractName::from_bytes(copy_range(s, p + 1, p + l)) {
                Some(name) => Ok(LexItem::SugaredContractIdentifier(l, name)),
                None => Err(ParseErrors::FailedParsingPrincipal(copy_range(s, p, p + l))),
            }
        },
        TokenType::FullyQualifiedFieldIdentifierLiteral => {
            let a = run_len(s, p + 1, ByteClass::C32);
            let b = run_len(s, p + 2 + a, ByteClass::ContractChar);
            let addr = copy_range(s, p + 1, p + 1 + a);
            let issuer = match parse_standard_principal_bytes(addr.as_slice()) {
                Some(sp) => sp,
                None => return Err(ParseErrors::FailedParsingField(copy_range(s, p, p + l))),
            };
            let contract = match ContractName::from_bytes(copy_range(s, p + 2 + a, p + 2 + a + b)) {
                Some(c) => c,
                None => return Err(ParseErrors::FailedParsingField(copy_range(s, p, p + l))),
            };
            match ClarityName::from_bytes(copy_range(s, p + 3 + a + b, p + l)) {
                Some(name) => Ok(LexItem::FieldIdentifier(l, TraitIdentifier::new(issuer, contract, name))),
                None => Err(ParseErrors::FailedParsingField(copy_range(s, p, p + l))),
            }
        },
        TokenType::SugaredFieldIdentifierLiteral => {
            let b = run_len(s, p + 1, ByteClass::ContractChar);
            let contract = match ContractName::from_bytes(copy_range(s, p + 1, p + 1 + b)) {
                Some(c) => c,
                None => return Err(ParseErrors::FailedParsingField(copy_range(s, p, p + l))),
            };
            match ClarityName::from_bytes(copy_range(s, p + 2 + b, p + l)) {
                Some(name) => Ok(LexItem::SugaredFieldIdentifier(l, contract, name)),
                None => Err(ParseErrors::FailedParsingField(copy_range(s, p, p + l))),
            }
        },
        TokenType::TraitReferenceLiteral => {
            match ClarityName::from_bytes(copy_range(s, p + 1, p + l - 1)) {
                Some(name) => Ok(LexItem::TraitReference(l, name)),
                None => Err(ParseErrors::IllegalVariableName(copy_range(s, p, p + l))),
            }
        },
    }
}

/// Tokens that may follow a literal directly.
pub open spec fn closes_atom(t: TokenType) -> bool {
    t is RParens || t is RCurly || t is Whitespace || t is Comma || t is Colon
}

/// Whether the token after one of kind `t` must close it.
pub open spec fn expects_closing_after(t: TokenType) -> bool {
    !(t is LParens || t is Whitespace || t is Comma || t is Colon || t is LCurly)
}

/// Why lexing stopped short.
pub enum LexFailure {
    TooLarge,
    /// No token matches at this position.
    Remainder(int),
    /// The token at this position, of this length, does not close a literal.
    Separator(int, nat),
    /// The token of this kind, position and length yields no value.
    Decode(TokenType, int, nat),
}

/// The tokens (kind, position, length) from `pos` on, given whether the
/// next one must close a literal; or why lexing stops.
pub open spec fn lex_from(s: Seq<u8>, pos: int, closing: bool) -> Result<Seq<(TokenType, int, nat)>, LexFailure>
    decreases s.len() - pos,
{
    if pos < 0 || pos >= s.len() {
        Ok(Seq::empty())
    } else {
        let (t, l) = match_at(s, pos);
        if l == 0 || pos + l > s.len() {
            Err(LexFailure::Remainder(pos))
        } else if closing && !closes_atom(t) {
            Err(LexFailure::Separator(pos, l))
        } else if !decodes(s, t, pos, l) {
            Err(LexFailure::Decode(t, pos, l))
        } else {
            match lex_from(s, pos + l, expects_closing_after(t)) {
                Ok(rest) => Ok(seq![(t, pos, l)] + rest),
                Err(f) => Err(f),
            }
        }
    }
}

/// What lexing the whole of `s` gives.
pub open spec fn lex_spec(s: Seq<u8>) -> Result<Seq<(TokenType, int, nat)>, LexFailure> {
    if s.len() > MAX_SOURCE_LEN {
        Err(LexFailure::TooLarge)
    } else {
        lex_from(s, 0, false)
    }
}

/// Line and column (both from 1) of position `k`: each `\n` starts a new line.
pub open spec fn line_col(s: Seq<u8>, k: int) -> (nat, nat)
    decreases k,
{
    if k <= 0 {
        (1, 1)
    } else {
        let (line, col) = line_col(s, k - 1);
        if s[k - 1] == 10 {
            (line + 1, 1)
        } else {
            (line, col + 1)
        }
    }
}

proof fn lemma_line_col_bound(s: Seq<u8>, k: int)
    requires
        k >= 0,
    ensures
        line_col(s, k).0 <= k + 1,
        line_col(s, k).1 <= k + 1,
    decreases k,
{
    if k > 0 {
        lemma_line_col_bound(s, k - 1);
    }
}

/// Whether a lexed item with its line and column is the token `tok` of `s`.
pub open spec fn token_is(item: (LexItem, u32, u32), s: Seq<u8>, tok: (TokenType, int, nat)) -> bool {
    &&& item_matches(item.0, s, tok.0, tok.1, tok.2)
    &&& item.1 as nat == line_col(s, tok.1).0
    &&& item.2 as nat == line_col(s, tok.1).1
}

/// Whether `e` reports the failure `f` on `s`.
pub open spec fn failure_is(e: ParseErrors, s: Seq<u8>, f: LexFailure) -> bool {
    match f {
        LexFailure::TooLarge => e is ProgramTooLarge,
        LexFailure::Remainder(p) => e is FailedParsingRemainder && e.text() == s.subrange(p, s.len() as int),
        LexFailure::Separator(p, l) => e is SeparatorExpected && e.text() == text(s, p, l),
        LexFailure::Decode(t, p, l) => decode_error_is(e, s, t, p, l),
    }
}

/// Whether `items` are the tokens of `s`, lexed without error.
pub open spec fn lexed_is(s: Seq<u8>, items: Seq<(LexItem, u32, u32)>) -> bool {
    lex_spec(s) matches Ok(toks) && items.len() == toks.len() && forall|k: int|
        0 <= k < toks.len() ==> token_is(#[trigger] items[k], s, toks[k])
}

/// Whether `r` is what lexing `s` must return.
pub open spec fn lex_outcome(s: Seq<u8>, r: Result<Vec<(LexItem, u32, u32)>, ParseErrors>) -> bool {
    match lex_spec(s) {
        Ok(toks) => r matches Ok(out) && out@.len() == toks.len() && forall|k: int|
            0 <= k < toks.len() ==> token_is(#[trigger] out@[k], s, toks[k]),
        Err(f) => r matches Err(e) && failure_is(e, s, f),
    }
}

pub open spec fn prepend(g: Seq<(TokenType, int, nat)>, r: Result<Seq<(TokenType, int, nat)>, LexFailure>) -> Result<Seq<(TokenType, int, nat)>, LexFailure> {
    match r {
        Ok(rest) => Ok(g + rest),
        Err(f) => Err(f),
    }
}

/// Lexes source text into tokens with the line and column each starts at.
pub fn lex(input: &str) -> (r: Result<Vec<(LexItem, u32, u32)>, ParseErrors>)
    ensures
        lex_outcome(input.spec_bytes(), r),
{
    lex_bytes(input.as_bytes())
}

/// Lexes source bytes into tokens with the line and column each starts at.
pub fn lex_bytes(s: &[u8]) -> (r: Result<Vec<(LexItem, u32, u32)>, ParseErrors>)
    ensures
        lex_outcome(s@, r),
{
    if s.len() > MAX_SOURCE_LEN {
        return Err(ParseErrors::ProgramTooLarge);
    }
    let mut out: Vec<(LexItem, u32, u32)> = Vec::new();
    let mut pos: usize = 0;
    let mut closing = false;
    let mut line: u32 = 1;
    let mut col: u32 = 1;
    let ghost mut g: Seq<(TokenType, int, nat)> = Seq::empty();
    assert(prepend(g, lex_from(s@, 0, false)) == lex_from(s@, 0, false)) by {
        match lex_from(s@, 0, false) {
            Ok(rest) => { assert(g + rest =~= rest); },
            Err(_) => {},
        }
    }
    while pos < s.len()
        invariant
            pos <= s@.len() <= MAX_SOURCE_LEN,
            (line as nat, col as nat) == line_col(s@, pos as int),
            lex_from(s@, 0, false) == prepend(g, lex_from(s@, pos as int, closing)),
            out@.len() == g.len(),
            forall|k: int| 0 <= k < g.len() ==> token_is(#[trigger] out@[k], s@, g[k]),
        decreases s@.len() - pos,
    {
        let (t, len) = match_token(s, pos);
        if len == 0 {
            return Err(ParseErrors::FailedParsingRemainder(copy_range(s, pos, s.len())));
        }
        let closes = match t {
            TokenType::RParens | TokenType::RCurly | TokenType::Whitespace | TokenType::Comma | TokenType::Colon => true,
            _ => false,
        };
        if closing && !closes {
            return Err(ParseErrors::SeparatorExpected(copy_range(s, pos, pos + len)));
        }
        let item = match decode_token(s, t, pos, len) {
            Ok(item) => item,
            Err(e) => return Err(e),
        };
        let ghost tok = (t, pos as int, len as nat);
        let ghost old_out = out@;
        out.push((item, line, col));
        proof {
            assert(lex_from(s@, pos as int, closing) == prepend(seq![tok], lex_from(s@, pos + len, expects_closing_after(t))));
            match lex_from(s@, pos + len, expects_closing_after(t)) {
                Ok(rest) => { assert(g + (seq![tok] + rest) =~= g.push(tok) + rest); },
                Err(_) => {},
            }
            g = g.push(tok);
            assert forall|k: int| 0 <= k < g.len() implies token_is(#[trigger] out@[k], s@, g[k]) by {
                if k < old_out.len() {
                    assert(out@[k] == old_out[k]);
                }
            }
        }
        let end = pos + len;
        while pos < end
            invariant
                pos <= end <= s@.len() <= MAX_SOURCE_LEN,
                (line as nat, col as nat) == line_col(s@, pos as int),
            decreases end - pos,
        {
            proof { lemma_line_col_bound(s@, pos as int); }
            if s[pos] == 10 {
                line = line + 1;
                col = 1;
            } else {
                col = col + 1;
            }
            pos = pos + 1;
        }
        closing = match t {
            TokenType::LParens | TokenType::Whitespace | TokenType::Comma | TokenType::Colon | TokenType::LCurly => false,
            _ => true,
        };
    }
    assert(lex_from(s@, pos as int, closing) == Ok::<Seq<(TokenType, int, nat)>, LexFailure>(Seq::empty()));
    assert(g + Seq::<(TokenType, int, nat)>::empty() =~= g);
    Ok(out)
}


/// Whether `toks` are back to back from `pos` to the end of `s`.
pub open spec fn tiles(s: Seq<u8>, toks: Seq<(TokenType, int, nat)>, pos: int) -> bool {
    &&& toks.len() > 0 ==> toks[0].1 == pos
    &&& forall|k: int| 0 <= k < toks.len() - 1 ==> #[trigger] toks[k + 1].1 == toks[k].1 + toks[k].2
    &&& forall|k: int| 0 <= k < toks.len() ==> (#[trigger] toks[k]).2 >= 1
    &&& toks.len() > 0 ==> toks.last().1 + toks.last().2 == s.len()
    &&& toks.len() == 0 ==> pos >= s.len()
}

proof fn lemma_lex_from_tiles(s: Seq<u8>, pos: int, closing: bool)
    requires
        0 <= pos,
        lex_from(s, pos, closing) is Ok,
    ensures
        tiles(s, lex_from(s, pos, closing)->Ok_0, pos),
    decreases s.len() - pos,
{
    if pos < s.len() {
        let (t, l) = match_at(s, pos);
        let next = expects_closing_after(t);
        lemma_lex_from_tiles(s, pos + l, next);
        let rest = lex_from(s, pos + l, next)->Ok_0;
        let toks = lex_from(s, pos, closing)->Ok_0;
        assert(toks == seq![(t, pos, l)] + rest);
        assert forall|k: int| 0 <= k < toks.len() - 1 implies #[trigger] toks[k + 1].1 == toks[k].1 + toks[k].2 by {
            if k > 0 {
                assert(toks[k] == rest[k - 1]);
                assert(toks[k + 1] == rest[k]);
                assert(rest[(k - 1) + 1].1 == rest[k - 1].1 + rest[k - 1].2);
            } else {
                assert(toks[1] == rest[0]);
            }
        }
        assert forall|k: int| 0 <= k < toks.len() implies (#[trigger] toks[k]).2 >= 1 by {
            if k > 0 {
                assert(toks[k] == rest[k - 1]);
            }
        }
        if rest.len() > 0 {
            assert(toks.last() == rest.last());
        }
    }
}

/// The tokens of a source that lexes cleanly lie back to back, in order,
/// each at least one byte long, from the first byte to the last: every byte
/// belongs to exactly one token, whitespace and comments included.
pub proof fn lemma_tokens_cover(s: Seq<u8>)
    requires
        lex_spec(s) is Ok,
    ensures
        tiles(s, lex_spec(s)->Ok_0, 0),
{
    lemma_lex_from_tiles(s, 0, false);
}

} // verus!
