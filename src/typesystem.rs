//! The built-in data types and what the other passes need to know of a type:
//! its category, storage width and signedness.
use vstd::arithmetic::power2::{
    lemma2_to64, lemma_pow2_pos, lemma_pow2_strictly_increases, lemma_pow2_unfold, pow2,
};
use vstd::prelude::*;

verus! {

/// What is known of a data type.
#[derive(Debug, PartialEq)]
pub enum DataTypeInformation {
    /// a struct, or the instance struct of a program, function block or class;
    /// its members are the member variables registered under `name`
    Struct { name: String },
    Integer { name: String, signed: bool, size: u32 },
    Float { name: String, size: u32 },
    Bool,
    Str { name: String, is_wide: bool },
    Enum { name: String, elements: Vec<String> },
    Array { name: String, inner_type_name: String },
    SubRange { name: String, referenced_type: String },
    Pointer { name: String, inner_type_name: String, auto_deref: bool },
    Void,
}

/// Whether two texts hold the same characters.
pub fn text_eq(a: &str, b: &str) -> (r: bool)
    ensures
        r == (a@ == b@),
{
    let n = a.unicode_len();
    if n != b.unicode_len() {
        return false;
    }
    let mut i: usize = 0;
    while i < n
        invariant
            n == a@.len(),
            n == b@.len(),
            0 <= i <= n,
            forall|k: int| 0 <= k < i ==> a@[k] == b@[k],
        decreases n - i,
    {
        if a.get_char(i) != b.get_char(i) {
            return false;
        }
        i = i + 1;
    }
    assert(a@ =~= b@);
    true
}

/// Width in bits and signedness of the built-in integer and bit-string types.
pub open spec fn spec_integer_type(name: Seq<char>) -> Option<(bool, u32)> {
    if name == "SINT"@ {
        Some((true, 8u32))
    } else if name == "INT"@ {
        Some((true, 16u32))
    } else if name == "DINT"@ {
        Some((true, 32u32))
    } else if name == "LINT"@ {
        Some((true, 64u32))
    } else if name == "USINT"@ || name == "BYTE"@ {
        Some((false, 8u32))
    } else if name == "UINT"@ || name == "WORD"@ {
        Some((false, 16u32))
    } else if name == "UDINT"@ || name == "DWORD"@ {
        Some((false, 32u32))
    } else if name == "ULINT"@ || name == "LWORD"@ {
        Some((false, 64u32))
    } else {
        None
    }
}

/// Signedness and width of the built-in integer type `name`, if it is one.
pub fn get_integer_type(name: &str) -> (r: Option<(bool, u32)>)
    ensures
        r == spec_integer_type(name@),
{
    if text_eq(name, "SINT") {
        Some((true, 8))
    } else if text_eq(name, "INT") {
        Some((true, 16))
    } else if text_eq(name, "DINT") {
        Some((true, 32))
    } else if text_eq(name, "LINT") {
        Some((true, 64))
    } else if text_eq(name, "USINT") || text_eq(name, "BYTE") {
        Some((false, 8))
    } else if text_eq(name, "UINT") || text_eq(name, "WORD") {
        Some((false, 16))
    } else if text_eq(name, "UDINT") || text_eq(name, "DWORD") {
        Some((false, 32))
    } else if text_eq(name, "ULINT") || text_eq(name, "LWORD") {
        Some((false, 64))
    } else {
        None
    }
}

pub open spec fn spec_is_real_type(name: Seq<char>) -> bool {
    name == "REAL"@ || name == "LREAL"@
}

pub fn is_real_type(name: &str) -> (r: bool)
    ensures
        r == spec_is_real_type(name@),
{
    text_eq(name, "REAL") || text_eq(name, "LREAL")
}

/// `Some(is_wide)` for the two built-in string types.
pub open spec fn spec_string_type(name: Seq<char>) -> Option<bool> {
    if name == "STRING"@ {
        Some(false)
    } else if name == "WSTRING"@ {
        Some(true)
    } else {
        None
    }
}

pub fn get_string_type(name: &str) -> (r: Option<bool>)
    ensures
        r == spec_string_type(name@),
{
    if text_eq(name, "STRING") {
        Some(false)
    } else if text_eq(name, "WSTRING") {
        Some(true)
    } else {
        None
    }
}

pub open spec fn spec_is_bool_type(name: Seq<char>) -> bool {
    name == "BOOL"@
}

pub fn is_bool_type(name: &str) -> (r: bool)
    ensures
        r == spec_is_bool_type(name@),
{
    text_eq(name, "BOOL")
}

/// The value that `v` takes when stored in `size` bits: the residue modulo
/// `2^size`, read as two's complement when `signed`.
pub open spec fn spec_truncate(v: int, signed: bool, size: nat) -> int {
    let m = pow2(size) as int;
    let r = v % m;
    if signed && r >= m / 2 {
        r - m
    } else {
        r
    }
}

/// Stores `v` in `size` bits (see `spec_truncate`).
pub fn truncate(v: i128, signed: bool, size: u32) -> (r: i128)
    requires
        1 <= size <= 64,
    ensures
        r as int == spec_truncate(v as int, signed, size as nat),
{
    let mut m: i128 = 1;
    let mut k: u32 = 0;
    proof {
        lemma2_to64();
    }
    while k < size
        invariant
            0 <= k <= size <= 64,
            m <= 0x1_0000_0000_0000_0000,
            m as int == pow2(k as nat),
            1 <= m,
        decreases size - k,
    {
        proof {
            lemma_pow2_unfold((k + 1) as nat);
            if k + 1 < 64 {
                lemma_pow2_strictly_increases((k + 1) as nat, 64);
            }
            lemma2_to64();
        }
        m = m * 2;
        k = k + 1;
    }
    proof {
        lemma_pow2_unfold(size as nat);
        lemma_pow2_pos((size - 1) as nat);
    }
    let r = match v.checked_rem_euclid(m) {
        Some(r) => r,
        None => 0,
    };
    assert(r as int == (v as int) % (m as int));
    if signed && r >= m / 2 {
        r - m
    } else {
        r
    }
}

} // verus!
