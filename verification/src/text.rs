//! Byte-level text helpers.
//!
//! The engine works on raw bytes; strings appear only at its public edge.
//! This module holds the shared vocabulary: ASCII classes, case folding,
//! decimal numbers, UTF-8 facts, and the trusted conversions between raw
//! bytes and `String`.

use vstd::prelude::*;
use vstd::string::StringSliceAdditionalSpecFns;

verus! {

/// `b` is an ASCII control byte (the range below space, and delete).
pub open spec fn is_ctl(b: u8) -> bool {
    b < 32 || b == 127
}

/// No byte of `s` is an ASCII control byte.
pub open spec fn no_ctl(s: Seq<u8>) -> bool {
    forall|i: int| 0 <= i < s.len() ==> !is_ctl(#[trigger] s[i])
}

/// `b` is an ASCII decimal digit.
pub open spec fn is_digit(b: u8) -> bool {
    48 <= b <= 57
}

/// Every byte of `s` is a decimal digit.
pub open spec fn all_digits(s: Seq<u8>) -> bool {
    forall|i: int| 0 <= i < s.len() ==> is_digit(#[trigger] s[i])
}

/// ASCII lower-casing of one byte; other bytes pass unchanged.
pub open spec fn to_lower(b: u8) -> u8 {
    if 65 <= b <= 90 {
        (b + 32) as u8
    } else {
        b
    }
}

/// ASCII lower-casing of a byte sequence.
pub open spec fn lower_seq(s: Seq<u8>) -> Seq<u8> {
    s.map_values(|b: u8| to_lower(b))
}

/// Every byte of `s` is ASCII.
pub open spec fn all_ascii(s: Seq<u8>) -> bool {
    forall|i: int| 0 <= i < s.len() ==> #[trigger] s[i] < 128
}

/// The value of the digit string `s`, read as a decimal number.
pub open spec fn dec_val(s: Seq<u8>) -> nat
    decreases s.len(),
{
    if s.len() == 0 {
        0
    } else {
        dec_val(s.drop_last()) * 10 + (s.last() - 48) as nat
    }
}

/// The decimal digits of `n`, most significant first.
pub open spec fn dec_digits(n: nat) -> Seq<u8>
    decreases n,
{
    if n < 10 {
        seq![(48 + n) as u8]
    } else {
        dec_digits(n / 10).push((48 + n % 10) as u8)
    }
}

/// Reading one more digit can only grow a decimal value.
proof fn lemma_dec_val_prefix_grows(s: Seq<u8>, j: int, k: int)
    requires
        0 <= j <= k <= s.len(),
        all_digits(s),
    ensures
        dec_val(s.take(j)) <= dec_val(s.take(k)),
    decreases k - j,
{
    if j < k {
        lemma_dec_val_prefix_grows(s, j, k - 1);
        assert(s.take(k).drop_last() =~= s.take(k - 1));
        assert(dec_val(s.take(k)) == dec_val(s.take(k - 1)) * 10 + (s.take(k).last() - 48) as nat);
    }
}

/// Lower-casing keeps bytes ASCII.
pub proof fn lemma_lower_ascii(s: Seq<u8>)
    requires
        all_ascii(s),
    ensures
        all_ascii(lower_seq(s)),
{
    assert forall|i: int| 0 <= i < lower_seq(s).len() implies #[trigger] lower_seq(s)[i]
        < 128 by {
        assert(lower_seq(s)[i] == to_lower(s[i]));
    }
}

/// Lower-casing a sequence with no upper-case letters changes nothing.
pub proof fn lemma_lower_id_of_lower(s: Seq<u8>)
    requires
        forall|i: int| 0 <= i < s.len() ==> !(65 <= #[trigger] s[i] <= 90),
    ensures
        lower_seq(s) == s,
{
    assert forall|i: int| 0 <= i < s.len() implies #[trigger] lower_seq(s)[i] == s[i] by {
        assert(lower_seq(s)[i] == to_lower(s[i]));
    }
    assert(lower_seq(s) =~= s);
}

/// Whether two byte slices are equal.
pub fn bytes_eq(a: &[u8], b: &[u8]) -> (r: bool)
    ensures
        r == (a@ == b@),
{
    if a.len() != b.len() {
        assert(a@.len() != b@.len());
        return false;
    }
    let n = a.len();
    let mut i: usize = 0;
    while i < n
        invariant
            0 <= i <= n,
            n == a@.len() == b@.len(),
            forall|j: int| 0 <= j < i ==> a@[j] == b@[j],
        decreases n - i,
    {
        if a[i] != b[i] {
            return false;
        }
        i = i + 1;
    }
    proof {
        assert(a@ =~= b@);
    }
    true
}

/// Whether two byte slices are equal up to ASCII case.
pub fn bytes_eq_ignore_case(a: &[u8], b: &[u8]) -> (r: bool)
    ensures
        r == (lower_seq(a@) == lower_seq(b@)),
{
    if a.len() != b.len() {
        assert(lower_seq(a@).len() != lower_seq(b@).len());
        return false;
    }
    let n = a.len();
    let mut i: usize = 0;
    while i < n
        invariant
            0 <= i <= n,
            n == a@.len() == b@.len(),
            forall|j: int| 0 <= j < i ==> to_lower(a@[j]) == to_lower(b@[j]),
        decreases n - i,
    {
        let la = if 65 <= a[i] && a[i] <= 90 { a[i] + 32 } else { a[i] };
        let lb = if 65 <= b[i] && b[i] <= 90 { b[i] + 32 } else { b[i] };
        if la != lb {
            assert(to_lower(a@[i as int]) != to_lower(b@[i as int]));
            assert(lower_seq(a@)[i as int] != lower_seq(b@)[i as int]);
            return false;
        }
        i = i + 1;
    }
    proof {
        assert(lower_seq(a@) =~= lower_seq(b@));
    }
    true
}

/// ASCII lower-casing of a byte slice.
pub fn lower_bytes(s: &[u8]) -> (r: Vec<u8>)
    ensures
        r@ == lower_seq(s@),
{
    let n = s.len();
    let mut out: Vec<u8> = Vec::new();
    let mut i: usize = 0;
    while i < n
        invariant
            0 <= i <= n,
            n == s@.len(),
            out@ == lower_seq(s@.take(i as int)),
        decreases n - i,
    {
        let b = s[i];
        let l = if 65 <= b && b <= 90 { b + 32 } else { b };
        out.push(l);
        proof {
            assert(lower_seq(s@.take(i as int + 1)) =~= lower_seq(s@.take(i as int)).push(
                to_lower(s@[i as int]),
            ));
        }
        i = i + 1;
    }
    proof {
        assert(s@.take(n as int) =~= s@);
    }
    out
}

/// Whether any byte of `s` is an ASCII control byte. A multi-byte character
/// never looks like one: its bytes are all at or above 128.
pub fn contains_ctl(s: &[u8]) -> (r: bool)
    ensures
        r == exists|i: int| 0 <= i < s@.len() && is_ctl(#[trigger] s@[i]),
{
    let n = s.len();
    let mut i: usize = 0;
    while i < n
        invariant
            0 <= i <= n,
            n == s@.len(),
            forall|j: int| 0 <= j < i ==> !is_ctl(#[trigger] s@[j]),
        decreases n - i,
    {
        if s[i] < 32 || s[i] == 127 {
            return true;
        }
        i = i + 1;
    }
    false
}

/// Read `s` as a decimal number. Succeeds exactly when `s` is non-empty,
/// all digits, and the value fits the machine's word.
pub fn parse_dec(s: &[u8]) -> (r: Option<usize>)
    ensures
        match r {
            Some(v) => {
                &&& s@.len() > 0
                &&& all_digits(s@)
                &&& v as nat == dec_val(s@)
            },
            None => !(s@.len() > 0 && all_digits(s@) && dec_val(s@) <= usize::MAX),
        },
{
    let n = s.len();
    if n == 0 {
        return None;
    }
    let mut val: usize = 0;
    let mut i: usize = 0;
    while i < n
        invariant
            0 <= i <= n,
            n == s@.len(),
            all_digits(s@.take(i as int)),
            val as nat == dec_val(s@.take(i as int)),
        decreases n - i,
    {
        let b = s[i];
        if b < 48 || b > 57 {
            assert(!is_digit(s@[i as int]));
            return None;
        }
        proof {
            assert(s@.take(i as int + 1).drop_last() =~= s@.take(i as int));
            assert(forall|j: int|
                0 <= j < i as int + 1 ==> is_digit(#[trigger] s@.take(i as int + 1)[j]));
        }
        let d = (b - 48) as usize;
        proof {
            assert(s@.take(i as int + 1).last() == s@[i as int]);
            assert(dec_val(s@.take(i as int + 1)) == dec_val(s@.take(i as int)) * 10 + (s@[i as int]
                - 48) as nat);
        }
        let shifted = match val.checked_mul(10) {
            Some(x) => x,
            None => {
                proof {
                    if all_digits(s@) {
                        assert(s@.take(s@.len() as int) =~= s@);
                        lemma_dec_val_prefix_grows(s@, i as int + 1, s@.len() as int);
                        assert(dec_val(s@) >= dec_val(s@.take(i as int + 1)));
                        assert(dec_val(s@.take(i as int + 1)) > usize::MAX);
                    }
                }
                return None;
            },
        };
        let next = match shifted.checked_add(d) {
            Some(x) => x,
            None => {
                proof {
                    if all_digits(s@) {
                        assert(s@.take(s@.len() as int) =~= s@);
                        lemma_dec_val_prefix_grows(s@, i as int + 1, s@.len() as int);
                        assert(dec_val(s@) >= dec_val(s@.take(i as int + 1)));
                        assert(dec_val(s@.take(i as int + 1)) > usize::MAX);
                    }
                }
                return None;
            },
        };
        val = next;
        i = i + 1;
    }
    proof {
        assert(s@.take(n as int) =~= s@);
    }
    Some(val)
}

/// The decimal digits of `n`, as bytes, most significant first.
pub fn dec_of_u16(n: u16) -> (r: Vec<u8>)
    ensures
        r@ == dec_digits(n as nat),
    decreases n,
{
    if n < 10 {
        let mut out: Vec<u8> = Vec::new();
        out.push(48 + n as u8);
        proof {
            assert(out@ =~= dec_digits(n as nat));
        }
        out
    } else {
        let mut out = dec_of_u16(n / 10);
        out.push(48 + (n % 10) as u8);
        out
    }
}

/// ASCII bytes are valid UTF-8: each is one single-byte scalar.
pub proof fn lemma_ascii_valid_utf8(s: Seq<u8>)
    requires
        all_ascii(s),
    ensures
        vstd::utf8::valid_utf8(s),
    decreases s.len(),
{
    if s.len() > 0 {
        let b = s[0];
        assert(b < 128);
        assert(vstd::utf8::is_leading_byte_width_1(b));
        assert(b & 0x7f <= 0x7f) by (bit_vector);
        assert(vstd::utf8::valid_first_scalar(s));
        assert(vstd::utf8::length_of_first_scalar(s) == 1);
        let rest = vstd::utf8::pop_first_scalar(s);
        assert(rest =~= s.skip(1));
        assert forall|i: int| 0 <= i < rest.len() implies #[trigger] rest[i] < 128 by {
            assert(rest[i] == s[i + 1]);
        }
        lemma_ascii_valid_utf8(rest);
    }
}

/// Valid UTF-8 byte sequences stay valid when concatenated: scalars never
/// span the seam.
pub proof fn lemma_valid_utf8_concat(a: Seq<u8>, b: Seq<u8>)
    requires
        vstd::utf8::valid_utf8(a),
        vstd::utf8::valid_utf8(b),
    ensures
        vstd::utf8::valid_utf8(a + b),
    decreases a.len(),
{
    if a.len() == 0 {
        assert(a + b =~= b);
    } else {
        let c = a + b;
        assert(vstd::utf8::valid_first_scalar(a));
        assert(c[0] == a[0]);
        if a.len() >= 2 {
            assert(c[1] == a[1]);
        }
        if a.len() >= 3 {
            assert(c[2] == a[2]);
        }
        if a.len() >= 4 {
            assert(c[3] == a[3]);
        }
        let w = vstd::utf8::length_of_first_codepoint(a);
        assert(1 <= w <= 4 && w <= a.len());
        assert(vstd::utf8::valid_leading_and_continuation_bytes_first_codepoint(c));
        assert(vstd::utf8::length_of_first_codepoint(c) == w);
        assert(vstd::utf8::decode_first_codepoint(c) == vstd::utf8::decode_first_codepoint(a));
        assert(vstd::utf8::valid_first_scalar(c));
        let ra = vstd::utf8::pop_first_scalar(a);
        let rc = vstd::utf8::pop_first_scalar(c);
        assert(rc =~= ra + b);
        lemma_valid_utf8_concat(ra, b);
    }
}

/// Relies on `str::from_utf8`: it accepts a byte slice exactly when the
/// bytes are valid UTF-8.
#[verifier::external_body]
pub fn is_valid_utf8(v: &[u8]) -> (r: bool)
    ensures
        r == vstd::utf8::valid_utf8(v@),
{
    core::str::from_utf8(v).is_ok()
}

/// Relies on `String::from_utf8`: valid UTF-8 bytes become the string
/// spelling exactly those bytes.
#[verifier::external_body]
pub fn utf8_to_string(v: Vec<u8>) -> (r: String)
    requires
        vstd::utf8::valid_utf8(v@),
    ensures
        vstd::utf8::encode_utf8(r@) == v@,
{
    match String::from_utf8(v) {
        Ok(s) => s,
        Err(_) => String::new(),
    }
}

} // verus!
