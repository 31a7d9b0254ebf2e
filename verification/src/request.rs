//! Request parsing.
//!
//! The header block — the bytes [`crate::read_headers`] hands over — is
//! tokenized here into method, path, HTTP minor version, and the ordered
//! header name/value pairs, duplicates preserved. The grammar is the usual
//! HTTP/1.x one: a request line `METHOD SP PATH SP HTTP/1.<0|1>`, then one
//! header per line, `name: value` with optional surrounding blanks around
//! the value, each line closed by `\n` with an optional `\r` before it.
//! A header value may hold any visible ASCII, blanks, and multi-byte
//! characters, so long as the whole value is valid UTF-8.

use vstd::prelude::*;

use crate::error::HttpError;
use crate::error::HttpErrorKind;
use crate::text::all_ascii;

verus! {

/// The index of the first `b` in `s`, or `s.len()` when there is none.
pub open spec fn find_byte(s: Seq<u8>, b: u8) -> int
    decreases s.len(),
{
    if s.len() == 0 {
        0
    } else if s[0] == b {
        0
    } else {
        1 + find_byte(s.skip(1), b)
    }
}

/// `find_byte` lands inside the sequence, on `b` unless `b` is absent.
pub proof fn lemma_find_byte_bounds(s: Seq<u8>, b: u8)
    ensures
        0 <= find_byte(s, b) <= s.len(),
        find_byte(s, b) < s.len() ==> s[find_byte(s, b)] == b,
        forall|j: int| 0 <= j < find_byte(s, b) ==> s[j] != b,
    decreases s.len(),
{
    if s.len() != 0 && s[0] != b {
        lemma_find_byte_bounds(s.skip(1), b);
        assert forall|j: int| 0 <= j < find_byte(s, b) implies s[j] != b by {
            if j > 0 {
                assert(s.skip(1)[j - 1] == s[j]);
            }
        }
    }
}

/// A scan that stopped at the first hit computed `find_byte`.
pub proof fn lemma_find_byte_at(s: Seq<u8>, b: u8, i: int)
    requires
        0 <= i <= s.len(),
        forall|j: int| 0 <= j < i ==> s[j] != b,
        i < s.len() ==> s[i] == b,
    ensures
        find_byte(s, b) == i,
    decreases i,
{
    if s.len() == 0 {
    } else if s[0] == b {
    } else {
        assert(i >= 1);
        assert forall|j: int| 0 <= j < i - 1 implies s.skip(1)[j] != b by {
            assert(s.skip(1)[j] == s[j + 1]);
        }
        assert(i - 1 < s.skip(1).len() ==> s.skip(1)[i - 1] == b);
        lemma_find_byte_at(s.skip(1), b, i - 1);
    }
}

/// The lines of `s`: the chunks between `\n` bytes, without the `\n`
/// itself. A final chunk with no `\n` after it is still a line; there is
/// no empty line after a trailing `\n`.
pub open spec fn split_lines(s: Seq<u8>) -> Seq<Seq<u8>>
    decreases s.len(),
    via split_lines_dec
{
    if s.len() == 0 {
        Seq::empty()
    } else {
        let i = find_byte(s, 10);
        if i == s.len() {
            seq![s]
        } else {
            seq![s.take(i)] + split_lines(s.skip(i + 1))
        }
    }
}

#[via_fn]
proof fn split_lines_dec(s: Seq<u8>) {
    lemma_find_byte_bounds(s, 10);
}

/// The line without a trailing `\r`, if it carries one.
pub open spec fn strip_cr(s: Seq<u8>) -> Seq<u8> {
    if s.len() > 0 && s.last() == 13 {
        s.drop_last()
    } else {
        s
    }
}

/// `b` is a blank: space or horizontal tab.
pub open spec fn is_ows(b: u8) -> bool {
    b == 32 || b == 9
}

/// `s` without its leading blanks.
pub open spec fn trim_start(s: Seq<u8>) -> Seq<u8>
    decreases s.len(),
{
    if s.len() > 0 && is_ows(s[0]) {
        trim_start(s.skip(1))
    } else {
        s
    }
}

/// `s` without its trailing blanks.
pub open spec fn trim_end(s: Seq<u8>) -> Seq<u8>
    decreases s.len(),
{
    if s.len() > 0 && is_ows(s.last()) {
        trim_end(s.drop_last())
    } else {
        s
    }
}

/// `s` without leading and trailing blanks.
pub open spec fn trim_ows(s: Seq<u8>) -> Seq<u8> {
    trim_end(trim_start(s))
}

/// `b` may appear in an HTTP token (a method or header name).
pub open spec fn is_tchar(b: u8) -> bool {
    ||| 48 <= b <= 57  // digits
    ||| 65 <= b <= 90  // upper-case letters
    ||| 97 <= b <= 122  // lower-case letters
    ||| b == 33 || b == 35 || b == 36 || b == 37 || b == 38 || b == 39  // ! # $ % & '
    ||| b == 42 || b == 43 || b == 45 || b == 46  // * + - .
    ||| b == 94 || b == 95 || b == 96 || b == 124 || b == 126  // ^ _ ` | ~
}

/// `s` is a non-empty HTTP token.
pub open spec fn is_token(s: Seq<u8>) -> bool {
    s.len() > 0 && forall|i: int| 0 <= i < s.len() ==> is_tchar(#[trigger] s[i])
}

/// `b` is a visible ASCII byte, as a request path is made of.
pub open spec fn is_vchar(b: u8) -> bool {
    33 <= b <= 126
}

/// Every byte of `s` is visible ASCII.
pub open spec fn all_vchar(s: Seq<u8>) -> bool {
    forall|i: int| 0 <= i < s.len() ==> is_vchar(#[trigger] s[i])
}

/// `b` may appear in a header value: visible ASCII, space, tab, or a
/// byte of a multi-byte character.
pub open spec fn is_field_byte(b: u8) -> bool {
    b == 9 || 32 <= b <= 126 || b >= 128
}

/// Every byte of `s` may appear in a header value.
pub open spec fn all_field_bytes(s: Seq<u8>) -> bool {
    forall|i: int| 0 <= i < s.len() ==> is_field_byte(#[trigger] s[i])
}

/// `v` spells an HTTP/1.x version mark, `HTTP/1.` and a final `0` or `1`.
pub open spec fn is_version(v: Seq<u8>) -> bool {
    &&& v.len() == 8
    &&& v[0] == 72 && v[1] == 84 && v[2] == 84 && v[3] == 80  // HTTP
    &&& v[4] == 47 && v[5] == 49 && v[6] == 46  // /1.
    &&& (v[7] == 48 || v[7] == 49)
}

/// What a request line means: `(method, path, minor version)`, or nothing
/// when the line is not one.
pub open spec fn parse_request_line(line: Seq<u8>) -> Option<(Seq<u8>, Seq<u8>, u8)> {
    let i = find_byte(line, 32);
    if i == line.len() {
        None
    } else {
        let method = line.take(i);
        let rest = line.skip(i + 1);
        let j = find_byte(rest, 32);
        if j == rest.len() {
            None
        } else {
            let path = rest.take(j);
            let ver = rest.skip(j + 1);
            if is_token(method) && path.len() > 0 && all_vchar(path) && is_version(ver) {
                Some((method, path, (ver[7] - 48) as u8))
            } else {
                None
            }
        }
    }
}

/// What a header line means: `(name, trimmed value)`, or nothing when the
/// line is not one.
pub open spec fn parse_header_line(line: Seq<u8>) -> Option<(Seq<u8>, Seq<u8>)> {
    let i = find_byte(line, 58);
    if i == line.len() {
        None
    } else {
        let name = line.take(i);
        let value = trim_ows(line.skip(i + 1));
        if is_token(name) && all_field_bytes(value) && vstd::utf8::valid_utf8(value) {
            Some((name, value))
        } else {
            None
        }
    }
}

/// What a whole header block means: method, path, version, and the header
/// pairs in wire order — or nothing when any line of it is malformed or
/// the block does not close with a blank line.
pub open spec fn spec_parse_request(block: Seq<u8>) -> Option<
    (Seq<u8>, Seq<u8>, u8, Seq<(Seq<u8>, Seq<u8>)>),
> {
    let lines = split_lines(block);
    if lines.len() < 2 {
        None
    } else {
        match parse_request_line(strip_cr(lines[0])) {
            None => None,
            Some(rl) => {
                if strip_cr(lines.last()).len() == 0 && (forall|i: int|
                    1 <= i < lines.len() - 1 ==> parse_header_line(
                        strip_cr(#[trigger] lines[i]),
                    ) is Some) {
                    Some(
                        (
                            rl.0,
                            rl.1,
                            rl.2,
                            Seq::new(
                                (lines.len() - 2) as nat,
                                |i: int| parse_header_line(strip_cr(lines[i + 1]))->0,
                            ),
                        ),
                    )
                } else {
                    None
                }
            },
        }
    }
}

/// A parsed request: what the header block said, plus the body bytes that
/// were pulled from the connection together with it.
#[derive(Debug)]
pub struct Requested {
    /// The request method, a non-empty HTTP token.
    pub method: Vec<u8>,
    /// The request path, not normalized.
    pub path: Vec<u8>,
    /// The HTTP minor version, 0 or 1.
    pub version: u8,
    /// The header pairs, in wire order, duplicates preserved.
    pub headers: Vec<(Vec<u8>, Vec<u8>)>,
    /// Body bytes read past the header block, in order.
    pub body_start: Vec<u8>,
}

impl Requested {
    /// Every field is within what the grammar admits: a single-digit
    /// version and ASCII text throughout.
    pub open spec fn wf(&self) -> bool {
        &&& self.version <= 1
        &&& is_token(self.method@)
        &&& self.path@.len() > 0 && all_vchar(self.path@)
        &&& forall|i: int|
            0 <= i < self.headers@.len() ==> is_token(#[trigger] self.headers@[i].0@)
                && all_field_bytes(self.headers@[i].1@) && vstd::utf8::valid_utf8(
                self.headers@[i].1@,
            )
    }

    /// The header pairs as mathematical sequences.
    pub open spec fn headers_view(&self) -> Seq<(Seq<u8>, Seq<u8>)> {
        self.headers.deep_view()
    }
}

/// Token bytes are ASCII.
pub proof fn lemma_token_ascii(s: Seq<u8>)
    requires
        is_token(s),
    ensures
        all_ascii(s),
{
}

/// Visible bytes are ASCII.
pub proof fn lemma_vchar_ascii(s: Seq<u8>)
    requires
        all_vchar(s),
    ensures
        all_ascii(s),
{
}

/// The values of the headers whose name equals `name` up to ASCII case,
/// in wire order.
pub open spec fn matching_values(hs: Seq<(Seq<u8>, Seq<u8>)>, name: Seq<u8>) -> Seq<Seq<u8>>
    decreases hs.len(),
{
    if hs.len() == 0 {
        Seq::empty()
    } else {
        matching_values(hs.drop_last(), name) + if crate::text::lower_seq(hs.last().0)
            == crate::text::lower_seq(name) {
            seq![hs.last().1]
        } else {
            Seq::empty()
        }
    }
}

/// The values joined into one logical value, first to last, separated by
/// a comma and a space.
pub open spec fn join_comma(vals: Seq<Seq<u8>>) -> Seq<u8>
    decreases vals.len(),
{
    if vals.len() == 0 {
        Seq::empty()
    } else if vals.len() == 1 {
        vals[0]
    } else {
        join_comma(vals.drop_last()) + seq![44u8, 32] + vals.last()
    }
}

/// Joining valid UTF-8 values with the ASCII separator keeps the result
/// valid UTF-8.
pub proof fn lemma_join_valid_utf8(vals: Seq<Seq<u8>>)
    requires
        forall|i: int| 0 <= i < vals.len() ==> vstd::utf8::valid_utf8(#[trigger] vals[i]),
    ensures
        vstd::utf8::valid_utf8(join_comma(vals)),
    decreases vals.len(),
{
    if vals.len() == 0 {
        assert(join_comma(vals).len() == 0);
    } else if vals.len() == 1 {
        assert(join_comma(vals) == vals[0]);
    } else {
        assert forall|i: int| 0 <= i < vals.drop_last().len() implies vstd::utf8::valid_utf8(
            #[trigger] vals.drop_last()[i],
        ) by {
            assert(vals.drop_last()[i] == vals[i]);
        }
        lemma_join_valid_utf8(vals.drop_last());
        let sep = seq![44u8, 32];
        assert(crate::text::all_ascii(sep));
        crate::text::lemma_ascii_valid_utf8(sep);
        crate::text::lemma_valid_utf8_concat(join_comma(vals.drop_last()), sep);
        crate::text::lemma_valid_utf8_concat(join_comma(vals.drop_last()) + sep, vals.last());
    }
}

/// The values picked out of well-formed headers stay valid UTF-8.
pub proof fn lemma_matching_valid(hs: Seq<(Seq<u8>, Seq<u8>)>, name: Seq<u8>)
    requires
        forall|i: int| 0 <= i < hs.len() ==> vstd::utf8::valid_utf8(#[trigger] hs[i].1),
    ensures
        forall|j: int|
            0 <= j < matching_values(hs, name).len() ==> vstd::utf8::valid_utf8(
                #[trigger] matching_values(hs, name)[j],
            ),
    decreases hs.len(),
{
    if hs.len() > 0 {
        assert forall|i: int| 0 <= i < hs.drop_last().len() implies vstd::utf8::valid_utf8(
            #[trigger] hs.drop_last()[i].1,
        ) by {
            assert(hs.drop_last()[i] == hs[i]);
        }
        lemma_matching_valid(hs.drop_last(), name);
        let mv = matching_values(hs, name);
        let mvd = matching_values(hs.drop_last(), name);
        assert forall|j: int| 0 <= j < mv.len() implies vstd::utf8::valid_utf8(
            #[trigger] mv[j],
        ) by {
            if j < mvd.len() {
                assert(mv[j] == mvd[j]);
            } else {
                assert(mv[j] == hs.last().1);
            }
        }
    }
}

/// The joined value of well-formed headers is valid UTF-8.
pub proof fn lemma_matching_join_valid(hs: Seq<(Seq<u8>, Seq<u8>)>, name: Seq<u8>)
    requires
        forall|i: int| 0 <= i < hs.len() ==> vstd::utf8::valid_utf8(#[trigger] hs[i].1),
    ensures
        vstd::utf8::valid_utf8(join_comma(matching_values(hs, name))),
{
    lemma_matching_valid(hs, name);
    lemma_join_valid_utf8(matching_values(hs, name));
}

/// The index of the first `b` in `s` at or after `from`, or `s.len()`.
pub(crate) fn scan_byte(s: &[u8], from: usize, b: u8) -> (i: usize)
    requires
        from <= s@.len(),
    ensures
        from <= i <= s@.len(),
        forall|j: int| from <= j < i ==> s@[j] != b,
        i < s@.len() ==> s@[i as int] == b,
        find_byte(s@.skip(from as int), b) == i - from,
{
    let n = s.len();
    let mut i = from;
    while i < n
        invariant
            from <= i <= n,
            n == s@.len(),
            forall|j: int| from <= j < i ==> s@[j] != b,
        decreases n - i,
    {
        if s[i] == b {
            proof {
                assert forall|j: int| 0 <= j < i - from implies s@.skip(from as int)[j] != b by {
                    assert(s@.skip(from as int)[j] == s@[j + from]);
                }
                lemma_find_byte_at(s@.skip(from as int), b, i - from);
            }
            return i;
        }
        i = i + 1;
    }
    proof {
        assert forall|j: int| 0 <= j < n - from implies s@.skip(from as int)[j] != b by {
            assert(s@.skip(from as int)[j] == s@[j + from]);
        }
        lemma_find_byte_at(s@.skip(from as int), b, n - from);
    }
    n
}

/// Split `data` into its lines, as [`split_lines`] describes them.
pub(crate) fn split_lines_vec(data: &[u8]) -> (lines: Vec<Vec<u8>>)
    ensures
        lines.deep_view() == split_lines(data@),
{
    let n = data.len();
    let mut lines: Vec<Vec<u8>> = Vec::new();
    let mut p: usize = 0;
    proof {
        assert(data@.skip(0) =~= data@);
        assert(lines.deep_view() =~= Seq::<Seq<u8>>::empty());
        assert(lines.deep_view() + split_lines(data@) =~= split_lines(data@));
    }
    while p < n
        invariant
            0 <= p <= n,
            n == data@.len(),
            split_lines(data@) == lines.deep_view() + split_lines(data@.skip(p as int)),
        decreases n - p,
    {
        let i = scan_byte(data, p, 10);
        let ghost rest = data@.skip(p as int);
        if i < n {
            let line = vstd::slice::slice_to_vec(vstd::slice::slice_subrange(data, p, i));
            let ghost before = lines.deep_view();
            lines.push(line);
            proof {
                assert(rest.len() > 0);
                assert(find_byte(rest, 10) == i - p);
                assert(rest.take(i - p) =~= data@.subrange(p as int, i as int));
                assert(rest.skip(i - p + 1) =~= data@.skip(i as int + 1));
                assert(split_lines(rest) == seq![rest.take(i - p)] + split_lines(
                    rest.skip(i - p + 1),
                ));
                assert(lines.deep_view() =~~= before.push(data@.subrange(p as int, i as int)));
                assert(before + seq![data@.subrange(p as int, i as int)] =~= before.push(
                    data@.subrange(p as int, i as int),
                ));
                assert(split_lines(data@) == before + (seq![rest.take(i - p)] + split_lines(
                    rest.skip(i - p + 1),
                )));
                assert(split_lines(data@) =~= lines.deep_view() + split_lines(
                    data@.skip(i as int + 1),
                ));
            }
            p = i + 1;
        } else {
            let line = vstd::slice::slice_to_vec(vstd::slice::slice_subrange(data, p, n));
            let ghost before = lines.deep_view();
            lines.push(line);
            proof {
                assert(rest.len() > 0);
                assert(find_byte(rest, 10) == rest.len());
                assert(split_lines(rest) == seq![rest]);
                assert(rest =~= data@.subrange(p as int, n as int));
                assert(lines.deep_view() =~~= before.push(rest));
                assert(before + seq![rest] =~= before.push(rest));
                assert(data@.skip(n as int) =~= Seq::<u8>::empty());
                assert(split_lines(data@) =~= lines.deep_view() + split_lines(
                    data@.skip(n as int),
                ));
            }
            p = n;
        }
    }
    proof {
        assert(data@.skip(n as int) =~= Seq::<u8>::empty());
        assert(lines.deep_view() =~= lines.deep_view() + split_lines(data@.skip(n as int)));
    }
    lines
}

/// Copy `s` without a trailing `\r`.
pub(crate) fn strip_cr_vec(s: &[u8]) -> (r: Vec<u8>)
    ensures
        r@ == strip_cr(s@),
{
    let n = s.len();
    let end = if n > 0 && s[n - 1] == 13 {
        n - 1
    } else {
        n
    };
    let r = vstd::slice::slice_to_vec(vstd::slice::slice_subrange(s, 0, end));
    proof {
        if n > 0 && s@.last() == 13 {
            assert(r@ =~= strip_cr(s@));
        } else {
            assert(r@ =~= s@);
        }
    }
    r
}

/// Trimming from the front skips exactly the leading blanks.
proof fn lemma_trim_start_at(s: Seq<u8>, a: int)
    requires
        0 <= a <= s.len(),
        forall|j: int| 0 <= j < a ==> is_ows(#[trigger] s[j]),
        a < s.len() ==> !is_ows(s[a]),
    ensures
        trim_start(s) == s.skip(a),
    decreases a,
{
    if a == 0 {
        if s.len() > 0 && is_ows(s[0]) {
            assert(false);
        }
        assert(s.skip(0) =~= s);
    } else {
        assert(is_ows(s[0]));
        assert forall|j: int| 0 <= j < a - 1 implies is_ows(#[trigger] s.skip(1)[j]) by {
            assert(s.skip(1)[j] == s[j + 1]);
        }
        assert(a - 1 < s.skip(1).len() ==> !is_ows(s.skip(1)[a - 1]));
        lemma_trim_start_at(s.skip(1), a - 1);
        assert(s.skip(1).skip(a - 1) =~= s.skip(a));
    }
}

/// Trimming from the back keeps exactly the bytes before the trailing
/// blanks.
proof fn lemma_trim_end_at(s: Seq<u8>, e: int)
    requires
        0 <= e <= s.len(),
        forall|j: int| e <= j < s.len() ==> is_ows(#[trigger] s[j]),
        e > 0 ==> !is_ows(s[e - 1]),
    ensures
        trim_end(s) == s.take(e),
    decreases s.len(),
{
    if e == s.len() {
        if s.len() > 0 && is_ows(s.last()) {
            assert(false);
        }
        assert(s.take(e) =~= s);
    } else {
        assert(is_ows(s.last()));
        assert(s.drop_last() =~= s.take(s.len() - 1));
        assert forall|j: int| e <= j < s.drop_last().len() implies is_ows(
            #[trigger] s.drop_last()[j],
        ) by {
            assert(s.drop_last()[j] == s[j]);
        }
        lemma_trim_end_at(s.drop_last(), e);
        assert(s.drop_last().take(e) =~= s.take(e));
    }
}

/// Copy `s` without leading and trailing blanks.
pub(crate) fn trim_ows_vec(s: &[u8]) -> (r: Vec<u8>)
    ensures
        r@ == trim_ows(s@),
{
    let n = s.len();
    let mut a: usize = 0;
    while a < n && (s[a] == 32 || s[a] == 9)
        invariant
            0 <= a <= n,
            n == s@.len(),
            forall|j: int| 0 <= j < a ==> is_ows(#[trigger] s@[j]),
        decreases n - a,
    {
        a = a + 1;
    }
    let mut e: usize = n;
    while e > a && (s[e - 1] == 32 || s[e - 1] == 9)
        invariant
            a <= e <= n,
            n == s@.len(),
            forall|j: int| e <= j < n ==> is_ows(#[trigger] s@[j]),
        decreases e,
    {
        e = e - 1;
    }
    let r = vstd::slice::slice_to_vec(vstd::slice::slice_subrange(s, a, e));
    proof {
        lemma_trim_start_at(s@, a as int);
        let t = s@.skip(a as int);
        assert forall|j: int| e - a <= j < t.len() implies is_ows(#[trigger] t[j]) by {
            assert(t[j] == s@[j + a]);
        }
        if e > a {
            assert(!is_ows(t[e - a - 1]));
        }
        lemma_trim_end_at(t, e - a);
        assert(t.take(e - a) =~= s@.subrange(a as int, e as int));
    }
    r
}

/// Copy `s` without trailing blanks.
pub(crate) fn trim_end_vec(s: &[u8]) -> (r: Vec<u8>)
    ensures
        r@ == trim_end(s@),
{
    let n = s.len();
    let mut e: usize = n;
    while e > 0 && (s[e - 1] == 32 || s[e - 1] == 9)
        invariant
            0 <= e <= n,
            n == s@.len(),
            forall|j: int| e <= j < n ==> is_ows(#[trigger] s@[j]),
        decreases e,
    {
        e = e - 1;
    }
    let r = vstd::slice::slice_to_vec(vstd::slice::slice_subrange(s, 0, e));
    proof {
        lemma_trim_end_at(s@, e as int);
        assert(r@ =~= s@.take(e as int));
    }
    r
}

/// Whether `s` is a non-empty HTTP token.
pub(crate) fn is_token_slice(s: &[u8]) -> (r: bool)
    ensures
        r == is_token(s@),
{
    let n = s.len();
    if n == 0 {
        return false;
    }
    let mut i: usize = 0;
    while i < n
        invariant
            0 <= i <= n,
            n == s@.len(),
            forall|j: int| 0 <= j < i ==> is_tchar(#[trigger] s@[j]),
        decreases n - i,
    {
        let b = s[i];
        let ok = (48 <= b && b <= 57) || (65 <= b && b <= 90) || (97 <= b && b <= 122) || b == 33
            || b == 35 || b == 36 || b == 37 || b == 38 || b == 39 || b == 42 || b == 43 || b == 45
            || b == 46 || b == 94 || b == 95 || b == 96 || b == 124 || b == 126;
        if !ok {
            assert(!is_tchar(s@[i as int]));
            return false;
        }
        i = i + 1;
    }
    true
}

/// Whether every byte of `s` is visible ASCII.
fn all_vchar_slice(s: &[u8]) -> (r: bool)
    ensures
        r == all_vchar(s@),
{
    let n = s.len();
    let mut i: usize = 0;
    while i < n
        invariant
            0 <= i <= n,
            n == s@.len(),
            forall|j: int| 0 <= j < i ==> is_vchar(#[trigger] s@[j]),
        decreases n - i,
    {
        if s[i] < 33 || s[i] > 126 {
            assert(!is_vchar(s@[i as int]));
            return false;
        }
        i = i + 1;
    }
    true
}

/// Whether every byte of `s` may appear in a header value.
pub(crate) fn all_field_bytes_slice(s: &[u8]) -> (r: bool)
    ensures
        r == all_field_bytes(s@),
{
    let n = s.len();
    let mut i: usize = 0;
    while i < n
        invariant
            0 <= i <= n,
            n == s@.len(),
            forall|j: int| 0 <= j < i ==> is_field_byte(#[trigger] s@[j]),
        decreases n - i,
    {
        let b = s[i];
        if !(b == 9 || (32 <= b && b <= 126) || b >= 128) {
            assert(!is_field_byte(s@[i as int]));
            return false;
        }
        i = i + 1;
    }
    true
}

/// Whether `v` spells an HTTP/1.x version mark.
fn is_version_slice(v: &[u8]) -> (r: bool)
    ensures
        r == is_version(v@),
{
    v.len() == 8 && v[0] == 72 && v[1] == 84 && v[2] == 84 && v[3] == 80 && v[4] == 47 && v[5]
        == 49 && v[6] == 46 && (v[7] == 48 || v[7] == 49)
}

/// Parse a request line, as [`parse_request_line`] describes it.
fn parse_request_line_vec(line: &[u8]) -> (r: Option<(Vec<u8>, Vec<u8>, u8)>)
    ensures
        match r {
            Some(t) => parse_request_line(line@) == Some((t.0@, t.1@, t.2)),
            None => parse_request_line(line@) is None,
        },
{
    let n = line.len();
    let i = scan_byte(line, 0, 32);
    proof {
        assert(line@.skip(0) =~= line@);
    }
    if i == n {
        return None;
    }
    let method = vstd::slice::slice_to_vec(vstd::slice::slice_subrange(line, 0, i));
    let rest = vstd::slice::slice_subrange(line, i + 1, n);
    proof {
        assert(method@ =~= line@.take(i as int));
        assert(rest@ =~= line@.skip(i as int + 1));
    }
    let m = rest.len();
    let j = scan_byte(rest, 0, 32);
    proof {
        assert(rest@.skip(0) =~= rest@);
    }
    if j == m {
        return None;
    }
    let path = vstd::slice::slice_to_vec(vstd::slice::slice_subrange(rest, 0, j));
    let ver = vstd::slice::slice_subrange(rest, j + 1, m);
    proof {
        assert(path@ =~= rest@.take(j as int));
        assert(ver@ =~= rest@.skip(j as int + 1));
    }
    if is_token_slice(method.as_slice()) && path.len() > 0 && all_vchar_slice(path.as_slice())
        && is_version_slice(ver) {
        let digit = ver[7];
        Some((method, path, digit - 48))
    } else {
        None
    }
}

/// Parse a header line, as [`parse_header_line`] describes it.
pub(crate) fn parse_header_line_vec(line: &[u8]) -> (r: Option<(Vec<u8>, Vec<u8>)>)
    ensures
        match r {
            Some(t) => parse_header_line(line@) == Some((t.0@, t.1@)),
            None => parse_header_line(line@) is None,
        },
{
    let n = line.len();
    let i = scan_byte(line, 0, 58);
    proof {
        assert(line@.skip(0) =~= line@);
    }
    if i == n {
        return None;
    }
    let name = vstd::slice::slice_to_vec(vstd::slice::slice_subrange(line, 0, i));
    let raw = vstd::slice::slice_subrange(line, i + 1, n);
    proof {
        assert(name@ =~= line@.take(i as int));
        assert(raw@ =~= line@.skip(i as int + 1));
    }
    let value = trim_ows_vec(raw);
    if is_token_slice(name.as_slice()) && all_field_bytes_slice(value.as_slice())
        && crate::text::is_valid_utf8(value.as_slice()) {
        Some((name, value))
    } else {
        None
    }
}

/// Parse a header block into a request, carrying the pre-read body bytes
/// along unchanged. Succeeds exactly when the block obeys the grammar; a
/// malformed block is a `Parse` error.
pub fn parse_request(block: &Vec<u8>, body_start: Vec<u8>) -> (r: Result<Requested, HttpError>)
    ensures
        match r {
            Ok(req) => {
                &&& spec_parse_request(block@) == Some(
                    (req.method@, req.path@, req.version, req.headers_view()),
                )
                &&& req.body_start@ == body_start@
                &&& req.wf()
            },
            Err(e) => {
                &&& e.spec_kind() == HttpErrorKind::Parse
                &&& spec_parse_request(block@) is None
            },
        },
{
    let lines = split_lines_vec(block.as_slice());
    let ghost lv = split_lines(block@);
    let count = lines.len();
    proof {
        assert(lines.deep_view().len() == count);
    }
    if count < 2 {
        return Err(HttpError::new(HttpErrorKind::Parse, "request too short"));
    }
    let first = strip_cr_vec(lines[0].as_slice());
    proof {
        assert(lines.deep_view()[0] == lines@[0]@);
        assert(first@ == strip_cr(lv[0]));
    }
    let rl = match parse_request_line_vec(first.as_slice()) {
        Some(t) => t,
        None => {
            return Err(HttpError::new(HttpErrorKind::Parse, "malformed request line"));
        },
    };
    let last = strip_cr_vec(lines[count - 1].as_slice());
    proof {
        assert(lines.deep_view()[count - 1] == lines@[count - 1 as int]@);
        assert(last@ == strip_cr(lv.last()));
    }
    if last.len() != 0 {
        return Err(HttpError::new(HttpErrorKind::Parse, "header block not closed"));
    }
    let mut headers: Vec<(Vec<u8>, Vec<u8>)> = Vec::new();
    let mut k: usize = 1;
    while k < count - 1
        invariant
            1 <= k <= count - 1,
            count == lines@.len(),
            count >= 2,
            lines.deep_view() == lv,
            lv == split_lines(block@),
            lv.len() == count,
            parse_request_line(strip_cr(lv[0])) is Some,
            forall|i: int|
                1 <= i < k ==> parse_header_line(strip_cr(#[trigger] lv[i])) is Some,
            headers.deep_view() == Seq::new(
                (k - 1) as nat,
                |i: int| parse_header_line(strip_cr(lv[i + 1]))->0,
            ),
        decreases count - k,
    {
        let line = strip_cr_vec(lines[k].as_slice());
        proof {
            assert(lines.deep_view()[k as int] == lines@[k as int]@);
            assert(line@ == strip_cr(lv[k as int]));
        }
        match parse_header_line_vec(line.as_slice()) {
            Some(pair) => {
                let ghost hb = headers.deep_view();
                headers.push(pair);
                proof {
                    assert(parse_header_line(strip_cr(lv[k as int])) == Some(
                        (pair.0@, pair.1@),
                    ));
                    assert(headers.deep_view() =~~= hb.push((pair.0@, pair.1@)));
                    assert(headers.deep_view() =~~= Seq::new(
                        k as nat,
                        |i: int| parse_header_line(strip_cr(lv[i + 1]))->0,
                    ));
                }
            },
            None => {
                proof {
                    assert(parse_header_line(strip_cr(lv[k as int])) is None);
                    assert(!(forall|i: int|
                        1 <= i < lv.len() - 1 ==> parse_header_line(
                            strip_cr(#[trigger] lv[i]),
                        ) is Some));
                }
                return Err(HttpError::new(HttpErrorKind::Parse, "malformed header line"));
            },
        }
        k = k + 1;
    }
    let req = Requested { method: rl.0, path: rl.1, version: rl.2, headers, body_start };
    proof {
        let t = parse_request_line(strip_cr(lv[0]))->0;
        assert(req.headers_view() =~= Seq::new(
            (lv.len() - 2) as nat,
            |i: int| parse_header_line(strip_cr(lv[i + 1]))->0,
        ));
        assert(spec_parse_request(block@) == Some(
            (req.method@, req.path@, req.version, req.headers_view()),
        ));
        assert forall|i: int|
            0 <= i < req.headers@.len() implies is_token(#[trigger] req.headers@[i].0@)
            && all_field_bytes(req.headers@[i].1@) && vstd::utf8::valid_utf8(
            req.headers@[i].1@,
        ) by {
            assert(req.headers_view()[i] == req.headers@[i].deep_view());
            assert(req.headers@[i].0.deep_view() =~= req.headers@[i].0@);
            assert(req.headers@[i].1.deep_view() =~= req.headers@[i].1@);
            assert(req.headers_view()[i] == parse_header_line(strip_cr(lv[i + 1]))->0);
            assert(parse_header_line(strip_cr(lv[i + 1])) is Some);
        }
        assert(req.wf());
    }
    Ok(req)
}

} // verus!
