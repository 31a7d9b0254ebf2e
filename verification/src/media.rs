//! Media types.
//!
//! A `Content-Type` header value names a type and subtype, optionally
//! followed by `;`-separated `name=value` parameters — for a form body,
//! the `boundary`. The grammar here: type and subtype are HTTP tokens
//! (stored lower-cased, as is each parameter name); a parameter value is
//! either bare — visible or multi-byte bytes other than `;` and `"` — or
//! quoted, where the quotes may hold blanks and multi-byte characters but
//! no `;`, `"` or backslash; either way the value must be valid UTF-8.

use vstd::prelude::*;

use crate::request::find_byte;
use crate::request::is_token;
use crate::request::is_vchar;
use crate::request::trim_end;
use crate::request::trim_ows;
use crate::text::all_ascii;
use crate::text::lower_seq;

verus! {

/// `b` may appear in a bare parameter value: visible ASCII except `;`
/// and `"`, or a byte of a multi-byte character.
pub open spec fn is_bare_value_byte(b: u8) -> bool {
    (is_vchar(b) || b >= 128) && b != 59 && b != 34
}

/// `b` may appear inside a quoted parameter value: a blank or visible
/// ASCII except `"` and backslash, or a byte of a multi-byte character.
pub open spec fn is_quoted_value_byte(b: u8) -> bool {
    (b == 9 || 32 <= b <= 126 || b >= 128) && b != 34 && b != 92
}

/// What one `name=value` piece means: the lower-cased name and the value,
/// unquoted if it was quoted — or nothing when the piece is not one.
pub open spec fn parse_param(s: Seq<u8>) -> Option<(Seq<u8>, Seq<u8>)> {
    let e = find_byte(s, 61);
    if e == s.len() {
        None
    } else {
        let name = s.take(e);
        let raw = s.skip(e + 1);
        if !is_token(name) {
            None
        } else if raw.len() >= 2 && raw[0] == 34 && raw.last() == 34 {
            let inner = raw.subrange(1, raw.len() - 1);
            if (forall|i: int| 0 <= i < inner.len() ==> is_quoted_value_byte(#[trigger] inner[i]))
                && vstd::utf8::valid_utf8(inner) {
                Some((lower_seq(name), inner))
            } else {
                None
            }
        } else {
            if raw.len() > 0 && (forall|i: int|
                0 <= i < raw.len() ==> is_bare_value_byte(#[trigger] raw[i]))
                && vstd::utf8::valid_utf8(raw) {
                Some((lower_seq(name), raw))
            } else {
                None
            }
        }
    }
}

/// What a parameter list means, starting at a `;` or at the end: the
/// parameters in order — or nothing when any piece is malformed.
pub open spec fn parse_params(s: Seq<u8>) -> Option<Seq<(Seq<u8>, Seq<u8>)>>
    decreases s.len(),
    via parse_params_dec
{
    if s.len() == 0 {
        Some(Seq::empty())
    } else if s[0] != 59 {
        None
    } else {
        let body = s.skip(1);
        let k = find_byte(body, 59);
        let piece = trim_ows(body.take(k));
        let rest = body.skip(k);
        match parse_param(piece) {
            None => None,
            Some(p) => match parse_params(rest) {
                None => None,
                Some(ps) => Some(seq![p] + ps),
            },
        }
    }
}

#[via_fn]
proof fn parse_params_dec(s: Seq<u8>) {
    if s.len() > 0 && s[0] == 59 {
        crate::request::lemma_find_byte_bounds(s.skip(1), 59);
    }
}

/// What a whole `Content-Type` value means: lower-cased type and subtype
/// and the parameter list — or nothing when it is malformed.
pub open spec fn parse_media_type(s: Seq<u8>) -> Option<
    (Seq<u8>, Seq<u8>, Seq<(Seq<u8>, Seq<u8>)>),
> {
    let i = find_byte(s, 47);
    if i == s.len() {
        None
    } else {
        let kind = s.take(i);
        let rest = s.skip(i + 1);
        let j = find_byte(rest, 59);
        let subtype = trim_end(rest.take(j));
        let params_part = rest.skip(j);
        if is_token(kind) && is_token(subtype) {
            match parse_params(params_part) {
                None => None,
                Some(ps) => Some((lower_seq(kind), lower_seq(subtype), ps)),
            }
        } else {
            None
        }
    }
}

/// The value of the first parameter named `name` (`name` already
/// lower-cased), or nothing.
pub open spec fn first_param(ps: Seq<(Seq<u8>, Seq<u8>)>, name: Seq<u8>) -> Option<Seq<u8>>
    decreases ps.len(),
{
    if ps.len() == 0 {
        None
    } else if ps[0].0 == name {
        Some(ps[0].1)
    } else {
        first_param(ps.skip(1), name)
    }
}

/// A parsed media type: lower-cased type and subtype, and the parameters
/// in order, names lower-cased.
#[derive(Debug)]
pub struct MediaType {
    /// The type, lower-cased (`multipart` in `multipart/form-data`).
    pub kind: Vec<u8>,
    /// The subtype, lower-cased (`form-data` in `multipart/form-data`).
    pub subtype: Vec<u8>,
    /// The parameters, in order, names lower-cased.
    pub params: Vec<(Vec<u8>, Vec<u8>)>,
}

impl MediaType {
    /// The parameter pairs as mathematical sequences.
    pub open spec fn params_view(&self) -> Seq<(Seq<u8>, Seq<u8>)> {
        self.params.deep_view()
    }

    /// The type and subtype and parameter names are ASCII; parameter
    /// values are valid UTF-8.
    pub open spec fn wf(&self) -> bool {
        &&& all_ascii(self.kind@)
        &&& all_ascii(self.subtype@)
        &&& forall|i: int|
            0 <= i < self.params@.len() ==> all_ascii(#[trigger] self.params@[i].0@)
                && vstd::utf8::valid_utf8(self.params@[i].1@)
    }

    /// The type, as text.
    pub fn type_(&self) -> (t: String)
        requires
            self.wf(),
        ensures
            vstd::utf8::encode_utf8(t@) == self.kind@,
    {
        proof {
            crate::text::lemma_ascii_valid_utf8(self.kind@);
        }
        crate::text::utf8_to_string(vstd::slice::slice_to_vec(self.kind.as_slice()))
    }

    /// The subtype, as text.
    pub fn subtype(&self) -> (t: String)
        requires
            self.wf(),
        ensures
            vstd::utf8::encode_utf8(t@) == self.subtype@,
    {
        proof {
            crate::text::lemma_ascii_valid_utf8(self.subtype@);
        }
        crate::text::utf8_to_string(vstd::slice::slice_to_vec(self.subtype.as_slice()))
    }

    /// The value of the first parameter whose lower-cased name equals
    /// `name`, or nothing.
    pub fn param(&self, name: &[u8]) -> (r: Option<Vec<u8>>)
        ensures
            match r {
                Some(v) => first_param(self.params_view(), name@) == Some(v@),
                None => first_param(self.params_view(), name@) is None,
            },
    {
        let ghost ps = self.params_view();
        let count = self.params.len();
        let mut i: usize = 0;
        proof {
            assert(ps.skip(0) =~= ps);
        }
        while i < count
            invariant
                0 <= i <= count,
                count == self.params@.len(),
                ps == self.params_view(),
                ps.len() == count,
                first_param(ps, name@) == first_param(ps.skip(i as int), name@),
                forall|j: int| 0 <= j < i ==> ps[j].0 != name@,
            decreases count - i,
        {
            let pair = &self.params[i];
            proof {
                assert(ps[i as int] == self.params@[i as int].deep_view());
                assert(pair.0.deep_view() =~= pair.0@);
                assert(pair.1.deep_view() =~= pair.1@);
                assert(ps[i as int] == (pair.0@, pair.1@));
                assert(ps.skip(i as int)[0] == ps[i as int]);
            }
            if crate::text::bytes_eq(pair.0.as_slice(), name) {
                proof {
                    assert(first_param(ps.skip(i as int), name@) == Some(pair.1@));
                }
                return Some(vstd::slice::slice_to_vec(pair.1.as_slice()));
            }
            proof {
                assert(ps.skip(i as int).skip(1) =~= ps.skip(i as int + 1));
                assert(first_param(ps.skip(i as int), name@) == first_param(
                    ps.skip(i as int + 1),
                    name@,
                ));
            }
            i = i + 1;
        }
        proof {
            assert(ps.skip(count as int) =~= Seq::<(Seq<u8>, Seq<u8>)>::empty());
        }
        None
    }
}

/// Whether every byte of `s` may appear inside a quoted value.
fn all_quoted_slice(s: &[u8]) -> (r: bool)
    ensures
        r == forall|i: int| 0 <= i < s@.len() ==> is_quoted_value_byte(#[trigger] s@[i]),
{
    let n = s.len();
    let mut i: usize = 0;
    while i < n
        invariant
            0 <= i <= n,
            n == s@.len(),
            forall|j: int| 0 <= j < i ==> is_quoted_value_byte(#[trigger] s@[j]),
        decreases n - i,
    {
        let b = s[i];
        if !((b == 9 || (32 <= b && b <= 126) || b >= 128) && b != 34 && b != 92) {
            assert(!is_quoted_value_byte(s@[i as int]));
            return false;
        }
        i = i + 1;
    }
    true
}

/// Whether every byte of `s` may appear in a bare value.
fn all_bare_slice(s: &[u8]) -> (r: bool)
    ensures
        r == forall|i: int| 0 <= i < s@.len() ==> is_bare_value_byte(#[trigger] s@[i]),
{
    let n = s.len();
    let mut i: usize = 0;
    while i < n
        invariant
            0 <= i <= n,
            n == s@.len(),
            forall|j: int| 0 <= j < i ==> is_bare_value_byte(#[trigger] s@[j]),
        decreases n - i,
    {
        let b = s[i];
        if !((33 <= b && b <= 126 || b >= 128) && b != 59 && b != 34) {
            assert(!is_bare_value_byte(s@[i as int]));
            return false;
        }
        i = i + 1;
    }
    true
}

/// Parse one `name=value` piece, as [`parse_param`] describes it.
fn parse_param_vec(s: &[u8]) -> (r: Option<(Vec<u8>, Vec<u8>)>)
    ensures
        match r {
            Some(t) => parse_param(s@) == Some((t.0@, t.1@)),
            None => parse_param(s@) is None,
        },
{
    let n = s.len();
    let e = crate::request::scan_byte(s, 0, 61);
    proof {
        assert(s@.skip(0) =~= s@);
    }
    if e == n {
        return None;
    }
    let name = vstd::slice::slice_subrange(s, 0, e);
    let raw = vstd::slice::slice_subrange(s, e + 1, n);
    proof {
        assert(name@ =~= s@.take(e as int));
        assert(raw@ =~= s@.skip(e as int + 1));
    }
    if !crate::request::is_token_slice(name) {
        return None;
    }
    let m = raw.len();
    if m >= 2 && raw[0] == 34 && raw[m - 1] == 34 {
        let inner = vstd::slice::slice_subrange(raw, 1, m - 1);
        proof {
            assert(inner@ =~= raw@.subrange(1, raw@.len() - 1));
        }
        if all_quoted_slice(inner) && crate::text::is_valid_utf8(inner) {
            Some((crate::text::lower_bytes(name), vstd::slice::slice_to_vec(inner)))
        } else {
            None
        }
    } else {
        if m > 0 && all_bare_slice(raw) && crate::text::is_valid_utf8(raw) {
            Some((crate::text::lower_bytes(name), vstd::slice::slice_to_vec(raw)))
        } else {
            None
        }
    }
}

/// Parse a parameter list, as [`parse_params`] describes it.
pub(crate) fn parse_params_vec(s: &[u8]) -> (r: Option<Vec<(Vec<u8>, Vec<u8>)>>)
    ensures
        match r {
            Some(v) => parse_params(s@) == Some(v.deep_view()),
            None => parse_params(s@) is None,
        },
    decreases s@.len(),
{
    let n = s.len();
    if n == 0 {
        let out: Vec<(Vec<u8>, Vec<u8>)> = Vec::new();
        proof {
            assert(out.deep_view() =~= Seq::<(Seq<u8>, Seq<u8>)>::empty());
        }
        return Some(out);
    }
    if s[0] != 59 {
        return None;
    }
    let body = vstd::slice::slice_subrange(s, 1, n);
    proof {
        assert(body@ =~= s@.skip(1));
    }
    let k = crate::request::scan_byte(body, 0, 59);
    proof {
        assert(body@.skip(0) =~= body@);
    }
    let piece = crate::request::trim_ows_vec(vstd::slice::slice_subrange(body, 0, k));
    let rest = vstd::slice::slice_subrange(body, k, body.len());
    proof {
        assert(piece@ == trim_ows(body@.take(k as int)));
        assert(rest@ =~= body@.skip(k as int));
    }
    let p = match parse_param_vec(piece.as_slice()) {
        Some(p) => p,
        None => {
            return None;
        },
    };
    let mut tail = match parse_params_vec(rest) {
        Some(ps) => ps,
        None => {
            return None;
        },
    };
    let ghost tail_view = tail.deep_view();
    let mut out: Vec<(Vec<u8>, Vec<u8>)> = Vec::new();
    out.push(p);
    out.append(&mut tail);
    proof {
        assert(out.deep_view() =~~= seq![(p.0@, p.1@)] + tail_view);
    }
    Some(out)
}

/// Parse a whole `Content-Type` value, as [`parse_media_type`] describes
/// it.
pub fn parse_media_type_vec(s: &[u8]) -> (r: Option<MediaType>)
    ensures
        match r {
            Some(mt) => {
                &&& parse_media_type(s@) == Some((mt.kind@, mt.subtype@, mt.params_view()))
                &&& mt.wf()
            },
            None => parse_media_type(s@) is None,
        },
{
    let n = s.len();
    let i = crate::request::scan_byte(s, 0, 47);
    proof {
        assert(s@.skip(0) =~= s@);
    }
    if i == n {
        return None;
    }
    let kind_raw = vstd::slice::slice_subrange(s, 0, i);
    let rest = vstd::slice::slice_subrange(s, i + 1, n);
    proof {
        assert(kind_raw@ =~= s@.take(i as int));
        assert(rest@ =~= s@.skip(i as int + 1));
    }
    let m = rest.len();
    let j = crate::request::scan_byte(rest, 0, 59);
    proof {
        assert(rest@.skip(0) =~= rest@);
    }
    let subtype_raw = crate::request::trim_end_vec(vstd::slice::slice_subrange(rest, 0, j));
    let params_part = vstd::slice::slice_subrange(rest, j, m);
    proof {
        assert(subtype_raw@ == trim_end(rest@.take(j as int)));
        assert(params_part@ =~= rest@.skip(j as int));
    }
    if !crate::request::is_token_slice(kind_raw) {
        return None;
    }
    if !crate::request::is_token_slice(subtype_raw.as_slice()) {
        return None;
    }
    let params = match parse_params_vec(params_part) {
        Some(ps) => ps,
        None => {
            return None;
        },
    };
    let mt = MediaType {
        kind: crate::text::lower_bytes(kind_raw),
        subtype: crate::text::lower_bytes(subtype_raw.as_slice()),
        params,
    };
    proof {
        crate::request::lemma_token_ascii(kind_raw@);
        crate::request::lemma_token_ascii(subtype_raw@);
        crate::text::lemma_lower_ascii(kind_raw@);
        crate::text::lemma_lower_ascii(subtype_raw@);
        lemma_params_ascii(params_part@);
        assert forall|t: int|
            0 <= t < mt.params@.len() implies all_ascii(#[trigger] mt.params@[t].0@)
            && vstd::utf8::valid_utf8(mt.params@[t].1@) by {
            assert(mt.params_view()[t] == mt.params@[t].deep_view());
            assert(mt.params@[t].0.deep_view() =~= mt.params@[t].0@);
            assert(mt.params@[t].1.deep_view() =~= mt.params@[t].1@);
            assert(all_ascii((parse_params(params_part@)->0)[t].0));
            assert(vstd::utf8::valid_utf8((parse_params(params_part@)->0)[t].1));
            assert((parse_params(params_part@)->0)[t] == mt.params_view()[t]);
        }
    }
    Some(mt)
}

/// Whatever a parameter list parses to has ASCII names and valid UTF-8
/// values.
pub(crate) proof fn lemma_params_ascii(s: Seq<u8>)
    requires
        parse_params(s) is Some,
    ensures
        forall|i: int|
            0 <= i < parse_params(s)->0.len() ==> all_ascii(#[trigger] parse_params(s)->0[i].0)
                && vstd::utf8::valid_utf8(parse_params(s)->0[i].1),
    decreases s.len(),
{
    if s.len() == 0 {
    } else {
        let body = s.skip(1);
        lemma_find_byte_bounds_local(body);
        let k = find_byte(body, 59);
        let piece = trim_ows(body.take(k));
        let rest = body.skip(k);
        lemma_param_ascii(piece);
        lemma_params_ascii(rest);
        let ps = parse_params(s)->0;
        let p = parse_param(piece)->0;
        let tail = parse_params(rest)->0;
        assert forall|i: int|
            0 <= i < ps.len() implies all_ascii(#[trigger] ps[i].0) && vstd::utf8::valid_utf8(
            ps[i].1,
        ) by {
            if i == 0 {
                assert(ps[i] == p);
            } else {
                assert(ps[i] == tail[i - 1]);
            }
        }
    }
}

/// `find_byte` for the separator stays within bounds.
proof fn lemma_find_byte_bounds_local(s: Seq<u8>) 
    ensures
        0 <= find_byte(s, 59) <= s.len(),
{
    crate::request::lemma_find_byte_bounds(s, 59);
}

/// Whatever one parameter piece parses to has an ASCII name and a valid
/// UTF-8 value.
proof fn lemma_param_ascii(s: Seq<u8>)
    requires
        parse_param(s) is Some,
    ensures
        all_ascii((parse_param(s)->0).0),
        vstd::utf8::valid_utf8((parse_param(s)->0).1),
{
    let e = find_byte(s, 61);
    let name = s.take(e);
    crate::request::lemma_token_ascii(name);
    crate::text::lemma_lower_ascii(name);
}

/// The first value of a list of valid UTF-8 values is valid UTF-8.
pub(crate) proof fn lemma_first_param_valid(ps: Seq<(Seq<u8>, Seq<u8>)>, name: Seq<u8>)
    requires
        forall|i: int| 0 <= i < ps.len() ==> vstd::utf8::valid_utf8(#[trigger] ps[i].1),
        first_param(ps, name) is Some,
    ensures
        vstd::utf8::valid_utf8(first_param(ps, name)->0),
    decreases ps.len(),
{
    if ps.len() > 0 && ps[0].0 != name {
        assert forall|i: int| 0 <= i < ps.skip(1).len() implies vstd::utf8::valid_utf8(
            #[trigger] ps.skip(1)[i].1,
        ) by {
            assert(ps.skip(1)[i] == ps[i + 1]);
        }
        lemma_first_param_valid(ps.skip(1), name);
    }
}

} // verus!
