//! Multipart form bodies.
//!
//! A `multipart/form-data` body is a sequence of parts, each framed by the
//! delimiter `--` + boundary on a line of its own: the body opens with the
//! delimiter, each part carries its own little header block (at least a
//! `Content-Disposition: form-data` with a `name` parameter, optionally a
//! `filename` and a `Content-Type`), a blank line, and the part's bytes,
//! which run to the next delimiter line; `--` after a delimiter closes the
//! body. No preamble before the first delimiter is accepted.

use vstd::prelude::*;

use crate::error::HttpError;
use crate::error::HttpErrorKind;
use crate::media::MediaType;
use crate::media::first_param;
use crate::media::parse_params;
use crate::media::parse_media_type;
use crate::request::find_byte;
use crate::request::parse_header_line;
use crate::request::split_lines;
use crate::request::strip_cr;
use crate::request::trim_end;
use crate::text::all_ascii;
use crate::text::lower_seq;

verus! {

/// The index of the first place `pat` occurs in `s`, or `s.len()` when it
/// occurs nowhere.
pub open spec fn find_seq(s: Seq<u8>, pat: Seq<u8>) -> int
    decreases s.len(),
{
    if s.len() < pat.len() || pat.len() == 0 {
        s.len() as int
    } else if s.subrange(0, pat.len() as int) == pat {
        0
    } else {
        1 + find_seq(s.skip(1), pat)
    }
}

/// A scan that stopped at the first occurrence computed `find_seq`.
proof fn lemma_find_seq_found(s: Seq<u8>, pat: Seq<u8>, i: int)
    requires
        pat.len() > 0,
        0 <= i,
        i + pat.len() <= s.len(),
        s.subrange(i, i + pat.len()) == pat,
        forall|j: int| 0 <= j < i ==> #[trigger] s.subrange(j, j + pat.len() as int) != pat,
    ensures
        find_seq(s, pat) == i,
    decreases i,
{
    if s.len() < pat.len() {
    } else if s.subrange(0, pat.len() as int) == pat {
        if i > 0 {
            assert(s.subrange(0, 0 + pat.len() as int) != pat);
        }
    } else {
        if i == 0 {
            assert(s.subrange(0, pat.len() as int) =~= s.subrange(i, i + pat.len()));
        }
        assert(i >= 1);
        assert(s.skip(1).subrange(i - 1, i - 1 + pat.len()) =~= s.subrange(i, i + pat.len()));
        assert forall|j: int| 0 <= j < i - 1 implies #[trigger] s.skip(1).subrange(
            j,
            j + pat.len() as int,
        ) != pat by {
            assert(s.skip(1).subrange(j, j + pat.len() as int) =~= s.subrange(
                j + 1,
                j + 1 + pat.len() as int,
            ));
        }
        lemma_find_seq_found(s.skip(1), pat, i - 1);
    }
}

/// A scan that found no occurrence computed `s.len()`.
proof fn lemma_find_seq_absent(s: Seq<u8>, pat: Seq<u8>)
    requires
        pat.len() > 0,
        forall|j: int|
            0 <= j && j + pat.len() <= s.len() ==> #[trigger] s.subrange(j, j + pat.len() as int)
                != pat,
    ensures
        find_seq(s, pat) == s.len(),
    decreases s.len(),
{
    if s.len() < pat.len() {
    } else {
        assert(s.subrange(0, 0 + pat.len() as int) != pat);
        assert forall|j: int|
            0 <= j && j + pat.len() <= s.skip(1).len() implies #[trigger] s.skip(1).subrange(
            j,
            j + pat.len() as int,
        ) != pat by {
            assert(s.skip(1).subrange(j, j + pat.len() as int) =~= s.subrange(
                j + 1,
                j + 1 + pat.len() as int,
            ));
        }
        lemma_find_seq_absent(s.skip(1), pat);
    }
}

/// `find_seq` never runs past the sequence, and when it lands strictly
/// inside, an occurrence starts there.
pub proof fn lemma_find_seq_bounds(s: Seq<u8>, pat: Seq<u8>)
    ensures
        0 <= find_seq(s, pat) <= s.len(),
        find_seq(s, pat) + pat.len() <= s.len() ==> s.subrange(
            find_seq(s, pat),
            find_seq(s, pat) + pat.len(),
        ) == pat || pat.len() == 0,
    decreases s.len(),
{
    if s.len() < pat.len() || pat.len() == 0 {
    } else if s.subrange(0, pat.len() as int) == pat {
    } else {
        lemma_find_seq_bounds(s.skip(1), pat);
        if find_seq(s, pat) + pat.len() <= s.len() && pat.len() > 0 {
            assert(s.skip(1).subrange(
                find_seq(s.skip(1), pat),
                find_seq(s.skip(1), pat) + pat.len(),
            ) =~= s.subrange(find_seq(s, pat), find_seq(s, pat) + pat.len()));
        }
    }
}

/// The value of the first header named `name` (`name` lower-cased, the
/// stored names compared without regard to ASCII case), or nothing.
pub open spec fn first_header(hs: Seq<(Seq<u8>, Seq<u8>)>, name: Seq<u8>) -> Option<Seq<u8>>
    decreases hs.len(),
{
    if hs.len() == 0 {
        None
    } else if lower_seq(hs[0].0) == lower_seq(name) {
        Some(hs[0].1)
    } else {
        first_header(hs.skip(1), name)
    }
}

/// The bytes of `content-disposition`.
pub open spec fn content_disposition_name() -> Seq<u8> {
    seq![
        99u8,
        111,
        110,
        116,
        101,
        110,
        116,
        45,
        100,
        105,
        115,
        112,
        111,
        115,
        105,
        116,
        105,
        111,
        110,
    ]
}

/// The bytes of `content-type`.
pub open spec fn content_type_name() -> Seq<u8> {
    seq![99u8, 111, 110, 116, 101, 110, 116, 45, 116, 121, 112, 101]
}

/// The bytes of `form-data`.
pub open spec fn form_data_name() -> Seq<u8> {
    seq![102u8, 111, 114, 109, 45, 100, 97, 116, 97]
}

/// The bytes of `name`.
pub open spec fn name_param() -> Seq<u8> {
    seq![110u8, 97, 109, 101]
}

/// The bytes of `filename`.
pub open spec fn filename_param() -> Seq<u8> {
    seq![102u8, 105, 108, 101, 110, 97, 109, 101]
}

/// What a `Content-Disposition` value of a part means: the field's name
/// and its optional filename — or nothing when the value is not a
/// `form-data` disposition naming the field.
pub open spec fn parse_disposition(v: Seq<u8>) -> Option<(Seq<u8>, Option<Seq<u8>>)> {
    let j = find_byte(v, 59);
    let kindtok = trim_end(v.take(j));
    let rest = v.skip(j);
    if lower_seq(kindtok) == form_data_name() {
        match parse_params(rest) {
            None => None,
            Some(ps) => match first_param(ps, name_param()) {
                None => None,
                Some(nm) => Some((nm, first_param(ps, filename_param()))),
            },
        }
    } else {
        None
    }
}

/// What one part means: `(name, content type, filename, data)` — or
/// nothing when its header block or disposition is malformed.
pub open spec fn parse_part(part: Seq<u8>) -> Option<
    (Seq<u8>, Option<Seq<u8>>, Option<Seq<u8>>, Seq<u8>),
> {
    let hend = find_seq(part, seq![13u8, 10, 13, 10]);
    if hend + 4 > part.len() {
        None
    } else {
        let lines = split_lines(part.take(hend));
        if forall|i: int|
            0 <= i < lines.len() ==> parse_header_line(strip_cr(#[trigger] lines[i])) is Some {
            let hs = Seq::new(
                lines.len(),
                |i: int| parse_header_line(strip_cr(lines[i]))->0,
            );
            match first_header(hs, content_disposition_name()) {
                None => None,
                Some(dv) => match parse_disposition(dv) {
                    None => None,
                    Some(d) => Some(
                        (d.0, first_header(hs, content_type_name()), d.1, part.skip(hend + 4)),
                    ),
                },
            }
        } else {
            None
        }
    }
}

/// What the bytes after a delimiter mean: the remaining fields in wire
/// order. `--` closes the body; otherwise a `\r\n` opens a part that runs
/// to the next `\r\n` + delimiter.
pub open spec fn parse_parts(s: Seq<u8>, delim: Seq<u8>) -> Option<
    Seq<(Seq<u8>, Option<Seq<u8>>, Option<Seq<u8>>, Seq<u8>)>,
>
    decreases s.len(),
    via parse_parts_dec
{
    if s.len() >= 2 && s[0] == 45 && s[1] == 45 {
        Some(Seq::empty())
    } else if s.len() >= 2 && s[0] == 13 && s[1] == 10 && delim.len() >= 2 {
        let content = s.skip(2);
        let k = find_seq(content, seq![13u8, 10] + delim);
        if k + 2 + delim.len() > content.len() {
            None
        } else {
            let part = content.take(k);
            let rest = content.skip(k + 2 + delim.len());
            match parse_part(part) {
                None => None,
                Some(f) => match parse_parts(rest, delim) {
                    None => None,
                    Some(fs) => Some(seq![f] + fs),
                },
            }
        }
    } else {
        None
    }
}

#[via_fn]
proof fn parse_parts_dec(s: Seq<u8>, delim: Seq<u8>) {
    if !(s.len() >= 2 && s[0] == 45 && s[1] == 45) && s.len() >= 2 && s[0] == 13 && s[1] == 10
        && delim.len() >= 2 {
        lemma_find_seq_bounds(s.skip(2), seq![13u8, 10] + delim);
    }
}

/// What a whole multipart body means against `boundary`: the fields in
/// wire order — or nothing when the body is not a well-formed multipart
/// document opening with `--` + boundary.
pub open spec fn spec_parse_multipart(body: Seq<u8>, boundary: Seq<u8>) -> Option<
    Seq<(Seq<u8>, Option<Seq<u8>>, Option<Seq<u8>>, Seq<u8>)>,
> {
    let delim = seq![45u8, 45] + boundary;
    if body.len() >= delim.len() && body.take(delim.len() as int) == delim {
        parse_parts(body.skip(delim.len() as int), delim)
    } else {
        None
    }
}

/// The view of an optional byte vector.
pub open spec fn opt_view(o: Option<Vec<u8>>) -> Option<Seq<u8>> {
    match o {
        None => None,
        Some(v) => Some(v@),
    }
}

/// One decoded field of a form: its name, declared content type and
/// filename, and its data bytes.
#[derive(Debug)]
pub struct FormField {
    /// The field's name, from the part's disposition.
    pub name: Vec<u8>,
    /// The part's raw `Content-Type` value, when it carried one.
    pub content_type: Option<Vec<u8>>,
    /// The declared filename; present exactly for file parts.
    pub filename: Option<Vec<u8>>,
    /// The part's data bytes.
    pub data: Vec<u8>,
}

impl FormField {
    /// The field as a mathematical value.
    pub open spec fn model(&self) -> (Seq<u8>, Option<Seq<u8>>, Option<Seq<u8>>, Seq<u8>) {
        (self.name@, opt_view(self.content_type), opt_view(self.filename), self.data@)
    }

    /// Name and filename are valid UTF-8; the data is any bytes.
    pub open spec fn wf(&self) -> bool {
        &&& vstd::utf8::valid_utf8(self.name@)
        &&& match self.filename {
            None => true,
            Some(v) => vstd::utf8::valid_utf8(v@),
        }
    }

    /// The field's name, as text.
    pub fn name(&self) -> (n: String)
        requires
            self.wf(),
        ensures
            vstd::utf8::encode_utf8(n@) == self.name@,
    {
        crate::text::utf8_to_string(vstd::slice::slice_to_vec(self.name.as_slice()))
    }

    /// The declared content type, parsed — or nothing when the part
    /// declared none or declared one that does not parse.
    pub fn content_type(&self) -> (r: Option<MediaType>)
        requires
            self.wf(),
        ensures
            match self.content_type {
                None => r is None,
                Some(raw) => match r {
                    Some(mt) => {
                        &&& parse_media_type(raw@) == Some(
                            (mt.kind@, mt.subtype@, mt.params_view()),
                        )
                        &&& mt.wf()
                    },
                    None => parse_media_type(raw@) is None,
                },
            },
    {
        match &self.content_type {
            None => None,
            Some(raw) => crate::media::parse_media_type_vec(raw.as_slice()),
        }
    }

    /// The declared filename, as text — present exactly for file parts.
    pub fn filename(&self) -> (r: Option<String>)
        requires
            self.wf(),
        ensures
            match self.filename {
                None => r is None,
                Some(v) => r is Some && vstd::utf8::encode_utf8((r->0)@) == v@,
            },
    {
        match &self.filename {
            None => None,
            Some(v) => Some(crate::text::utf8_to_string(vstd::slice::slice_to_vec(v.as_slice()))),
        }
    }

    /// The field's data bytes.
    pub fn data(&self) -> (d: &Vec<u8>)
        ensures
            d@ == self.data@,
    {
        &self.data
    }
}

/// The index of the first place `pat` occurs in `s`, or `s.len()`.
fn find_seq_vec(s: &[u8], pat: &[u8]) -> (r: usize)
    requires
        pat@.len() > 0,
    ensures
        r as int == find_seq(s@, pat@),
        r <= s@.len(),
{
    let n = s.len();
    let m = pat.len();
    if n < m {
        return n;
    }
    let mut i: usize = 0;
    while i <= n - m
        invariant
            0 <= i <= n - m + 1,
            0 < m <= n,
            n == s@.len(),
            m == pat@.len(),
            forall|j: int| 0 <= j < i ==> #[trigger] s@.subrange(j, j + pat@.len() as int) != pat@,
        decreases n - i,
    {
        let cand = vstd::slice::slice_subrange(s, i, i + m);
        if crate::text::bytes_eq(cand, pat) {
            proof {
                lemma_find_seq_found(s@, pat@, i as int);
            }
            return i;
        }
        proof {
            assert(s@.subrange(i as int, i as int + pat@.len() as int) != pat@);
        }
        i = i + 1;
    }
    proof {
        assert forall|j: int|
            0 <= j && j + pat@.len() <= s@.len() implies #[trigger] s@.subrange(
            j,
            j + pat@.len() as int,
        ) != pat@ by {
            assert(j < i);
        }
        lemma_find_seq_absent(s@, pat@);
    }
    n
}

/// The value of the first header named `name`, as [`first_header`]
/// describes it.
fn first_header_vec(hs: &Vec<(Vec<u8>, Vec<u8>)>, name: &[u8]) -> (r: Option<Vec<u8>>)
    ensures
        match r {
            Some(v) => first_header(hs.deep_view(), name@) == Some(v@),
            None => first_header(hs.deep_view(), name@) is None,
        },
{
    let ghost ps = hs.deep_view();
    let count = hs.len();
    let mut i: usize = 0;
    proof {
        assert(ps.skip(0) =~= ps);
    }
    while i < count
        invariant
            0 <= i <= count,
            count == hs@.len(),
            ps == hs.deep_view(),
            ps.len() == count,
            first_header(ps, name@) == first_header(ps.skip(i as int), name@),
        decreases count - i,
    {
        let pair = &hs[i];
        proof {
            assert(ps[i as int] == hs@[i as int].deep_view());
            assert(pair.0.deep_view() =~= pair.0@);
            assert(pair.1.deep_view() =~= pair.1@);
            assert(ps[i as int] == (pair.0@, pair.1@));
            assert(ps.skip(i as int)[0] == ps[i as int]);
        }
        if crate::text::bytes_eq_ignore_case(pair.0.as_slice(), name) {
            proof {
                assert(first_header(ps.skip(i as int), name@) == Some(pair.1@));
            }
            return Some(vstd::slice::slice_to_vec(pair.1.as_slice()));
        }
        proof {
            assert(ps.skip(i as int).skip(1) =~= ps.skip(i as int + 1));
        }
        i = i + 1;
    }
    proof {
        assert(ps.skip(count as int) =~= Seq::<(Seq<u8>, Seq<u8>)>::empty());
    }
    None
}

/// Build [`form_data_name`] as a byte vector.
fn form_data_name_vec() -> (r: Vec<u8>)
    ensures
        r@ == form_data_name(),
{
    let mut out: Vec<u8> = Vec::new();
    out.push(102);
    out.push(111);
    out.push(114);
    out.push(109);
    out.push(45);
    out.push(100);
    out.push(97);
    out.push(116);
    out.push(97);
    proof {
        assert(out@ =~= form_data_name());
    }
    out
}

/// Parse a part's `Content-Disposition` value, as [`parse_disposition`]
/// describes it.
fn parse_disposition_vec(v: &[u8]) -> (r: Option<(Vec<u8>, Option<Vec<u8>>)>)
    ensures
        match r {
            Some(t) => parse_disposition(v@) == Some((t.0@, opt_view(t.1))),
            None => parse_disposition(v@) is None,
        },
{
    let n = v.len();
    let j = crate::request::scan_byte(v, 0, 59);
    proof {
        assert(v@.skip(0) =~= v@);
    }
    let kindtok = crate::request::trim_end_vec(vstd::slice::slice_subrange(v, 0, j));
    let rest = vstd::slice::slice_subrange(v, j, n);
    proof {
        assert(kindtok@ == trim_end(v@.take(j as int)));
        assert(rest@ =~= v@.skip(j as int));
    }
    let fd = form_data_name_vec();
    if !crate::text::bytes_eq_ignore_case(kindtok.as_slice(), fd.as_slice()) {
        proof {
            crate::text::lemma_lower_id_of_lower(form_data_name());
        }
        return None;
    }
    proof {
        crate::text::lemma_lower_id_of_lower(form_data_name());
    }
    let params = match crate::media::parse_params_vec(rest) {
        Some(ps) => ps,
        None => {
            return None;
        },
    };
    let mut nm_name: Vec<u8> = Vec::new();
    nm_name.push(110);
    nm_name.push(97);
    nm_name.push(109);
    nm_name.push(101);
    proof {
        assert(nm_name@ =~= name_param());
    }
    let mut fn_name: Vec<u8> = Vec::new();
    fn_name.push(102);
    fn_name.push(105);
    fn_name.push(108);
    fn_name.push(101);
    fn_name.push(110);
    fn_name.push(97);
    fn_name.push(109);
    fn_name.push(101);
    proof {
        assert(fn_name@ =~= filename_param());
    }
    let nm = match first_param_vec(&params, nm_name.as_slice()) {
        Some(nm) => nm,
        None => {
            return None;
        },
    };
    let fname = first_param_vec(&params, fn_name.as_slice());
    Some((nm, fname))
}

/// The value of the first parameter named `name`, as
/// [`first_param`] describes it.
fn first_param_vec(ps_vec: &Vec<(Vec<u8>, Vec<u8>)>, name: &[u8]) -> (r: Option<Vec<u8>>)
    ensures
        match r {
            Some(v) => first_param(ps_vec.deep_view(), name@) == Some(v@),
            None => first_param(ps_vec.deep_view(), name@) is None,
        },
{
    let ghost ps = ps_vec.deep_view();
    let count = ps_vec.len();
    let mut i: usize = 0;
    proof {
        assert(ps.skip(0) =~= ps);
    }
    while i < count
        invariant
            0 <= i <= count,
            count == ps_vec@.len(),
            ps == ps_vec.deep_view(),
            ps.len() == count,
            first_param(ps, name@) == first_param(ps.skip(i as int), name@),
        decreases count - i,
    {
        let pair = &ps_vec[i];
        proof {
            assert(ps[i as int] == ps_vec@[i as int].deep_view());
            assert(pair.0.deep_view() =~= pair.0@);
            assert(pair.1.deep_view() =~= pair.1@);
            assert(ps[i as int] == (pair.0@, pair.1@));
            assert(ps.skip(i as int)[0] == ps[i as int]);
        }
        if crate::text::bytes_eq(pair.0.as_slice(), name) {
            proof {
                assert(first_param(ps.skip(i as int), name@) == Some(pair.1@));
            }
            return Some(vstd::slice::slice_to_vec(pair.1.as_slice()));
        }
        proof {
            assert(ps.skip(i as int).skip(1) =~= ps.skip(i as int + 1));
        }
        i = i + 1;
    }
    proof {
        assert(ps.skip(count as int) =~= Seq::<(Seq<u8>, Seq<u8>)>::empty());
    }
    None
}

/// Parse one part, as [`parse_part`] describes it.
fn parse_part_vec(part: &[u8]) -> (r: Option<FormField>)
    ensures
        match r {
            Some(f) => {
                &&& parse_part(part@) == Some(f.model())
                &&& f.wf()
            },
            None => parse_part(part@) is None,
        },
{
    let n = part.len();
    let mut pat: Vec<u8> = Vec::new();
    pat.push(13);
    pat.push(10);
    pat.push(13);
    pat.push(10);
    proof {
        assert(pat@ =~= seq![13u8, 10, 13, 10]);
    }
    let hend = find_seq_vec(part, pat.as_slice());
    if n < 4 || hend > n - 4 {
        return None;
    }
    let head = vstd::slice::slice_subrange(part, 0, hend);
    proof {
        assert(head@ =~= part@.take(hend as int));
    }
    let lines = crate::request::split_lines_vec(head);
    let ghost lv = split_lines(part@.take(hend as int));
    let count = lines.len();
    proof {
        assert(lines.deep_view().len() == count);
    }
    let mut hs: Vec<(Vec<u8>, Vec<u8>)> = Vec::new();
    let mut k: usize = 0;
    while k < count
        invariant
            0 <= k <= count,
            count == lines@.len(),
            lines.deep_view() == lv,
            lv == split_lines(part@.take(hend as int)),
            lv.len() == count,
            n == part@.len(),
            hend as int == find_seq(part@, seq![13u8, 10, 13, 10]),
            hend + 4 <= n,
            forall|i: int| 0 <= i < k ==> parse_header_line(strip_cr(#[trigger] lv[i])) is Some,
            hs.deep_view() == Seq::new(
                k as nat,
                |i: int| parse_header_line(strip_cr(lv[i]))->0,
            ),
        decreases count - k,
    {
        let line = crate::request::strip_cr_vec(lines[k].as_slice());
        proof {
            assert(lines.deep_view()[k as int] == lines@[k as int]@);
            assert(line@ == strip_cr(lv[k as int]));
        }
        match crate::request::parse_header_line_vec(line.as_slice()) {
            Some(pair) => {
                let ghost hb = hs.deep_view();
                hs.push(pair);
                proof {
                    assert(parse_header_line(strip_cr(lv[k as int])) == Some(
                        (pair.0@, pair.1@),
                    ));
                    assert(hs.deep_view() =~~= hb.push((pair.0@, pair.1@)));
                    assert(hs.deep_view() =~~= Seq::new(
                        k as nat + 1,
                        |i: int| parse_header_line(strip_cr(lv[i]))->0,
                    ));
                }
            },
            None => {
                proof {
                    assert(parse_header_line(strip_cr(lv[k as int])) is None);
                    assert(!(forall|i: int|
                        0 <= i < lv.len() ==> parse_header_line(
                            strip_cr(#[trigger] lv[i]),
                        ) is Some));
                }
                return None;
            },
        }
        k = k + 1;
    }
    let ghost spec_hs = Seq::new(lv.len(), |i: int| parse_header_line(strip_cr(lv[i]))->0);
    proof {
        assert(hs.deep_view() =~~= spec_hs);
    }
    let mut cd_name: Vec<u8> = Vec::new();
    cd_name.push(99);
    cd_name.push(111);
    cd_name.push(110);
    cd_name.push(116);
    cd_name.push(101);
    cd_name.push(110);
    cd_name.push(116);
    cd_name.push(45);
    cd_name.push(100);
    cd_name.push(105);
    cd_name.push(115);
    cd_name.push(112);
    cd_name.push(111);
    cd_name.push(115);
    cd_name.push(105);
    cd_name.push(116);
    cd_name.push(105);
    cd_name.push(111);
    cd_name.push(110);
    proof {
        assert(cd_name@ =~= content_disposition_name());
    }
    let dv = match first_header_vec(&hs, cd_name.as_slice()) {
        Some(dv) => dv,
        None => {
            return None;
        },
    };
    let d = match parse_disposition_vec(dv.as_slice()) {
        Some(d) => d,
        None => {
            return None;
        },
    };
    let mut ct_name: Vec<u8> = Vec::new();
    ct_name.push(99);
    ct_name.push(111);
    ct_name.push(110);
    ct_name.push(116);
    ct_name.push(101);
    ct_name.push(110);
    ct_name.push(116);
    ct_name.push(45);
    ct_name.push(116);
    ct_name.push(121);
    ct_name.push(112);
    ct_name.push(101);
    proof {
        assert(ct_name@ =~= content_type_name());
    }
    let ctype = first_header_vec(&hs, ct_name.as_slice());
    let data = vstd::slice::slice_to_vec(vstd::slice::slice_subrange(part, hend + 4, n));
    proof {
        assert(data@ =~= part@.skip(hend as int + 4));
    }
    let f = FormField { name: d.0, content_type: ctype, filename: d.1, data };
    proof {
        assert forall|i: int| 0 <= i < spec_hs.len() implies crate::request::all_field_bytes(
            #[trigger] spec_hs[i].1,
        ) by {
            assert(parse_header_line(strip_cr(lv[i])) is Some);
        }
        let dvv = first_header(spec_hs, content_disposition_name())->0;
        let j = find_byte(dvv, 59);
        let rest = dvv.skip(j);
        crate::media::lemma_params_ascii(rest);
        let ps = crate::media::parse_params(rest)->0;
        assert forall|i: int| 0 <= i < ps.len() implies vstd::utf8::valid_utf8(
            #[trigger] ps[i].1,
        ) by {
            assert(all_ascii((crate::media::parse_params(rest)->0)[i].0));
            assert(vstd::utf8::valid_utf8((crate::media::parse_params(rest)->0)[i].1));
        }
        crate::media::lemma_first_param_valid(ps, name_param());
        if first_param(ps, filename_param()) is Some {
            crate::media::lemma_first_param_valid(ps, filename_param());
        }
        assert(f.wf());
        assert(parse_part(part@) == Some(f.model()));
    }
    Some(f)
}

/// One unfolding of [`parse_parts`]: a well-formed tail either closes at
/// once, or opens with one part whose decoding and remainder the next
/// recursion level describes. This is how each field of a well-formed
/// body reaches the caller exactly once, in wire order.
pub proof fn lemma_parse_parts_step(s: Seq<u8>, delim: Seq<u8>)
    requires
        delim.len() >= 2,
        parse_parts(s, delim) is Some,
    ensures
        ({
            let fs = parse_parts(s, delim)->0;
            if fs.len() == 0 {
                s.len() >= 2 && s[0] == 45 && s[1] == 45
            } else {
                let content = s.skip(2);
                let k = find_seq(content, seq![13u8, 10] + delim);
                &&& s.len() >= 2 && s[0] == 13 && s[1] == 10
                &&& k + 2 + delim.len() <= content.len()
                &&& parse_part(content.take(k)) == Some(fs[0])
                &&& parse_parts(content.skip(k + 2 + delim.len()), delim) == Some(fs.skip(1))
            }
        }),
{
    let fs = parse_parts(s, delim)->0;
    if s.len() >= 2 && s[0] == 45 && s[1] == 45 {
    } else {
        let content = s.skip(2);
        let k = find_seq(content, seq![13u8, 10] + delim);
        let part = content.take(k);
        let rest = content.skip(k + 2 + delim.len());
        let f = parse_part(part)->0;
        let tail = parse_parts(rest, delim)->0;
        assert(fs == seq![f] + tail);
        assert(fs[0] == f);
        assert(fs.skip(1) =~= tail);
    }
}

/// A form body, handed out as a lazy, single-pass sequence of fields in
/// wire order. Decoding happens one part at a time, when the field is
/// asked for; a malformed tail surfaces as an error only when iteration
/// reaches it, after every well-formed field before it was served.
#[derive(Debug)]
pub struct Form {
    rest: Vec<u8>,
    delim: Vec<u8>,
}

impl Form {
    /// The undecoded tail: the bytes after the last consumed delimiter.
    pub closed spec fn spec_rest(&self) -> Seq<u8> {
        self.rest@
    }

    /// The delimiter the body is framed by: `--` and the boundary.
    pub closed spec fn spec_delim(&self) -> Seq<u8> {
        self.delim@
    }

    /// The delimiter really is one.
    pub open spec fn wf(&self) -> bool {
        self.spec_delim().len() >= 2 && self.spec_delim()[0] == 45 && self.spec_delim()[1] == 45
    }

    /// Open a multipart body against its boundary. Fails with a `Parse`
    /// error exactly when the body does not open with `--` and the
    /// boundary; the parts behind it are decoded lazily, by
    /// [`Form::next_field`].
    pub fn new(body: &[u8], boundary: &[u8]) -> (r: Result<Form, HttpError>)
        ensures
            ({
                let d = seq![45u8, 45] + boundary@;
                match r {
                    Ok(f) => {
                        &&& body@.len() >= d.len()
                        &&& body@.take(d.len() as int) == d
                        &&& f.spec_rest() == body@.skip(d.len() as int)
                        &&& f.spec_delim() == d
                        &&& f.wf()
                    },
                    Err(e) => {
                        &&& e.spec_kind() == HttpErrorKind::Parse
                        &&& !(body@.len() >= d.len() && body@.take(d.len() as int) == d)
                        &&& spec_parse_multipart(body@, boundary@) is None
                    },
                }
            }),
    {
        let n = body.len();
        let mut delim: Vec<u8> = Vec::new();
        delim.push(45);
        delim.push(45);
        delim.extend_from_slice(boundary);
        proof {
            assert(delim@ =~= seq![45u8, 45] + boundary@);
        }
        let dl = delim.len();
        if n < dl {
            return Err(HttpError::new(HttpErrorKind::Parse, "form body shorter than delimiter"));
        }
        let head = vstd::slice::slice_subrange(body, 0, dl);
        proof {
            assert(head@ =~= body@.take(dl as int));
        }
        if !crate::text::bytes_eq(head, delim.as_slice()) {
            return Err(
                HttpError::new(HttpErrorKind::Parse, "form body does not open with the boundary"),
            );
        }
        let rest = vstd::slice::slice_to_vec(vstd::slice::slice_subrange(body, dl, n));
        proof {
            assert(rest@ =~= body@.skip(dl as int));
        }
        Ok(Form { rest, delim })
    }

    /// The next field in wire order: `Ok(Some(..))` with the decoded
    /// field, `Ok(None)` once the closing `--` is reached, or a `Parse`
    /// error when the tail is neither — in which case no tail of the
    /// remaining bytes is a well-formed part sequence. Each field comes
    /// out exactly once; a field handed out never comes back.
    pub fn next_field(&mut self) -> (r: Result<Option<FormField>, HttpError>)
        requires
            old(self).wf(),
        ensures
            final(self).wf(),
            final(self).spec_delim() == old(self).spec_delim(),
            ({
                let s = old(self).spec_rest();
                let d = old(self).spec_delim();
                let content = s.skip(2);
                let k = find_seq(content, seq![13u8, 10] + d);
                match r {
                    Ok(None) => {
                        &&& s.len() >= 2 && s[0] == 45 && s[1] == 45
                        &&& final(self).spec_rest() == s
                    },
                    Ok(Some(f)) => {
                        &&& s.len() >= 2 && s[0] == 13 && s[1] == 10
                        &&& k + 2 + d.len() <= content.len()
                        &&& parse_part(content.take(k)) == Some(f.model())
                        &&& f.wf()
                        &&& final(self).spec_rest() == content.skip(k + 2 + d.len())
                        &&& final(self).spec_rest().len() < s.len()
                    },
                    Err(e) => {
                        &&& e.spec_kind() == HttpErrorKind::Parse
                        &&& parse_parts(s, d) is None
                        &&& final(self).spec_rest() == s
                    },
                }
            }),
    {
        let n = self.rest.len();
        if n >= 2 && self.rest[0] == 45 && self.rest[1] == 45 {
            return Ok(None);
        }
        if !(n >= 2 && self.rest[0] == 13 && self.rest[1] == 10) {
            return Err(HttpError::new(HttpErrorKind::Parse, "malformed part boundary"));
        }
        let content = vstd::slice::slice_subrange(self.rest.as_slice(), 2, n);
        proof {
            assert(content@ =~= self.rest@.skip(2));
        }
        let mut pat: Vec<u8> = Vec::new();
        pat.push(13);
        pat.push(10);
        pat.extend_from_slice(self.delim.as_slice());
        proof {
            assert(pat@ =~= seq![13u8, 10] + self.delim@);
        }
        let k = find_seq_vec(content, pat.as_slice());
        let m = content.len();
        let need = match 2usize.checked_add(self.delim.len()) {
            Some(x) => x,
            None => {
                return Err(HttpError::new(HttpErrorKind::Parse, "part never closed"));
            },
        };
        if k > m || m - k < need {
            return Err(HttpError::new(HttpErrorKind::Parse, "part never closed"));
        }
        let part = vstd::slice::slice_subrange(content, 0, k);
        proof {
            assert(part@ =~= content@.take(k as int));
        }
        let f = match parse_part_vec(part) {
            Some(f) => f,
            None => {
                return Err(HttpError::new(HttpErrorKind::Parse, "malformed part"));
            },
        };
        let tail = vstd::slice::slice_to_vec(vstd::slice::slice_subrange(content, k + need, m));
        proof {
            assert(tail@ =~= content@.skip(k as int + 2 + self.delim@.len()));
        }
        self.rest = tail;
        Ok(Some(f))
    }

    /// Hand every remaining field to `callback`, in wire order, exactly
    /// once each, stopping at the first error — from decoding a part or
    /// from the callback — and propagating it. An already-closed form
    /// gives `Ok` without invoking anything; on `Ok` the whole body was
    /// decoded to its closing mark.
    pub fn for_each<F: Fn(FormField) -> Result<(), HttpError>>(&mut self, callback: F) -> (r:
        Result<(), HttpError>)
        requires
            old(self).wf(),
            forall|f: FormField| #[trigger] callback.requires((f,)),
        ensures
            final(self).wf(),
            final(self).spec_delim() == old(self).spec_delim(),
            r is Ok ==> final(self).spec_rest().len() >= 2 && final(self).spec_rest()[0] == 45
                && final(self).spec_rest()[1] == 45,
            parse_parts(old(self).spec_rest(), old(self).spec_delim()) == Some(
                Seq::<(Seq<u8>, Option<Seq<u8>>, Option<Seq<u8>>, Seq<u8>)>::empty(),
            ) ==> r is Ok,
            ({
                match r {
                    Ok(()) => true,
                    Err(e) => {
                        ||| (e.spec_kind() == HttpErrorKind::Parse && parse_parts(
                            final(self).spec_rest(),
                            old(self).spec_delim(),
                        ) is None)
                        ||| exists|f: FormField|
                            call_ensures(callback, (f,), Result::<(), HttpError>::Err(e))
                    },
                }
            }),
    {
        let ghost d = self.spec_delim();
        let ghost init = self.spec_rest();
        loop
            invariant
                self.wf(),
                self.spec_delim() == d,
                d == old(self).spec_delim(),
                init == old(self).spec_rest(),
                forall|f: FormField| #[trigger] callback.requires((f,)),
                parse_parts(init, d) == Some(
                    Seq::<(Seq<u8>, Option<Seq<u8>>, Option<Seq<u8>>, Seq<u8>)>::empty(),
                ) ==> self.spec_rest() == init,
            decreases self.spec_rest().len(),
        {
            let ghost before = self.spec_rest();
            let f = match self.next_field() {
                Ok(Some(f)) => f,
                Ok(None) => {
                    return Ok(());
                },
                Err(e) => {
                    proof {
                        if parse_parts(init, d) == Some(
                            Seq::<(Seq<u8>, Option<Seq<u8>>, Option<Seq<u8>>, Seq<u8>)>::empty(),
                        ) {
                            assert(before == init);
                            assert(parse_parts(before, d) is None);
                            assert(false);
                        }
                        assert(parse_parts(before, d) is None);
                    }
                    return Err(e);
                },
            };
            proof {
                if parse_parts(init, d) == Some(
                    Seq::<(Seq<u8>, Option<Seq<u8>>, Option<Seq<u8>>, Seq<u8>)>::empty(),
                ) {
                    assert(before == init);
                    lemma_parse_parts_step(init, d);
                    assert(before[0] == 45);
                    assert(false);
                }
            }
            match callback(f) {
                Ok(()) => {},
                Err(e) => {
                    return Err(e);
                },
            }
        }
    }
}

} // verus!
