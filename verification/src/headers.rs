//! Header-block extraction.
//!
//! A request starts with a header block: the request line and the header
//! lines, closed by a blank line. On the wire the block is over as soon as
//! the bytes read so far end in `\n\n` or `\n\r\n`. A buffered read may pull
//! bytes past that boundary; those belong to the body and must be carried
//! over, never dropped and never read again from the connection.
//!
//! [`find_block_end`] scans bytes pulled from a connection for the earliest
//! boundary; [`read_headers`] splits them there into the header block, the
//! carried-over body bytes, and the block's line count.

use vstd::prelude::*;

use crate::error::HttpError;
use crate::error::HttpErrorKind;

verus! {

/// The prefix `s` is a complete header block: it ends in a blank line,
/// that is in `\n\n` or `\n\r\n`.
pub open spec fn ends_block(s: Seq<u8>) -> bool {
    ||| (s.len() >= 2 && s[s.len() - 2] == 10 && s[s.len() - 1] == 10)
    ||| (s.len() >= 3 && s[s.len() - 3] == 10 && s[s.len() - 2] == 13 && s[s.len() - 1] == 10)
}

/// No prefix of `s` shorter than `n` is a complete header block.
pub open spec fn no_block_end_before(s: Seq<u8>, n: int) -> bool {
    forall|j: int| 0 <= j < n ==> !ends_block(s.take(j))
}

/// How many lines the block holds: one per `\n` byte.
pub open spec fn line_count(s: Seq<u8>) -> nat
    decreases s.len(),
{
    if s.len() == 0 {
        0
    } else {
        line_count(s.drop_last()) + if s.last() == 10 { 1nat } else { 0nat }
    }
}

/// The length of the shortest prefix of `data` that is a complete header
/// block, or `None` when no prefix is one yet.
pub fn find_block_end(data: &Vec<u8>) -> (r: Option<usize>)
    ensures
        match r {
            Some(i) => {
                &&& 2 <= i <= data@.len()
                &&& ends_block(data@.take(i as int))
                &&& no_block_end_before(data@, i as int)
            },
            None => no_block_end_before(data@, data@.len() as int + 1),
        },
{
    let n = data.len();
    if n < 2 {
        assert(forall|j: int| 0 <= j <= data@.len() ==> data@.take(j).len() < 2);
        return None;
    }
    let mut k: usize = 1;
    while k < n
        invariant
            1 <= k <= n,
            n == data@.len(),
            no_block_end_before(data@, k as int + 1),
        decreases n - k,
    {
        let i = k + 1;
        let lf_lf = data[i - 2] == 10 && data[i - 1] == 10;
        let lf_cr_lf = i >= 3 && data[i - 3] == 10 && data[i - 2] == 13 && data[i - 1] == 10;
        if lf_lf || lf_cr_lf {
            assert(ends_block(data@.take(i as int)));
            return Some(i);
        }
        assert(!ends_block(data@.take(i as int)));
        k = i;
    }
    None
}

/// Split bytes pulled from a connection at the end of the header block.
///
/// Returns the header block (ending in its blank line, holding not one byte
/// beyond it), the bytes already pulled past the boundary (the start of the
/// body, in order), and the block's line count. Fails with a `Parse` error
/// when `data` holds no complete header block — the connection ended before
/// the blank line arrived.
pub fn read_headers(data: &Vec<u8>) -> (r: Result<(Vec<u8>, Vec<u8>, usize), HttpError>)
    ensures
        match r {
            Ok((block, rest, lines)) => {
                &&& exists|i: int|
                    {
                        &&& 0 <= i <= data@.len()
                        &&& block@ == data@.take(i)
                        &&& rest@ == data@.skip(i)
                        &&& ends_block(block@)
                        &&& no_block_end_before(data@, i)
                    }
                &&& block@ + rest@ == data@
                &&& lines as nat == line_count(block@)
            },
            Err(e) => {
                &&& e.spec_kind() == HttpErrorKind::Parse
                &&& no_block_end_before(data@, data@.len() as int + 1)
            },
        },
{
    match find_block_end(data) {
        None => Err(HttpError::new(HttpErrorKind::Parse, "no header terminator before end of input")),
        Some(end) => {
            let block = vstd::slice::slice_to_vec(vstd::slice::slice_subrange(
                data.as_slice(),
                0,
                end,
            ));
            let rest = vstd::slice::slice_to_vec(vstd::slice::slice_subrange(
                data.as_slice(),
                end,
                data.len(),
            ));
            let lines = count_lines(&block);
            proof {
                assert(block@ == data@.take(end as int));
                assert(rest@ == data@.skip(end as int));
                assert(block@ + rest@ =~= data@);
            }
            Ok((block, rest, lines))
        },
    }
}

/// Count the lines of a header block: one per `\n` byte.
fn count_lines(data: &Vec<u8>) -> (n: usize)
    ensures
        n as nat == line_count(data@),
{
    let mut count: usize = 0;
    let mut i: usize = 0;
    while i < data.len()
        invariant
            0 <= i <= data@.len(),
            count as nat == line_count(data@.take(i as int)),
            count <= i,
        decreases data@.len() - i,
    {
        proof {
            assert(data@.take(i as int + 1).drop_last() =~= data@.take(i as int));
            assert(data@.take(i as int + 1).last() == data@[i as int]);
        }
        if data[i] == 10 {
            count = count + 1;
        }
        i = i + 1;
    }
    proof {
        assert(data@.take(data@.len() as int) =~= data@);
    }
    count
}

} // verus!
