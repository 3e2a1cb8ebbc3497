//! Locating the byte offset just past a number of leading lines, so that a
//! reader can be positioned after the preamble without parsing it.

use vstd::prelude::*;
use crate::sample::next_nl;
use crate::sample::lemma_next_nl_bounds;
use crate::sample::lemma_next_nl_is;

verus! {

/// Offset just past `k` line terminators from `pos` on; the end of the data
/// when fewer remain.
pub open spec fn skip_lines(data: Seq<u8>, k: nat, pos: int) -> int
    decreases k,
{
    if k == 0 {
        pos
    } else {
        let e = next_nl(data, pos);
        if e >= data.len() {
            data.len() as int
        } else {
            skip_lines(data, (k - 1) as nat, e + 1)
        }
    }
}

pub proof fn lemma_skip_lines_bounds(data: Seq<u8>, k: nat, pos: int)
    requires
        0 <= pos <= data.len(),
    ensures
        pos <= skip_lines(data, k, pos) <= data.len(),
    decreases k,
{
    if k > 0 {
        lemma_next_nl_bounds(data, pos);
        let e = next_nl(data, pos);
        if e < data.len() {
            lemma_skip_lines_bounds(data, (k - 1) as nat, e + 1);
        }
    }
}


/// A found line feed really stands at the reported index, with none
/// before it.
pub proof fn lemma_next_nl_char(s: Seq<u8>, i: int)
    requires
        0 <= i <= s.len(),
    ensures
        next_nl(s, i) < s.len() ==> s[next_nl(s, i)] == 0x0a,
        forall|j: int| i <= j < next_nl(s, i) ==> s[j] != 0x0a,
    decreases s.len() - i,
{
    lemma_next_nl_bounds(s, i);
    if i < s.len() && s[i] != 0x0a {
        lemma_next_nl_char(s, i + 1);
    }
}

/// Skipping lines lands just past line terminators: when the result is
/// inside the data, the bytes passed over hold exactly `k` line feeds, and
/// for a positive `k` the byte on the offset's left is one of them.
pub proof fn lemma_skip_lines_terminators(data: Seq<u8>, k: nat, pos: int)
    requires
        0 <= pos <= data.len(),
    ensures
        skip_lines(data, k, pos) < data.len() ==> {
            &&& crate::sniffer::count_byte(
                data.subrange(pos, skip_lines(data, k, pos)),
                0x0a,
            ) == k
            &&& (k > 0 ==> data[skip_lines(data, k, pos) - 1] == 0x0a)
        },
    decreases k,
{
    let r = skip_lines(data, k, pos);
    if k == 0 {
        if r < data.len() {
            assert(data.subrange(pos, pos) =~= Seq::<u8>::empty());
        }
    } else {
        let e = next_nl(data, pos);
        lemma_next_nl_bounds(data, pos);
        lemma_next_nl_char(data, pos);
        if e < data.len() {
            lemma_skip_lines_terminators(data, (k - 1) as nat, e + 1);
            lemma_skip_lines_bounds(data, (k - 1) as nat, e + 1);
            if r < data.len() {
                let head = data.subrange(pos, e + 1);
                let tail = data.subrange(e + 1, r);
                assert(data.subrange(pos, r) =~= head + tail);
                crate::sniffer::lemma_count_byte_concat(head, tail, 0x0a);
                assert(crate::sniffer::count_byte(head, 0x0a) == 1) by {
                    assert(head.drop_last() =~= data.subrange(pos, e));
                    assert(head.last() == data[e]);
                    assert(forall|j: int|
                        0 <= j < e - pos ==> #[trigger] data.subrange(pos, e)[j] == data[pos + j]);
                    crate::sniffer::lemma_count_byte_none(data.subrange(pos, e), 0x0a);
                }
                if k == 1 {
                    assert(r == e + 1);
                    assert(data[r - 1] == 0x0a);
                }
            }
        }
    }
}

/// Relies on `memchr::memchr`: the index of the first occurrence of the
/// needle byte in the haystack, or nothing when it does not occur.
#[verifier::external_body]
fn find_byte(needle: u8, hay: &[u8]) -> (r: Option<usize>)
    ensures
        match r {
            Some(i) => i < hay@.len() && hay@[i as int] == needle && forall|k: int|
                0 <= k < i ==> hay@[k] != needle,
            None => forall|k: int| 0 <= k < hay@.len() ==> hay@[k] != needle,
        },
{
    memchr::memchr(needle, hay)
}

/// Number of bytes standing before the data proper: the offset just past
/// `n_preamble_rows` line terminators, or the whole input when it holds
/// fewer lines.
pub fn preamble_skipcount(data: &Vec<u8>, n_preamble_rows: usize) -> (r: usize)
    ensures
        r == skip_lines(data@, n_preamble_rows as nat, 0),
        r <= data@.len(),
{
    let n = data.len();
    let mut pos: usize = 0;
    let mut left: usize = n_preamble_rows;
    while left > 0
        invariant
            pos <= n,
            n == data@.len(),
            skip_lines(data@, n_preamble_rows as nat, 0) == skip_lines(
                data@,
                left as nat,
                pos as int,
            ),
        decreases left,
    {
        let hay = vstd::slice::slice_subrange(data.as_slice(), pos, n);
        let found = find_byte(0x0a, hay);
        proof {
            assert(forall|k: int| 0 <= k < hay@.len() ==> hay@[k] == data@[pos + k]);
        }
        match found {
            Some(i) => {
                proof {
                    assert(forall|k: int| pos <= k < pos + i ==> data@[k] != 0x0a) by {
                        assert(forall|k: int| pos <= k < pos + i ==> data@[k] == hay@[k - pos]);
                    }
                    assert(data@[pos + i] == 0x0a);
                    lemma_next_nl_is(data@, pos as int, pos + i);
                }
                pos = pos + i + 1;
                left -= 1;
            },
            None => {
                proof {
                    assert(forall|k: int| pos <= k < n ==> data@[k] != 0x0a) by {
                        assert(forall|k: int| pos <= k < n ==> data@[k] == hay@[k - pos]);
                    }
                    lemma_next_nl_is(data@, pos as int, n as int);
                    lemma_skip_lines_bounds(data@, left as nat, pos as int);
                    assert(skip_lines(data@, left as nat, pos as int) == n);
                }
                return n;
            },
        }
    }
    pos
}

} // verus!
