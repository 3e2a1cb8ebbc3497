//! Bounded sampling of logical lines from the raw bytes of a CSV input.
//!
//! The sampler walks the input from the start, one newline-terminated chunk
//! at a time: a chunk whose last byte is neither a line feed nor a carriage
//! return is a truncated tail and ends the sample; otherwise the chunk is
//! trimmed of trailing line-break bytes and emitted. The record whose
//! emission crosses the configured budget of records or raw bytes is still
//! emitted; the following call ends the sample. Every chunk read is also
//! checked for UTF-8 cleanliness, the truncated tail included.

use vstd::prelude::*;

verus! {

/// Bound on the size of the sample to examine while sniffing.
#[derive(Debug, Clone, Copy, PartialEq, Eq, Structural)]
pub enum SampleSize {
    /// Use a number of records as the size of the sample to sniff.
    Records(usize),
    /// Use a number of bytes as the size of the sample to sniff.
    Bytes(usize),
    /// Sniff the entire sample.
    All,
}

/// The budget is exceeded once `nbytes` raw bytes and `nrecs` records have
/// been consumed; the sampler tests it before reading further, so the
/// record whose emission crossed it was still emitted.
pub open spec fn over_budget(size: SampleSize, nbytes: int, nrecs: int) -> bool {
    match size {
        SampleSize::Records(r) => nrecs > r,
        SampleSize::Bytes(b) => nbytes > b,
        SampleSize::All => false,
    }
}

/// Index of the first line feed at or after `i`; the length if none.
pub open spec fn next_nl(s: Seq<u8>, i: int) -> int
    decreases s.len() - i,
{
    if i < 0 || i >= s.len() {
        s.len() as int
    } else if s[i] == 0x0a {
        i
    } else {
        next_nl(s, i + 1)
    }
}

pub proof fn lemma_next_nl_bounds(s: Seq<u8>, i: int)
    requires
        0 <= i <= s.len(),
    ensures
        i <= next_nl(s, i) <= s.len(),
    decreases s.len() - i,
{
    if i < s.len() && s[i] != 0x0a {
        lemma_next_nl_bounds(s, i + 1);
    }
}

pub proof fn lemma_next_nl_is(s: Seq<u8>, i: int, j: int)
    requires
        0 <= i <= j <= s.len(),
        forall|k: int| i <= k < j ==> s[k] != 0x0a,
        j < s.len() ==> s[j] == 0x0a,
    ensures
        next_nl(s, i) == j,
    decreases j - i,
{
    if i < j {
        lemma_next_nl_is(s, i + 1, j);
    }
}

/// End (exclusive) of the last byte before `i` that is not a line break.
pub open spec fn end_keep(s: Seq<u8>, i: int) -> int
    decreases i,
{
    if i <= 0 {
        0
    } else if s[i - 1] != 0x0a && s[i - 1] != 0x0d {
        i
    } else {
        end_keep(s, i - 1)
    }
}

pub proof fn lemma_end_keep_is(s: Seq<u8>, i: int, j: int)
    requires
        0 <= j <= i <= s.len(),
        forall|k: int| j <= k < i ==> (s[k] == 0x0a || s[k] == 0x0d),
        j > 0 ==> (s[j - 1] != 0x0a && s[j - 1] != 0x0d),
    ensures
        end_keep(s, i) == j,
    decreases i - j,
{
    if j < i {
        lemma_end_keep_is(s, i - 1, j);
    }
}

/// The chunk with trailing line-break bytes removed.
pub open spec fn trim_crlf(s: Seq<u8>) -> Seq<u8> {
    s.take(end_keep(s, s.len() as int))
}

/// The lines the sampler emits from the state `(pos, nbytes, nrecs)` on.
pub open spec fn spec_sample(
    data: Seq<u8>,
    size: SampleSize,
    pos: int,
    nbytes: int,
    nrecs: int,
) -> Seq<Seq<u8>>
    decreases data.len() - pos,
        via spec_sample_dec
{
    if over_budget(size, nbytes, nrecs) {
        Seq::empty()
    } else if pos < 0 || pos >= data.len() {
        Seq::empty()
    } else {
        let stop = if next_nl(data, pos) < data.len() {
            next_nl(data, pos) + 1
        } else {
            data.len() as int
        };
        let chunk = data.subrange(pos, stop);
        if chunk.last() != 0x0a && chunk.last() != 0x0d {
            Seq::empty()
        } else {
            seq![trim_crlf(chunk)] + spec_sample(data, size, stop, nbytes + chunk.len(), nrecs + 1)
        }
    }
}

#[via_fn]
proof fn spec_sample_dec(data: Seq<u8>, size: SampleSize, pos: int, nbytes: int, nrecs: int) {
    if 0 <= pos < data.len() {
        lemma_next_nl_bounds(data, pos);
    }
}

/// Whether every chunk the sampler reads from the state on is valid UTF-8,
/// the chunk that ends the sample included.
pub open spec fn spec_utf8(
    data: Seq<u8>,
    size: SampleSize,
    pos: int,
    nbytes: int,
    nrecs: int,
) -> bool
    decreases data.len() - pos,
        via spec_utf8_dec
{
    if over_budget(size, nbytes, nrecs) {
        true
    } else if pos < 0 || pos >= data.len() {
        true
    } else {
        let stop = if next_nl(data, pos) < data.len() {
            next_nl(data, pos) + 1
        } else {
            data.len() as int
        };
        let chunk = data.subrange(pos, stop);
        vstd::utf8::valid_utf8(chunk) && {
            if chunk.last() != 0x0a && chunk.last() != 0x0d {
                true
            } else {
                spec_utf8(data, size, stop, nbytes + chunk.len(), nrecs + 1)
            }
        }
    }
}

#[via_fn]
proof fn spec_utf8_dec(data: Seq<u8>, size: SampleSize, pos: int, nbytes: int, nrecs: int) {
    if 0 <= pos < data.len() {
        lemma_next_nl_bounds(data, pos);
    }
}

/// Relies on `simdutf8::basic::from_utf8`: acceptance is exactly UTF-8
/// validity of the bytes.
#[verifier::external_body]
fn utf8_valid(b: &[u8]) -> (r: bool)
    ensures
        r == vstd::utf8::valid_utf8(b@),
{
    simdutf8::basic::from_utf8(b).is_ok()
}

/// What `String::from_utf8_lossy` makes of arbitrary bytes.
pub uninterp spec fn lossy_decode(b: Seq<u8>) -> Seq<char>;

/// Relies on `String::from_utf8_lossy`: on valid UTF-8 it returns exactly
/// the decoded characters, on anything else a non-empty replacement whose
/// encoding grows at most threefold (each rejected byte becomes one
/// three-byte replacement character), and the result depends on the bytes
/// alone.
#[verifier::external_body]
pub fn lossy_string(b: &[u8]) -> (r: String)
    ensures
        r@ == lossy_decode(b@),
        vstd::utf8::valid_utf8(b@) ==> r@ == vstd::utf8::decode_utf8(b@),
        b@.len() > 0 ==> r@.len() > 0,
        vstd::utf8::encode_utf8(r@).len() <= 3 * b@.len(),
        vstd::utf8::encode_utf8(r@).len() <= usize::MAX,
{
    String::from_utf8_lossy(b).to_string()
}

/// Copy of the byte range `[a, b)`.
pub fn subvec(data: &Vec<u8>, a: usize, b: usize) -> (r: Vec<u8>)
    requires
        a <= b <= data@.len(),
    ensures
        r@ == data@.subrange(a as int, b as int),
{
    let mut r: Vec<u8> = Vec::new();
    let mut i = a;
    while i < b
        invariant
            a <= i <= b,
            b <= data@.len(),
            r@ =~= data@.subrange(a as int, i as int),
        decreases b - i,
    {
        r.push(data[i]);
        proof {
            assert(r@ =~= data@.subrange(a as int, i + 1));
        }
        i += 1;
    }
    proof {
        assert(r@ =~= data@.subrange(a as int, b as int));
    }
    r
}

/// A bounded iterator of logical lines over a byte buffer.
pub struct SampleIter {
    pub pos: usize,
    pub n_bytes: usize,
    pub n_records: usize,
    pub is_done: bool,
    pub sample_size: SampleSize,
    pub utf8_ok: bool,
}

impl SampleIter {
    /// Counters never outrun the cursor.
    pub open spec fn wf(&self) -> bool {
        self.n_bytes <= self.pos && self.n_records <= self.pos
    }

    /// What remains to be emitted from the current state of `data`.
    pub open spec fn remaining(&self, data: Seq<u8>) -> Seq<Seq<u8>> {
        spec_sample(data, self.sample_size, self.pos as int, self.n_bytes as int, self.n_records as int)
    }

    /// UTF-8 cleanliness of what remains to be read from the current state.
    pub open spec fn remaining_utf8(&self, data: Seq<u8>) -> bool {
        spec_utf8(data, self.sample_size, self.pos as int, self.n_bytes as int, self.n_records as int)
    }

    pub fn new(sample_size: SampleSize) -> (r: SampleIter)
        ensures
            r.wf(),
            r.pos == 0,
            r.n_bytes == 0,
            r.n_records == 0,
            !r.is_done,
            r.sample_size == sample_size,
            r.utf8_ok,
    {
        SampleIter { pos: 0, n_bytes: 0, n_records: 0, is_done: false, sample_size, utf8_ok: true }
    }

    /// The next sampled line of `data`, or nothing once the sample ends.
    pub fn next_line(&mut self, data: &Vec<u8>) -> (r: Option<Vec<u8>>)
        requires
            old(self).wf(),
            old(self).pos <= data@.len(),
        ensures
            final(self).wf(),
            final(self).pos <= data@.len(),
            final(self).sample_size == old(self).sample_size,
            old(self).is_done ==> r is None && *final(self) == *old(self),
            !old(self).is_done && r is None ==> {
                &&& old(self).remaining(data@).len() == 0
                &&& final(self).is_done
                &&& final(self).utf8_ok == (old(self).utf8_ok && old(self).remaining_utf8(data@))
            },
            r is Some ==> {
                &&& !old(self).is_done
                &&& !final(self).is_done
                &&& old(self).remaining(data@).len() > 0
                &&& r->0@ == old(self).remaining(data@)[0]
                &&& final(self).remaining(data@) == old(self).remaining(data@).skip(1)
                &&& (final(self).utf8_ok && final(self).remaining_utf8(data@)) == (old(
                    self,
                ).utf8_ok && old(self).remaining_utf8(data@))
            },
    {
        if self.is_done {
            return None;
        }
        // the record that crossed the budget was still emitted; this call
        // ends the sample
        let over = match self.sample_size {
            SampleSize::Records(maxr) => self.n_records > maxr,
            SampleSize::Bytes(maxb) => self.n_bytes > maxb,
            SampleSize::All => false,
        };
        if over {
            self.is_done = true;
            return None;
        }
        let n = data.len();
        if self.pos >= n {
            self.is_done = true;
            return None;
        }
        let ghost old_state = *self;
        // find the end of the chunk: past the newline, or the end of data
        let mut e = self.pos;
        while e < n && data[e] != 0x0a
            invariant
                self.pos <= e <= n,
                n == data@.len(),
                forall|k: int| self.pos <= k < e ==> data@[k] != 0x0a,
            decreases n - e,
        {
            e += 1;
        }
        proof {
            lemma_next_nl_is(data@, self.pos as int, e as int);
        }
        let stop: usize = if e < n {
            e + 1
        } else {
            e
        };
        let chunk = subvec(data, self.pos, stop);
        let ghost chunk_s = data@.subrange(self.pos as int, stop as int);
        let ok = utf8_valid(chunk.as_slice());
        self.utf8_ok = self.utf8_ok && ok;
        let clen = chunk.len();
        let last = chunk[clen - 1];
        if last != 0x0a && last != 0x0d {
            self.is_done = true;
            return None;
        }
        // trim trailing line breaks
        let mut b: usize = clen;
        while b > 0 && (chunk[b - 1] == 0x0a || chunk[b - 1] == 0x0d)
            invariant
                b <= clen,
                clen == chunk@.len(),
                forall|k: int| b <= k < clen ==> (chunk@[k] == 0x0a || chunk@[k] == 0x0d),
            decreases b,
        {
            b -= 1;
        }
        proof {
            lemma_end_keep_is(chunk@, clen as int, b as int);
        }
        let raw: Vec<u8> = subvec(&chunk, 0, b);
        proof {
            assert(raw@ =~= trim_crlf(chunk_s));
        }
        // account for the raw bytes and the record consumed
        self.pos = stop;
        self.n_bytes = self.n_bytes + clen;
        self.n_records = self.n_records + 1;
        proof {
            assert(old_state.remaining(data@) == seq![trim_crlf(chunk_s)] + self.remaining(data@));
            assert(old_state.remaining(data@).skip(1) =~= self.remaining(data@));
            assert(old_state.remaining(data@)[0] == trim_crlf(chunk_s));
        }
        Some(raw)
    }
}

/// Views of a sequence of byte vectors.
pub open spec fn byte_lines(v: Seq<Vec<u8>>) -> Seq<Seq<u8>> {
    v.map_values(|x: Vec<u8>| x@)
}

/// All sampled lines of `data` under the budget `size`, with the UTF-8
/// cleanliness of everything that was read.
pub fn take_sample(data: &Vec<u8>, size: SampleSize) -> (r: (Vec<Vec<u8>>, bool))
    ensures
        byte_lines(r.0@) == spec_sample(data@, size, 0, 0, 0),
        r.1 == spec_utf8(data@, size, 0, 0, 0),
{
    let mut it = SampleIter::new(size);
    let mut lines: Vec<Vec<u8>> = Vec::new();
    proof {
        assert(byte_lines(lines@) + it.remaining(data@) =~= spec_sample(data@, size, 0, 0, 0));
    }
    loop
        invariant_except_break
            it.wf(),
            it.pos <= data@.len(),
            it.sample_size == size,
            !it.is_done,
            byte_lines(lines@) + it.remaining(data@) == spec_sample(data@, size, 0, 0, 0),
            (it.utf8_ok && it.remaining_utf8(data@)) == spec_utf8(data@, size, 0, 0, 0),
        ensures
            byte_lines(lines@) == spec_sample(data@, size, 0, 0, 0),
            it.utf8_ok == spec_utf8(data@, size, 0, 0, 0),
        decreases it.remaining(data@).len(),
    {
        let ghost pre = it;
        let ghost pre_lines = lines@;
        let nxt = it.next_line(data);
        match nxt {
            Some(v) => {
                proof {
                    assert(pre.remaining(data@) =~= seq![v@] + it.remaining(data@)) by {
                        assert(it.remaining(data@) == pre.remaining(data@).skip(1));
                        assert(pre.remaining(data@) =~= seq![pre.remaining(data@)[0]]
                            + pre.remaining(data@).skip(1));
                    }
                }
                lines.push(v);
                proof {
                    assert(byte_lines(lines@) =~= byte_lines(pre_lines) + seq![v@]);
                    assert(byte_lines(lines@) + it.remaining(data@) =~= byte_lines(pre_lines) + (
                    seq![v@] + it.remaining(data@)));
                    assert(byte_lines(pre_lines) + (seq![v@] + it.remaining(data@))
                        =~= byte_lines(pre_lines) + pre.remaining(data@));
                }
            },
            None => {
                proof {
                    assert(pre.remaining(data@).len() == 0);
                    assert(byte_lines(pre_lines) + pre.remaining(data@) =~= byte_lines(
                        pre_lines,
                    ));
                }
                break;
            },
        }
    }
    let ok = it.utf8_ok;
    (lines, ok)
}

} // verus!
