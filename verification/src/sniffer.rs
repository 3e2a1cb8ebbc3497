//! The sniffer: orchestrates quote/delimiter detection, the row-regularity
//! chains, and column type inference over an in-memory byte buffer.

use vstd::prelude::*;
use vstd::string::StringSliceAdditionalSpecFns;
use vstd::utf8::encode_utf8;

use crate::bignat::BigNat;
use crate::chain::Chain;
use crate::chain::SelAcc;
use crate::chain::best_sel;
use crate::chain::chain_views;
use crate::chain::cnum;
use crate::chain::cstate;
use crate::chain::init_acc;
use crate::chain::lemma_vprob_nonneg;
use crate::chain::max_obs;
use crate::chain::preamble_of;
use crate::chain::pre_cnt;
use crate::chain::rat_gt;
use crate::chain::sel_from;
use crate::chain::sel_step;
use crate::chain::vfinal;
use crate::chain::vstate;
use crate::error::SnifferError;
use crate::field_type::DatePreference;
use crate::field_type::Type;
use crate::metadata::Dialect;
use crate::metadata::Header;
use crate::metadata::Metadata;
use crate::metadata::Quote;
use crate::sample::SampleSize;

verus! {

/// Number of occurrences of a byte.
pub open spec fn count_byte(s: Seq<u8>, b: u8) -> int
    decreases s.len(),
{
    if s.len() == 0 {
        0
    } else {
        count_byte(s.drop_last(), b) + if s.last() == b {
            1int
        } else {
            0int
        }
    }
}

pub proof fn lemma_count_byte_bound(s: Seq<u8>, b: u8)
    ensures
        0 <= count_byte(s, b) <= s.len(),
    decreases s.len(),
{
    if s.len() > 0 {
        lemma_count_byte_bound(s.drop_last(), b);
    }
}

/// Counting a byte over one more position.
pub proof fn lemma_count_byte_step(s: Seq<u8>, k: int)
    requires
        0 <= k < s.len(),
    ensures
        forall|c: u8|
            #[trigger] count_byte(s.take(k + 1), c) == count_byte(s.take(k), c) + if s[k] == c {
                1int
            } else {
                0int
            },
{
    assert forall|c: u8|
        #[trigger] count_byte(s.take(k + 1), c) == count_byte(s.take(k), c) + if s[k] == c {
            1int
        } else {
            0int
        } by {
        assert(s.take(k + 1).drop_last() =~= s.take(k));
        assert(s.take(k + 1).last() == s[k]);
    }
}

/// Counts add over concatenation.
pub proof fn lemma_count_byte_concat(a: Seq<u8>, b: Seq<u8>, c: u8)
    ensures
        count_byte(a + b, c) == count_byte(a, c) + count_byte(b, c),
    decreases b.len(),
{
    if b.len() == 0 {
        assert(a + b =~= a);
    } else {
        lemma_count_byte_concat(a, b.drop_last(), c);
        assert((a + b).drop_last() =~= a + b.drop_last());
        assert((a + b).last() == b.last());
    }
}

/// A sequence without the byte counts zero of it.
pub proof fn lemma_count_byte_none(s: Seq<u8>, c: u8)
    requires
        forall|i: int| 0 <= i < s.len() ==> s[i] != c,
    ensures
        count_byte(s, c) == 0,
    decreases s.len(),
{
    if s.len() > 0 {
        lemma_count_byte_none(s.drop_last(), c);
    }
}

/// Relies on `bytecount::count`: the number of occurrences of the needle
/// byte in the haystack.
#[verifier::external_body]
fn count_occurrences(hay: &[u8], needle: u8) -> (r: usize)
    ensures
        r == count_byte(hay@, needle),
{
    bytecount::count(hay, needle)
}

/// What one quoted line yields under the CSV primitive reader: the number
/// of field boundaries it writes, or nothing when output buffers sized to
/// the line cannot hold the record.
pub uninterp spec fn quoted_ends_of(line: Seq<u8>, delim: u8, quote: u8) -> Option<usize>;

/// Relies on `csv_core::ReaderBuilder` and `csv_core::Reader::read_record`
/// with the given delimiter and quote: the reader is fed the line's bytes
/// with output and boundary buffers as long as the line, and reports the
/// boundaries written, or fullness of either buffer. The result depends on
/// the arguments alone.
#[verifier::external_body]
fn quoted_line_ends(line: &[u8], delim: u8, quote: u8) -> (r: Option<usize>)
    ensures
        r == quoted_ends_of(line@, delim, quote),
{
    let mut rdr = csv_core::ReaderBuilder::new().delimiter(delim).quote(quote).build();
    let mut output = vec![0u8; line.len()];
    let mut ends = vec![0usize; line.len()];
    let (result, _, _, n_ends) = rdr.read_record(line, &mut output, &mut ends);
    match result {
        csv_core::ReadRecordResult::OutputFull => None,
        csv_core::ReadRecordResult::OutputEndsFull => None,
        _ => Some(n_ends),
    }
}

/// The UTF-8 bytes of a decoded line.
pub open spec fn line_bytes(s: Seq<char>) -> Seq<u8> {
    encode_utf8(s)
}

/// Views of a vector of strings.
pub open spec fn string_views(v: Seq<String>) -> Seq<Seq<char>> {
    v.map_values(|s: String| s@)
}

/// Per-line counts of the candidate byte `c` over the sampled lines: the
/// observation sequence of chain `c`.
pub open spec fn ascii_chain(lines: Seq<Seq<char>>, c: int) -> Seq<usize> {
    Seq::new(lines.len(), |j: int| count_byte(line_bytes(lines[j]), c as u8) as usize)
}

/// The 128 chains of the unknown-delimiter scan, one per ASCII byte.
pub open spec fn ascii_chains(lines: Seq<Seq<char>>) -> Seq<Seq<usize>> {
    Seq::new(128, |c: int| ascii_chain(lines, c))
}

/// Observation of one line when the delimiter is known: boundaries under
/// the quoted reader, or a raw count.
pub open spec fn known_ob(line: Seq<char>, delim: u8, quote: Option<u8>) -> usize {
    match quote {
        Some(q) => quoted_ends_of(line_bytes(line), delim, q)->0,
        None => count_byte(line_bytes(line), delim) as usize,
    }
}

/// The single observation sequence of the known-delimiter scan.
pub open spec fn known_obs(lines: Seq<Seq<char>>, delim: u8, quote: Option<u8>) -> Seq<usize> {
    Seq::new(lines.len(), |j: int| known_ob(lines[j], delim, quote))
}

/// Every line of the sample is readable under the quoted reader.
pub open spec fn quoted_ok(lines: Seq<Seq<char>>, delim: u8, q: u8) -> bool {
    forall|j: int| 0 <= j < lines.len() ==> quoted_ends_of(line_bytes(#[trigger] lines[j]), delim, q) is Some
}

/// For each match of the quote-delimiter-quote pattern on a line, the
/// captured delimiter text.
pub uninterp spec fn quote_caps_of(line: Seq<char>, quote: u8) -> Seq<Seq<u8>>;

/// Relies on `regex::Regex::new` and `Regex::captures_iter` over the
/// pattern `Q\s*?([^\w\n'"`])\s*Q`, `Q` being the quote character: one
/// entry per match holding the captured delimiter's bytes, in match order.
/// A capture is one character, so it is never empty, and when it is a
/// single byte that byte is ASCII and, the class excluding them, neither a
/// quote character nor a line feed. The result depends on the line and the
/// quote alone.
#[verifier::external_body]
fn quote_captures(line: &str, quote: u8) -> (r: Vec<Vec<u8>>)
    requires
        quote == 0x27 || quote == 0x22 || quote == 0x60,
    ensures
        crate::sample::byte_lines(r@) == quote_caps_of(line@, quote),
        r@.len() <= line@.len(),
        forall|i: int| 0 <= i < r@.len() ==> (#[trigger] r@[i])@.len() >= 1,
        forall|i: int|
            0 <= i < r@.len() ==> ((#[trigger] r@[i])@.len() == 1 ==> (r@[i]@[0] < 128 && r@[i]@[0]
                != 0x27 && r@[i]@[0] != 0x22 && r@[i]@[0] != 0x60 && r@[i]@[0] != 0x0a)),
{
    let q = quote as char;
    let pattern = format!("{}\\s*?(?P<delim>[^\\w\\n'\"`])\\s*{}", q, q);
    let re = regex::Regex::new(&pattern).unwrap();
    let mut out: Vec<Vec<u8>> = Vec::new();
    for cap in re.captures_iter(line) {
        out.push(cap["delim"].as_bytes().to_vec());
    }
    out
}

/// Number of matches of the quote-delimiter-quote pattern when the
/// delimiter is already known.
pub uninterp spec fn quote_match_count_of(line: Seq<char>, quote: u8, delim: u8) -> usize;

/// Relies on `regex::Regex::new`, `regex::escape` and `Regex::find_iter`
/// over the pattern `Q\s*?D\s*Q`, `Q` being the quote character and `D`
/// the escaped delimiter character: the number of matches on the line, at
/// most its length. The result depends on the arguments alone.
#[verifier::external_body]
fn quote_match_count(line: &str, quote: u8, delim: u8) -> (r: usize)
    requires
        quote == 0x27 || quote == 0x22 || quote == 0x60,
    ensures
        r == quote_match_count_of(line@, quote, delim),
        r <= line@.len(),
{
    let q = quote as char;
    let d = regex::escape(&(delim as char).to_string());
    let pattern = format!("{}\\s*?{}\\s*{}", q, d, q);
    let re = regex::Regex::new(&pattern).unwrap();
    re.find_iter(line).count()
}

/// What the regex wrapper guarantees of every captured delimiter text.
pub open spec fn cap_ok(v: Seq<u8>) -> bool {
    v.len() >= 1 && (v.len() == 1 ==> (v[0] < 128 && v[0] != 0x27 && v[0] != 0x22 && v[0] != 0x60
        && v[0] != 0x0a))
}

/// All captures of a candidate quote over the sampled lines, in order.
pub open spec fn caps_of_lines(lines: Seq<Seq<char>>, chr: u8) -> Seq<Seq<u8>>
    decreases lines.len(),
{
    if lines.len() == 0 {
        Seq::empty()
    } else {
        caps_of_lines(lines.drop_last(), chr) + quote_caps_of(lines.last(), chr)
    }
}

/// Total match count of a candidate quote with a known delimiter.
pub open spec fn known_count(lines: Seq<Seq<char>>, chr: u8, d: u8) -> int
    decreases lines.len(),
{
    if lines.len() == 0 {
        0
    } else {
        known_count(lines.drop_last(), chr, d) + quote_match_count_of(lines.last(), chr, d)
    }
}

/// First index of `v` among the keys of the tally, its length if absent.
pub open spec fn fk(t: Seq<(Seq<u8>, int)>, v: Seq<u8>, i: int) -> int
    decreases t.len() - i,
{
    if i < 0 || i >= t.len() {
        t.len() as int
    } else if t[i].0 == v {
        i
    } else {
        fk(t, v, i + 1)
    }
}

pub proof fn lemma_fk_is(t: Seq<(Seq<u8>, int)>, v: Seq<u8>, i: int, j: int)
    requires
        0 <= i <= j <= t.len(),
        forall|k: int| i <= k < j ==> (#[trigger] t[k]).0 != v,
        j < t.len() ==> t[j].0 == v,
    ensures
        fk(t, v, i) == j,
    decreases j - i,
{
    if i < j {
        lemma_fk_is(t, v, i + 1, j);
    }
}

/// Account one capture: raise the count of its key, or append it.
pub open spec fn bump(t: Seq<(Seq<u8>, int)>, v: Seq<u8>) -> Seq<(Seq<u8>, int)> {
    let i = fk(t, v, 0);
    if i < t.len() {
        t.update(i, (v, t[i].1 + 1))
    } else {
        t.push((v, 1))
    }
}

/// Tally of the captures in order of first appearance.
pub open spec fn tally_of(s: Seq<Seq<u8>>) -> Seq<(Seq<u8>, int)>
    decreases s.len(),
{
    if s.len() == 0 {
        Seq::empty()
    } else {
        bump(tally_of(s.drop_last()), s.last())
    }
}

pub proof fn lemma_fk_bounds(t: Seq<(Seq<u8>, int)>, v: Seq<u8>, i: int)
    requires
        0 <= i <= t.len(),
    ensures
        i <= fk(t, v, i) <= t.len(),
    decreases t.len() - i,
{
    if i < t.len() && t[i].0 != v {
        lemma_fk_bounds(t, v, i + 1);
    }
}

pub proof fn lemma_tally_bound(s: Seq<Seq<u8>>)
    ensures
        tally_of(s).len() <= s.len(),
        forall|i: int| 0 <= i < tally_of(s).len() ==> 0 < (#[trigger] tally_of(s)[i]).1 <= s.len(),
    decreases s.len(),
{
    if s.len() > 0 {
        lemma_tally_bound(s.drop_last());
        let t = tally_of(s.drop_last());
        let i = fk(t, s.last(), 0);
        lemma_fk_bounds(t, s.last(), 0);
        if i < t.len() {
            assert(tally_of(s) == t.update(i, (s.last(), t[i].1 + 1)));
            assert forall|k: int| 0 <= k < tally_of(s).len() implies 0 < (#[trigger] tally_of(
                s,
            )[k]).1 <= s.len() by {
                if k == i {
                    assert(tally_of(s)[k].1 == t[i].1 + 1);
                } else {
                    assert(tally_of(s)[k] == t[k]);
                }
            }
        } else {
            assert(tally_of(s) == t.push((s.last(), 1)));
            assert forall|k: int| 0 <= k < tally_of(s).len() implies 0 < (#[trigger] tally_of(
                s,
            )[k]).1 <= s.len() by {
                if k < t.len() {
                    assert(tally_of(s)[k] == t[k]);
                } else {
                    assert(tally_of(s)[k].1 == 1);
                }
            }
        }
    }
}

/// The modal capture: the tally entry with the greatest count, the first
/// appearance winning ties.
pub open spec fn modal_from(t: Seq<(Seq<u8>, int)>) -> (int, Seq<u8>)
    decreases t.len(),
{
    if t.len() == 0 {
        (0int, Seq::empty())
    } else {
        let m = modal_from(t.drop_last());
        let e = t.last();
        if e.1 > m.0 {
            (e.1, e.0)
        } else {
            m
        }
    }
}

/// Accounting a capture never shrinks the tally, and leaves it occupied.
pub proof fn lemma_bump_len(t: Seq<(Seq<u8>, int)>, v: Seq<u8>)
    ensures
        bump(t, v).len() >= t.len(),
        bump(t, v).len() >= 1,
{
    lemma_fk_bounds(t, v, 0);
}

/// A tally of at least one capture has a modal entry.
pub proof fn lemma_modal_pos(t: Seq<(Seq<u8>, int)>)
    requires
        t.len() > 0,
        forall|i: int| 0 <= i < t.len() ==> (#[trigger] t[i]).1 > 0,
    ensures
        modal_from(t).0 > 0,
    decreases t.len(),
{
    if t.len() > 1 {
        lemma_modal_pos(t.drop_last());
    }
}

/// Count of a candidate quote: captures when the delimiter is unknown,
/// matches when it is known.
pub open spec fn qc_count(lines: Seq<Seq<char>>, chr: u8, kd: Option<u8>) -> int {
    match kd {
        Some(d) => known_count(lines, chr, d),
        None => caps_of_lines(lines, chr).len() as int,
    }
}

/// A candidate quote fails when it matches but its modal capture is not a
/// single byte.
pub open spec fn qc_err(lines: Seq<Seq<char>>, chr: u8, kd: Option<u8>) -> bool {
    kd is None && caps_of_lines(lines, chr).len() > 0 && modal_from(
        tally_of(caps_of_lines(lines, chr)),
    ).1.len() != 1
}

/// The delimiter a winning candidate quote implies.
pub open spec fn qc_delim(lines: Seq<Seq<char>>, chr: u8, kd: Option<u8>) -> u8 {
    match kd {
        Some(d) => d,
        None => modal_from(tally_of(caps_of_lines(lines, chr))).1[0],
    }
}

/// Some candidate quote fails.
pub open spec fn scan_err(lines: Seq<Seq<char>>, kd: Option<u8>, cands: Seq<u8>) -> bool {
    exists|i: int| 0 <= i < cands.len() && qc_err(lines, #[trigger] cands[i], kd)
}

/// Fold over the candidate quotes: a candidate with a strictly greater
/// count displaces the running best `(quote, count, delimiter)`.
pub open spec fn cand_acc(lines: Seq<Seq<char>>, kd: Option<u8>, cands: Seq<u8>, i: int) -> (
    u8,
    int,
    u8,
)
    decreases i,
{
    if i <= 0 {
        (0x22u8, 0int, 0u8)
    } else {
        let prev = cand_acc(lines, kd, cands, i - 1);
        let chr = cands[i - 1];
        let c = qc_count(lines, chr, kd);
        if c == 0 {
            prev
        } else if c > prev.1 {
            (chr, c, qc_delim(lines, chr, kd))
        } else {
            prev
        }
    }
}

/// With a known delimiter, whatever quote wins implies that delimiter.
pub proof fn lemma_cand_acc_kd(lines: Seq<Seq<char>>, d: u8, cands: Seq<u8>, i: int)
    ensures
        cand_acc(lines, Some(d), cands, i).2 == d || cand_acc(lines, Some(d), cands, i).1 == 0,
    decreases i,
{
    if i > 0 {
        lemma_cand_acc_kd(lines, d, cands, i - 1);
    }
}

/// Byte-for-byte equality of two buffers.
fn bytes_eq(a: &Vec<u8>, b: &Vec<u8>) -> (r: bool)
    ensures
        r == (a@ == b@),
{
    let n = a.len();
    if n != b.len() {
        return false;
    }
    let mut i: usize = 0;
    while i < n
        invariant
            i <= n,
            n == a@.len(),
            n == b@.len(),
            forall|k: int| 0 <= k < i ==> a@[k] == b@[k],
        decreases n - i,
    {
        if a[i] != b[i] {
            return false;
        }
        i += 1;
    }
    proof {
        assert(a@ =~= b@);
    }
    true
}

/// First index among the keys holding exactly these bytes.
fn find_key_exec(keys: &Vec<Vec<u8>>, cap: &Vec<u8>) -> (idx: usize)
    ensures
        idx <= keys@.len(),
        idx < keys@.len() ==> keys@[idx as int]@ == cap@,
        forall|x: int| 0 <= x < idx ==> (#[trigger] keys@[x])@ != cap@,
{
    let n = keys.len();
    let mut idx: usize = 0;
    while idx < n
        invariant
            idx <= n,
            n == keys@.len(),
            forall|x: int| 0 <= x < idx ==> (#[trigger] keys@[x])@ != cap@,
        decreases n - idx,
    {
        if bytes_eq(&keys[idx], cap) {
            return idx;
        }
        idx += 1;
    }
    idx
}

/// What the CSV reader makes of a byte buffer under a dialect: the records
/// parsed until the first erroneous one, each a list of field byte
/// strings, and whether an erroneous record followed.
pub uninterp spec fn csv_records_of(data: Seq<u8>, delim: u8, quote: Option<u8>, flexible: bool) -> (
    Seq<Seq<Seq<u8>>>,
    bool,
);

/// Views of a vector of parsed records.
pub open spec fn record_views(v: Seq<Vec<Vec<u8>>>) -> Seq<Seq<Seq<u8>>> {
    v.map_values(|r: Vec<Vec<u8>>| crate::sample::byte_lines(r@))
}

/// Relies on `csv::ReaderBuilder` and `csv::Reader::byte_records`, headers
/// off, with the given delimiter, quoting and flexibility: the records
/// parsed from the data until the first erroneous one, and that error as
/// it came, if any. Parsing is deterministic in the arguments.
#[verifier::external_body]
fn csv_read_records(data: &[u8], delim: u8, quote: Option<u8>, flexible: bool) -> (r: (
    Vec<Vec<Vec<u8>>>,
    Option<csv::Error>,
))
    ensures
        record_views(r.0@) == csv_records_of(data@, delim, quote, flexible).0,
        (r.1 is Some) == csv_records_of(data@, delim, quote, flexible).1,
{
    let mut bld = csv::ReaderBuilder::new();
    bld.delimiter(delim).has_headers(false).flexible(flexible);
    bld.quoting(quote.is_some()).quote(quote.unwrap_or(0x22));
    let (mut out, mut err) = (Vec::new(), None);
    for rec in bld.from_reader(data).byte_records() {
        match rec {
            Ok(r) => out.push(r.iter().map(|f| f.to_vec()).collect()),
            Err(e) => {
                err = Some(e);
                break;
            },
        }
    }
    (out, err)
}

/// Addition clamped at the largest 128-bit value.
pub open spec fn sat_add(a: int, b: int) -> int {
    if a + b > 0xffff_ffff_ffff_ffff_ffff_ffff_ffff_ffff {
        0xffff_ffff_ffff_ffff_ffff_ffff_ffff_ffff
    } else {
        a + b
    }
}

/// Clamp at the largest machine word.
pub open spec fn clamp_usize(x: int) -> int {
    if x > usize::MAX {
        usize::MAX as int
    } else {
        x
    }
}

/// Raw data bytes of a record: the field lengths summed.
pub open spec fn rec_size(rec: Seq<Seq<u8>>) -> int
    decreases rec.len(),
{
    if rec.len() == 0 {
        0
    } else {
        rec_size(rec.drop_last()) + rec.last().len()
    }
}

/// Text bytes of a record once each field is decoded: the decoded field
/// lengths summed, clamped like the machine sum.
pub open spec fn lossy_size(rec: Seq<Seq<u8>>) -> int
    decreases rec.len(),
{
    if rec.len() == 0 {
        0
    } else {
        sat_add(
            lossy_size(rec.drop_last()),
            line_bytes(crate::sample::lossy_decode(rec.last())).len() as int,
        )
    }
}

/// The record scan of the type-inference pass from record `i` on: whether
/// the sample budget cut it short, and the byte and record tallies where
/// it ended.
pub open spec fn scan_recs(
    recs: Seq<Seq<Seq<u8>>>,
    size: SampleSize,
    i: int,
    nbytes: int,
    nrecs: int,
) -> (bool, int, int)
    decreases recs.len() - i,
{
    if i < 0 || i >= recs.len() {
        (false, nbytes, nrecs)
    } else {
        let nb = sat_add(nbytes, rec_size(recs[i]));
        let nr = nrecs + 1;
        if crate::sample::over_budget(size, nb, nr) {
            (true, nb, nr)
        } else {
            scan_recs(recs, size, i + 1, nb, nr)
        }
    }
}

/// Columnwise intersection of per-record guesses: column `i` of the fold,
/// starting from the all-bits guess, each record contributing where it has
/// a field.
pub open spec fn col_fold(gmat: Seq<Seq<crate::field_type::TypeGuesses>>, i: int) -> crate::field_type::TypeGuesses
    decreases gmat.len(),
{
    if gmat.len() == 0 {
        crate::field_type::TypeGuesses::spec_all()
    } else {
        let prev = col_fold(gmat.drop_last(), i);
        if 0 <= i < gmat.last().len() {
            prev.spec_intersect(gmat.last()[i])
        } else {
            prev
        }
    }
}

/// What field-level inference may say of a field whose decoded text has
/// these bytes: everything but the calendar bits exact, and at most one
/// calendar bit set.
pub open spec fn guess_ok(g: crate::field_type::TypeGuesses, b: Seq<u8>) -> bool {
    if b.len() == 0 {
        g == crate::field_type::TypeGuesses::spec_all()
    } else {
        &&& g.text
        &&& !g.null
        &&& g.boolean == crate::field_type::is_boolean_text(b)
        &&& g.unsigned == crate::field_type::is_u64_text(b)
        &&& g.signed == crate::field_type::is_i64_text(b)
        &&& g.float == crate::field_type::is_float_text(b)
        &&& !(g.date && g.datetime)
    }
}

/// Saturating 128-bit addition.
fn sat_add_u128(a: u128, b: u128) -> (r: u128)
    ensures
        r as int == sat_add(a as int, b as int),
{
    if a > 0xffff_ffff_ffff_ffff_ffff_ffff_ffff_ffff - b {
        0xffff_ffff_ffff_ffff_ffff_ffff_ffff_ffff
    } else {
        a + b
    }
}

/// Clamp a 128-bit tally into a machine word.
fn clamp_to_usize(x: u128) -> (r: usize)
    ensures
        r as int == clamp_usize(x as int),
{
    if x > usize::MAX as u128 {
        usize::MAX
    } else {
        x as usize
    }
}

/// Decoded text of a field: its admissibility guesses and its decoded
/// byte length.
fn field_guess(field: &Vec<u8>, pref: DatePreference) -> (r: (crate::field_type::TypeGuesses, usize))
    ensures
        guess_ok(r.0, line_bytes(crate::sample::lossy_decode(field@))),
        r.1 as int == line_bytes(crate::sample::lossy_decode(field@)).len(),
        r.1 <= 3 * field@.len(),
{
    let text = crate::sample::lossy_string(field.as_slice());
    let g = crate::field_type::infer_types(text.as_str(), pref);
    let sz = text.as_str().len();
    (g, sz)
}

/// Copies of strings with their contents pinned.
fn clone_strings(v: &Vec<String>) -> (r: Vec<String>)
    ensures
        r@.len() == v@.len(),
        forall|i: int| 0 <= i < v@.len() ==> (#[trigger] r@[i])@ == v@[i]@,
{
    let mut r: Vec<String> = Vec::new();
    let n = v.len();
    let mut i: usize = 0;
    while i < n
        invariant
            i <= n,
            n == v@.len(),
            r@.len() == i,
            forall|k: int| 0 <= k < i ==> (#[trigger] r@[k])@ == v@[k]@,
        decreases n - i,
    {
        r.push(v[i].as_str().to_owned());
        i += 1;
    }
    r
}

/// Copy of a type list.
fn clone_types(v: &Vec<Type>) -> (r: Vec<Type>)
    ensures
        r@ == v@,
{
    let mut r: Vec<Type> = Vec::new();
    let n = v.len();
    let mut i: usize = 0;
    while i < n
        invariant
            i <= n,
            n == v@.len(),
            r@ =~= v@.take(i as int),
        decreases n - i,
    {
        r.push(v[i]);
        i += 1;
    }
    proof {
        assert(r@ =~= v@);
    }
    r
}


/// The quote byte a quoting style implies for the CSV primitives.
pub open spec fn quote_byte(q: Quote) -> Option<u8> {
    match q {
        Quote::Enabled(c) => Some(c),
        Quote::Disabled => None,
    }
}

/// The decoded text of every sampled line of the data.
pub open spec fn decoded_lines(data: Seq<u8>, size: SampleSize) -> Seq<Seq<char>> {
    crate::sample::spec_sample(data, size, 0, 0, 0).map_values(
        |b: Seq<u8>| crate::sample::lossy_decode(b),
    )
}

/// Everything the pipeline decides on given data and configuration: which
/// failure, if any, ends the run, and otherwise the dialect facts the
/// stages settle.
pub enum SniffPlan {
    /// A candidate quote matches but its modal capture is not one byte.
    FailQuote,
    /// A sampled line the quoted reader cannot hold.
    FailQuoted,
    /// No chain reaches a steady state.
    FailDelimiter,
    /// The delimiter count does not leave room for the field count.
    FailWide,
    /// The CSV reader reports a malformed record within the sample budget.
    FailCsv,
    /// Nothing to read after the preamble.
    FailEmpty,
    /// The run succeeds with these dialect facts.
    Go { delimiter: u8, quote: Quote, flexible: bool, preamble: int, freq: int },
}

/// The composition of the three stages over the decoded sample `lviews` of
/// `data`: quote/delimiter co-inference, chain selection, and the record
/// scan of type inference.
pub open spec fn sniff_plan(cfg: Sniffer, lviews: Seq<Seq<char>>, data: Seq<u8>, size: SampleSize) -> SniffPlan {
    let skip_quote = (cfg.quote is Some && cfg.delimiter is Some) || cfg.quote == Some(
        Quote::Disabled,
    );
    let cands = (match cfg.quote {
        Some(Quote::Enabled(c)) => seq![c],
        _ => seq![0x27u8, 0x22u8, 0x60u8],
    });
    if !skip_quote && scan_err(lviews, cfg.delimiter, cands) {
        SniffPlan::FailQuote
    } else {
        let acc = cand_acc(lviews, cfg.delimiter, cands, cands.len() as int);
        let q2 = if skip_quote {
            cfg.quote->0
        } else if acc.1 == 0 {
            Quote::Disabled
        } else {
            Quote::Enabled(acc.0)
        };
        let d2 = if skip_quote || acc.1 == 0 {
            cfg.delimiter
        } else {
            Some(acc.2)
        };
        let unreadable = (match (d2, quote_byte(q2)) {
            (Some(d), Some(q)) => !quoted_ok(lviews, d, q),
            _ => false,
        });
        if unreadable {
            SniffPlan::FailQuoted
        } else {
            let chains = (match d2 {
                Some(d) => seq![known_obs(lviews, d, quote_byte(q2))],
                None => ascii_chains(lviews),
            });
            let sel = best_sel(chains);
            if sel.state == 2 {
                SniffPlan::FailDelimiter
            } else {
                let delim = (match d2 {
                    Some(d) => d,
                    None => sel.delim as u8,
                });
                let preamble = (match d2 {
                    Some(d) => preamble_of(chains[0], sel.state),
                    None => preamble_of(chains[sel.winner], sel.state),
                });
                if sel.freq == usize::MAX as int {
                    SniffPlan::FailWide
                } else {
                    let off = crate::snip::skip_lines(data, preamble as nat, 0);
                    let parsed = csv_records_of(data.skip(off), delim, quote_byte(q2), sel.state
                        == 1);
                    if parsed.0.len() == 0 {
                        if parsed.1 {
                            SniffPlan::FailCsv
                        } else {
                            SniffPlan::FailEmpty
                        }
                    } else {
                        let scan = scan_recs(parsed.0, size, 1, lossy_size(parsed.0[0]), 1);
                        if !scan.0 && parsed.1 {
                            SniffPlan::FailCsv
                        } else {
                            SniffPlan::Go {
                                delimiter: delim,
                                quote: q2,
                                flexible: sel.state == 1,
                                preamble: preamble,
                                freq: sel.freq,
                            }
                        }
                    }
                }
            }
        }
    }
}

/// A CSV sniffer.
///
/// The sniffer examines CSV data handed in as bytes, optionally primed
/// with known dialect facts, and fills the remaining ones in.
#[derive(Debug)]
pub struct Sniffer {
    /// Field delimiter, given or inferred.
    pub delimiter: Option<u8>,
    /// Rows standing before the header or data.
    pub num_preamble_rows: Option<usize>,
    /// Whether the first data row labels the columns.
    pub has_header_row: Option<bool>,
    /// Quoting style, given or inferred.
    pub quote: Option<Quote>,
    /// Whether records may differ in field count.
    pub flexible: Option<bool>,
    /// Whether everything examined was valid UTF-8.
    pub is_utf8: Option<bool>,
    /// Largest per-row delimiter count over the sample.
    pub delimiter_freq: Option<usize>,
    /// Labels of the header row, once one is found.
    pub fields: Vec<String>,
    /// Narrowest admissible type of each column.
    pub types: Vec<Type>,
    /// Average data-byte length of the sampled records.
    pub avg_record_len: Option<usize>,
    /// Bound on how much of the input is examined.
    pub sample_size: Option<SampleSize>,
    /// Day/month order preference for date parsing.
    pub date_preference: Option<DatePreference>,
}

impl Default for Sniffer {
    /// A sniffer with nothing known yet.
    fn default() -> (r: Sniffer)
        ensures
            r.delimiter is None,
            r.num_preamble_rows is None,
            r.has_header_row is None,
            r.quote is None,
            r.flexible is None,
            r.is_utf8 is None,
            r.delimiter_freq is None,
            r.fields@.len() == 0,
            r.types@.len() == 0,
            r.avg_record_len is None,
            r.sample_size is None,
            r.date_preference is None,
            r.wf_config(),
    {
        Sniffer::new()
    }
}

impl Sniffer {
    /// The configuration a caller may prime: a delimiter inside 7-bit
    /// ASCII, a quote among the three candidate bytes, and the two apart.
    pub open spec fn wf_config(&self) -> bool {
        &&& (self.delimiter matches Some(d) ==> d < 128)
        &&& (self.quote matches Some(Quote::Enabled(q)) ==> (q == 0x27 || q == 0x22 || q == 0x60))
        &&& (match (self.delimiter, self.quote) {
            (Some(d), Some(Quote::Enabled(q))) => q != d,
            _ => true,
        })
        &&& (match (self.delimiter, self.quote) {
            (Some(d), Some(Quote::Disabled)) => true,
            (Some(d), _) => d != 0x27 && d != 0x22 && d != 0x60,
            _ => true,
        })
    }

    /// Create a new CSV sniffer.
    pub fn new() -> (r: Sniffer)
        ensures
            r.delimiter is None,
            r.num_preamble_rows is None,
            r.has_header_row is None,
            r.quote is None,
            r.flexible is None,
            r.is_utf8 is None,
            r.delimiter_freq is None,
            r.fields@.len() == 0,
            r.types@.len() == 0,
            r.avg_record_len is None,
            r.sample_size is None,
            r.date_preference is None,
            r.wf_config(),
    {
        Sniffer {
            delimiter: None,
            num_preamble_rows: None,
            has_header_row: None,
            quote: None,
            flexible: None,
            is_utf8: None,
            delimiter_freq: None,
            fields: Vec::new(),
            types: Vec::new(),
            avg_record_len: None,
            sample_size: None,
            date_preference: None,
        }
    }

    /// Specify the delimiter character.
    pub fn delimiter(self, delimiter: u8) -> (r: Sniffer)
        ensures
            r == (Sniffer { delimiter: Some(delimiter), ..self }),
    {
        Sniffer { delimiter: Some(delimiter), ..self }
    }

    /// Specify the header type (whether the CSV file has a header row, and
    /// where the data starts).
    pub fn header(self, header: &Header) -> (r: Sniffer)
        ensures
            r == (Sniffer {
                num_preamble_rows: Some(header.num_preamble_rows),
                has_header_row: Some(header.has_header_row),
                ..self
            }),
    {
        Sniffer {
            num_preamble_rows: Some(header.num_preamble_rows),
            has_header_row: Some(header.has_header_row),
            ..self
        }
    }

    /// Specify the quote character, or that the file has none.
    pub fn quote(self, quote: Quote) -> (r: Sniffer)
        ensures
            r == (Sniffer { quote: Some(quote), ..self }),
    {
        Sniffer { quote: Some(quote), ..self }
    }

    /// The size of the sample to examine while sniffing. Defaults to
    /// `SampleSize::Bytes(16384)`.
    pub fn sample_size(self, sample_size: SampleSize) -> (r: Sniffer)
        ensures
            r == (Sniffer { sample_size: Some(sample_size), ..self }),
    {
        Sniffer { sample_size: Some(sample_size), ..self }
    }

    /// The date format preference when sniffing. Defaults to
    /// `DatePreference::MdyFormat`.
    pub fn date_preference(self, date_preference: DatePreference) -> (r: Sniffer)
        ensures
            r == (Sniffer { date_preference: Some(date_preference), ..self }),
    {
        Sniffer { date_preference: Some(date_preference), ..self }
    }

    /// The configured sample bound, or the default.
    pub fn get_sample_size(&self) -> (r: SampleSize)
        ensures
            r == self.sample_size.unwrap_or(SampleSize::Bytes(16384)),
    {
        match self.sample_size {
            Some(s) => s,
            None => SampleSize::Bytes(16384),
        }
    }

    /// The date preference, or the default.
    pub fn get_date_preference(&self) -> (r: DatePreference)
        ensures
            r == self.date_preference.unwrap_or(DatePreference::MdyFormat),
    {
        match self.date_preference {
            Some(p) => p,
            None => DatePreference::MdyFormat,
        }
    }

    /// Infer quote and delimiter from quoted (or possibly quoted) files:
    /// try each candidate quote character over the sample, keep the one
    /// with the strictly greatest match count, and, when the delimiter was
    /// unknown, take the modal captured delimiter byte. No match at all
    /// decides that the file is unquoted.
    pub fn infer_quotes_delim(&mut self, lines: &Vec<String>) -> (r: Result<(), SnifferError>)
        requires
            old(self).wf_config(),
        ensures
            ({
                let lviews = string_views(lines@);
                match (old(self).quote, old(self).delimiter) {
                    (Some(_), Some(_)) => r is Ok && *final(self) == *old(self),
                    (Some(Quote::Disabled), _) => r is Ok && *final(self) == *old(self),
                    _ => {
                        let cands = (match old(self).quote {
                            Some(Quote::Enabled(c)) => seq![c],
                            _ => seq![0x27u8, 0x22u8, 0x60u8],
                        });
                        let kd = old(self).delimiter;
                        let err = scan_err(lviews, kd, cands);
                        let acc = cand_acc(lviews, kd, cands, cands.len() as int);
                        &&& (r is Err <==> err)
                        &&& (r matches Err(e) ==> {
                            &&& e matches SnifferError::SniffingFailed(m) && m@
                                == "invalid regex match: no delimiter found"@
                            &&& *final(self) == *old(self)
                        })
                        &&& (r is Ok && acc.1 == 0 ==> *final(self) == (Sniffer {
                            quote: Some(Quote::Disabled),
                            ..*old(self)
                        }))
                        &&& (r is Ok && acc.1 != 0 ==> *final(self) == (Sniffer {
                            quote: Some(Quote::Enabled(acc.0)),
                            delimiter: Some(acc.2),
                            ..*old(self)
                        }))
                    },
                }
            }),
            r is Ok && old(self).delimiter is None ==> (match final(self).delimiter {
                Some(d) => d < 128 && d != 0x27 && d != 0x22 && d != 0x60 && d != 0x0a,
                None => true,
            }),
            r is Ok ==> final(self).wf_config(),
            final(self).delimiter is Some || final(self).delimiter == old(self).delimiter,
    {
        match (&self.quote, &self.delimiter) {
            (Some(_), Some(_)) => {
                return Ok(());
            },
            _ => {},
        }
        let cands: Vec<u8> = match self.quote {
            Some(Quote::Enabled(chr)) => {
                let mut v: Vec<u8> = Vec::new();
                v.push(chr);
                v
            },
            Some(Quote::Disabled) => {
                return Ok(());
            },
            None => {
                let mut v: Vec<u8> = Vec::new();
                v.push(0x27);
                v.push(0x22);
                v.push(0x60);
                v
            },
        };
        let ghost lviews = string_views(lines@);
        let ghost kd = old(self).delimiter;
        let ghost cands_s = (match old(self).quote {
            Some(Quote::Enabled(c)) => seq![c],
            _ => seq![0x27u8, 0x22u8, 0x60u8],
        });
        proof {
            assert(cands@ =~= cands_s);
        }
        let n_lines = lines.len();
        let ncand = cands.len();
        let mut best_chr: u8 = 0x22;
        let mut best_cnt: u128 = 0;
        let mut best_delim: u8 = 0;
        let mut ci: usize = 0;
        while ci < ncand
            invariant
                ci <= ncand,
                ncand == cands@.len(),
                cands@ == cands_s,
                cands_s == (match old(self).quote {
                    Some(Quote::Enabled(c)) => seq![c],
                    _ => seq![0x27u8, 0x22u8, 0x60u8],
                }),
                !(old(self).quote is Some && old(self).delimiter is Some),
                !(old(self).quote matches Some(Quote::Disabled)),
                n_lines == lines@.len(),
                lviews == string_views(lines@),
                *self == *old(self),
                kd == old(self).delimiter,
                forall|x: int|
                    0 <= x < ncand ==> ((#[trigger] cands@[x]) == 0x27 || cands@[x] == 0x22
                        || cands@[x] == 0x60),
                (best_chr, best_cnt as int, best_delim) == cand_acc(lviews, kd, cands@, ci as int),
                forall|x: int| 0 <= x < ci ==> !qc_err(lviews, #[trigger] cands@[x], kd),
                best_cnt > 0 && kd is None ==> (best_delim < 128 && best_delim != 0x27 && best_delim
                    != 0x22 && best_delim != 0x60 && best_delim != 0x0a),
                kd matches Some(dd) ==> best_delim == dd || best_cnt == 0,
                best_cnt > 0 ==> (best_chr == 0x27 || best_chr == 0x22 || best_chr == 0x60),
                kd matches Some(dd) ==> (dd < 128 && dd != 0x27 && dd != 0x22 && dd != 0x60),
            decreases ncand - ci,
        {
            let chr = cands[ci];
            let pair: (u128, u8) = match self.delimiter {
                Some(dd) => {
                    let mut cnt: u128 = 0;
                    let mut j: usize = 0;
                    while j < n_lines
                        invariant
                            j <= n_lines,
                            n_lines == lines@.len(),
                            lviews == string_views(lines@),
                            *self == *old(self),
                            chr == 0x27 || chr == 0x22 || chr == 0x60,
                            cnt as int == known_count(lviews.take(j as int), chr, dd),
                            cnt <= (j as int) * 0xffff_ffff_ffff_ffffu128,
                        decreases n_lines - j,
                    {
                        let c = quote_match_count(lines[j].as_str(), chr, dd);
                        proof {
                            assert(lviews[j as int] == lines@[j as int]@);
                            assert(lviews.take(j + 1).drop_last() =~= lviews.take(j as int));
                            assert(lviews.take(j + 1).last() == lviews[j as int]);
                            assert(c <= 0xffff_ffff_ffff_ffffu128);
                        }
                        cnt = cnt + (c as u128);
                        j += 1;
                    }
                    proof {
                        assert(lviews.take(n_lines as int) =~= lviews);
                    }
                    (cnt, dd)
                },
                None => {
                    let mut cnt: u128 = 0;
                    let mut keys: Vec<Vec<u8>> = Vec::new();
                    let mut counts: Vec<u128> = Vec::new();
                    let ghost mut flat: Seq<Seq<u8>> = Seq::empty();
                    proof {
                        assert(caps_of_lines(lviews.take(0), chr) =~= Seq::<Seq<u8>>::empty());
                        assert(tally_of(flat) =~= Seq::<(Seq<u8>, int)>::empty());
                    }
                    let mut j: usize = 0;
                    while j < n_lines
                        invariant
                            j <= n_lines,
                            n_lines == lines@.len(),
                            lviews == string_views(lines@),
                            *self == *old(self),
                            chr == 0x27 || chr == 0x22 || chr == 0x60,
                            flat == caps_of_lines(lviews.take(j as int), chr),
                            cnt as int == flat.len(),
                            cnt <= (j as int) * 0xffff_ffff_ffff_ffffu128,
                            keys@.len() == tally_of(flat).len(),
                            counts@.len() == tally_of(flat).len(),
                            forall|x: int|
                                0 <= x < keys@.len() ==> (#[trigger] keys@[x])@ == tally_of(
                                    flat,
                                )[x].0,
                            forall|x: int|
                                0 <= x < counts@.len() ==> (#[trigger] counts@[x]) as int
                                    == tally_of(flat)[x].1,
                            forall|x: int|
                                0 <= x < keys@.len() ==> cap_ok((#[trigger] keys@[x])@),
                        decreases n_lines - j,
                    {
                        let caps = quote_captures(lines[j].as_str(), chr);
                        proof {
                            assert(lviews[j as int] == lines@[j as int]@);
                        }
                        let m = caps.len();
                        let ghost caps_v = crate::sample::byte_lines(caps@);
                        let mut k: usize = 0;
                        while k < m
                            invariant
                                k <= m,
                                m == caps@.len(),
                                caps_v == crate::sample::byte_lines(caps@),
                                caps_v == quote_caps_of(lviews[j as int], chr),
                                j < n_lines,
                                n_lines == lines@.len(),
                                lviews == string_views(lines@),
                                *self == *old(self),
                                caps_v.len() <= 0xffff_ffff_ffff_ffffu128,
                                forall|x: int|
                                    0 <= x < m ==> cap_ok((#[trigger] caps@[x])@),
                                flat == caps_of_lines(lviews.take(j as int), chr) + caps_v.take(
                                    k as int,
                                ),
                                cnt as int == flat.len(),
                                cnt <= (j as int) * 0xffff_ffff_ffff_ffffu128 + k,
                                keys@.len() == tally_of(flat).len(),
                                counts@.len() == tally_of(flat).len(),
                                forall|x: int|
                                    0 <= x < keys@.len() ==> (#[trigger] keys@[x])@ == tally_of(
                                        flat,
                                    )[x].0,
                                forall|x: int|
                                    0 <= x < counts@.len() ==> (#[trigger] counts@[x]) as int
                                        == tally_of(flat)[x].1,
                                forall|x: int|
                                    0 <= x < keys@.len() ==> cap_ok((#[trigger] keys@[x])@),
                            decreases m - k,
                        {
                            let cap = &caps[k];
                            proof {
                                assert(caps_v[k as int] == cap@);
                                lemma_tally_bound(flat);
                            }
                            let ghost flat2 = flat.push(cap@);
                            proof {
                                assert(flat2.drop_last() =~= flat);
                                assert(tally_of(flat2) == bump(tally_of(flat), cap@));
                                lemma_fk_bounds(tally_of(flat), cap@, 0);
                            }
                            let idx = find_key_exec(&keys, cap);
                            proof {
                                assert forall|y: int| 0 <= y < idx implies (#[trigger] tally_of(
                                    flat,
                                )[y]).0 != cap@ by {
                                    assert(keys@[y]@ == tally_of(flat)[y].0);
                                    assert(keys@[y]@ != cap@);
                                }
                                if idx < keys@.len() {
                                    assert(tally_of(flat)[idx as int].0 == cap@);
                                }
                                lemma_fk_is(tally_of(flat), cap@, 0, idx as int);
                            }
                            if idx < counts.len() {
                                let cur = counts[idx];
                                counts[idx] = cur + 1;
                                proof {
                                    assert(tally_of(flat2) == tally_of(flat).update(
                                        idx as int,
                                        (cap@, tally_of(flat)[idx as int].1 + 1),
                                    ));
                                }
                            } else {
                                let owned = crate::sample::subvec(cap, 0, cap.len());
                                keys.push(owned);
                                counts.push(1);
                                proof {
                                    assert(tally_of(flat2) == tally_of(flat).push((cap@, 1)));
                                }
                            }
                            proof {
                                flat = flat2;
                                assert(flat =~= caps_of_lines(lviews.take(j as int), chr)
                                    + caps_v.take(k + 1));
                            }
                            cnt = cnt + 1;
                            k += 1;
                        }
                        proof {
                            assert(caps_v.take(m as int) =~= caps_v);
                            assert(lviews.take(j + 1).drop_last() =~= lviews.take(j as int));
                            assert(lviews.take(j + 1).last() == lviews[j as int]);
                            assert(caps_of_lines(lviews.take(j + 1), chr) =~= caps_of_lines(
                                lviews.take(j as int),
                                chr,
                            ) + caps_v);
                            flat = caps_of_lines(lviews.take(j + 1), chr);
                            assert(flat =~= caps_of_lines(lviews.take(j as int), chr) + caps_v);
                        }
                        j += 1;
                    }
                    proof {
                        assert(lviews.take(n_lines as int) =~= lviews);
                    }
                    // modal capture over the tally: greatest count, first
                    // appearance winning ties
                    let ghost tfull = tally_of(flat);
                    let mut mcount: u128 = 0;
                    let mut midx: usize = 0;
                    let nk2 = keys.len();
                    let mut x: usize = 0;
                    proof {
                        assert(tfull.take(0) =~= Seq::<(Seq<u8>, int)>::empty());
                    }
                    while x < nk2
                        invariant
                            x <= nk2,
                            nk2 == keys@.len(),
                            nk2 == counts@.len(),
                            nk2 == tfull.len(),
                            tfull == tally_of(flat),
                            *self == *old(self),
                            lviews == string_views(lines@),
                            forall|y: int|
                                0 <= y < nk2 ==> (#[trigger] keys@[y])@ == tfull[y].0,
                            forall|y: int|
                                0 <= y < nk2 ==> (#[trigger] counts@[y]) as int == tfull[y].1,
                            forall|y: int| 0 <= y < nk2 ==> cap_ok((#[trigger] keys@[y])@),
                            mcount as int == modal_from(tfull.take(x as int)).0,
                            mcount > 0 ==> midx < nk2 && keys@[midx as int]@ == modal_from(
                                tfull.take(x as int),
                            ).1,
                            mcount == 0 ==> modal_from(tfull.take(x as int)).1
                                == Seq::<u8>::empty(),
                        decreases nk2 - x,
                    {
                        proof {
                            assert(tfull.take(x + 1).drop_last() =~= tfull.take(x as int));
                            assert(tfull.take(x + 1).last() == tfull[x as int]);
                        }
                        let cx = counts[x];
                        if cx > mcount {
                            mcount = cx;
                            midx = x;
                        }
                        x += 1;
                    }
                    proof {
                        assert(tfull.take(nk2 as int) =~= tfull);
                        if cnt > 0 {
                            lemma_tally_bound(flat);
                            assert(flat.len() > 0);
                            lemma_bump_len(tally_of(flat.drop_last()), flat.last());
                            assert(tfull.len() > 0);
                            lemma_modal_pos(tfull);
                        }
                    }
                    if cnt == 0 {
                        (0u128, 0u8)
                    } else if keys[midx].len() != 1 {
                        proof {
                            assert(modal_from(tfull).1.len() != 1);
                            assert(qc_err(lviews, chr, kd));
                            assert(cands@[ci as int] == chr);
                            assert(scan_err(lviews, kd, cands@));
                        }
                        return Err(
                            SnifferError::SniffingFailed(
                                "invalid regex match: no delimiter found".to_owned(),
                            ),
                        );
                    } else {
                        let mbyte = keys[midx][0];
                        proof {
                            assert(cap_ok(keys@[midx as int]@));
                            assert(mbyte == modal_from(tfull).1[0]);
                        }
                        (cnt, mbyte)
                    }
                },
            };
            let (cnt, got_delim) = pair;
            proof {
                assert(!qc_err(lviews, chr, kd));
                assert(cnt as int == qc_count(lviews, chr, kd));
                if cnt > 0 {
                    assert(got_delim == qc_delim(lviews, chr, kd));
                }
            }
            if cnt > 0 && cnt > best_cnt {
                best_chr = chr;
                best_cnt = cnt;
                best_delim = got_delim;
            }
            proof {
                assert((best_chr, best_cnt as int, best_delim) == cand_acc(
                    lviews,
                    kd,
                    cands@,
                    ci + 1,
                ));
            }
            ci += 1;
        }
        if best_cnt == 0 {
            self.quote = Some(Quote::Disabled);
        } else {
            self.quote = Some(Quote::Enabled(best_chr));
            self.delimiter = Some(best_delim);
        }
        Ok(())
    }

    /// Build one chain per ASCII byte, each observing the per-line counts
    /// of its byte, and hand them to the chain scan.
    pub fn infer_delim_preamble(&mut self, lines: &Vec<String>) -> (r: Result<(), SnifferError>)
        ensures
            ({
                let sel = best_sel(ascii_chains(string_views(lines@)));
                &&& (r is Err <==> sel.state == 2)
                &&& (r matches Err(e) ==> {
                    &&& e matches SnifferError::SniffingFailed(m) && m@
                        == "unable to find valid delimiter"@
                    &&& *final(self) == *old(self)
                })
                &&& (r is Ok ==> {
                    &&& 0 <= sel.winner < 128
                    &&& *final(self) == (Sniffer {
                        flexible: Some(sel.state == 1),
                        delimiter: if old(self).delimiter is Some {
                            old(self).delimiter
                        } else {
                            Some(sel.delim as u8)
                        },
                        delimiter_freq: Some(sel.freq as usize),
                        num_preamble_rows: Some(
                            preamble_of(
                                ascii_chains(string_views(lines@))[sel.winner],
                                sel.state,
                            ) as usize,
                        ),
                        ..*old(self)
                    })
                })
            }),
    {
        let n_lines = lines.len();
        let ghost lviews = string_views(lines@);
        let ghost achains = ascii_chains(lviews);
        let mut chains: Vec<Chain> = Vec::new();
        let mut c: usize = 0;
        while c < 128
            invariant
                c <= 128,
                chains@.len() == c,
                forall|ci: int| 0 <= ci < c ==> (#[trigger] chains@[ci]).observations@.len() == 0,
            decreases 128 - c,
        {
            chains.push(Chain::new());
            c += 1;
        }
        proof {
            assert(forall|ci: int|
                0 <= ci < 128 ==> (#[trigger] chains@[ci]).observations@ =~= achains[ci].take(0));
        }
        let mut j: usize = 0;
        while j < n_lines
            invariant
                j <= n_lines,
                n_lines == lines@.len(),
                chains@.len() == 128,
                *self == *old(self),
                lviews == string_views(lines@),
                achains == ascii_chains(lviews),
                forall|ci: int|
                    0 <= ci < 128 ==> (#[trigger] chains@[ci]).observations@ == achains[ci].take(
                        j as int,
                    ),
            decreases n_lines - j,
        {
            let b = lines[j].as_str().as_bytes();
            proof {
                assert(lviews[j as int] == lines@[j as int]@);
                assert(b@ == line_bytes(lviews[j as int]));
            }
            let m = b.len();
            let mut freqs: Vec<usize> = Vec::new();
            let mut z: usize = 0;
            while z < 128
                invariant
                    z <= 128,
                    freqs@.len() == z,
                    forall|ci: int| 0 <= ci < z ==> (#[trigger] freqs@[ci]) == 0,
                decreases 128 - z,
            {
                freqs.push(0);
                z += 1;
            }
            proof {
                assert(b@.take(0) =~= Seq::<u8>::empty());
            }
            let mut k: usize = 0;
            while k < m
                invariant
                    k <= m,
                    m == b@.len(),
                    freqs@.len() == 128,
                    forall|ci: int|
                        0 <= ci < 128 ==> (#[trigger] freqs@[ci]) == count_byte(
                            b@.take(k as int),
                            ci as u8,
                        ) && freqs@[ci] <= k,
                decreases m - k,
            {
                let byte = b[k];
                proof {
                    lemma_count_byte_step(b@, k as int);
                }
                if byte < 128 {
                    let idx = byte as usize;
                    let cur = freqs[idx];
                    freqs[idx] = cur + 1;
                }
                k += 1;
            }
            proof {
                assert(b@.take(m as int) =~= b@);
            }
            let mut ci: usize = 0;
            while ci < 128
                invariant
                    ci <= 128,
                    chains@.len() == 128,
                    freqs@.len() == 128,
                    m == b@.len(),
                    b@ == line_bytes(lviews[j as int]),
                    j < n_lines,
                    n_lines == lines@.len(),
                    lviews == string_views(lines@),
                    achains == ascii_chains(lviews),
                    forall|x: int|
                        0 <= x < 128 ==> (#[trigger] freqs@[x]) == count_byte(b@, x as u8),
                    forall|x: int|
                        0 <= x < ci ==> (#[trigger] chains@[x]).observations@ == achains[x].take(
                            j + 1,
                        ),
                    forall|x: int|
                        ci <= x < 128 ==> (#[trigger] chains@[x]).observations@ == achains[x].take(
                            j as int,
                        ),
                decreases 128 - ci,
            {
                let f = freqs[ci];
                chains[ci].add_observation(f);
                proof {
                    assert(achains[ci as int] == ascii_chain(lviews, ci as int));
                    assert(achains[ci as int][j as int] == count_byte(
                        line_bytes(lviews[j as int]),
                        ci as u8,
                    ) as usize);
                    assert(achains[ci as int].take(j + 1) =~= achains[ci as int].take(
                        j as int,
                    ).push(achains[ci as int][j as int]));
                }
                ci += 1;
            }
            j += 1;
        }
        proof {
            assert(forall|ci: int|
                0 <= ci < 128 ==> achains[ci].take(n_lines as int) =~= achains[ci]);
            assert(chain_views(chains@) =~= achains);
        }
        self.run_chains(chains)
    }

    /// Build the single chain of a known delimiter: per line, the field
    /// boundaries under the quoted reader when a quote is known, or the
    /// raw delimiter count, and hand it to the chain scan.
    pub fn infer_preamble_known_delim(&mut self, lines: &Vec<String>) -> (r: Result<
        (),
        SnifferError,
    >)
        ensures
            ({
                let lviews = string_views(lines@);
                match (old(self).delimiter, old(self).quote) {
                    (Some(d), Some(qq)) => {
                        let qopt = match qq {
                            Quote::Enabled(q) => Some(q),
                            Quote::Disabled => None::<u8>,
                        };
                        let chains1 = seq![known_obs(lviews, d, qopt)];
                        let sel = best_sel(chains1);
                        let readable = match qopt {
                            Some(q) => quoted_ok(lviews, d, q),
                            None => true,
                        };
                        &&& (!readable ==> {
                            &&& r matches Err(e)
                            &&& (r matches Err(e) ==> e matches SnifferError::SniffingFailed(m)
                                && m@ == "failure to read quoted CSV record: output buffers full"@)
                            &&& *final(self) == *old(self)
                        })
                        &&& (readable ==> {
                            &&& (r is Err <==> sel.state == 2)
                            &&& (r matches Err(e) ==> {
                                &&& e matches SnifferError::SniffingFailed(m) && m@
                                    == "unable to find valid delimiter"@
                                &&& *final(self) == *old(self)
                            })
                            &&& (r is Ok ==> *final(self) == (Sniffer {
                                flexible: Some(sel.state == 1),
                                delimiter: old(self).delimiter,
                                delimiter_freq: Some(sel.freq as usize),
                                num_preamble_rows: Some(
                                    preamble_of(chains1[0], sel.state) as usize,
                                ),
                                ..*old(self)
                            }))
                        })
                    },
                    _ => {
                        &&& r is Err
                        &&& (r matches Err(e) ==> e matches SnifferError::SniffingFailed(m) && m@
                            == "infer_preamble_known_delim called without delimiter and quote"@)
                        &&& *final(self) == *old(self)
                    },
                }
            }),
    {
        let ghost lviews = string_views(lines@);
        let (d, qopt): (u8, Option<u8>) = match (self.delimiter, self.quote) {
            (Some(d), Some(Quote::Enabled(q))) => (d, Some(q)),
            (Some(d), Some(Quote::Disabled)) => (d, None),
            _ => {
                return Err(
                    SnifferError::SniffingFailed(
                        "infer_preamble_known_delim called without delimiter and quote".to_owned(),
                    ),
                );
            },
        };
        let ghost target = known_obs(lviews, d, qopt);
        let mut chain = Chain::new();
        let n_lines = lines.len();
        let mut j: usize = 0;
        while j < n_lines
            invariant
                j <= n_lines,
                n_lines == lines@.len(),
                lviews == string_views(lines@),
                target == known_obs(lviews, d, qopt),
                *self == *old(self),
                self.delimiter == Some(d),
                self.quote == Some(
                    match qopt {
                        Some(x) => Quote::Enabled(x),
                        None => Quote::Disabled,
                    },
                ),
                chain.observations@ == target.take(j as int),
                qopt matches Some(q) ==> forall|x: int|
                    0 <= x < j ==> quoted_ends_of(
                        line_bytes(#[trigger] lviews[x]),
                        d,
                        q,
                    ) is Some,
            decreases n_lines - j,
        {
            let b = lines[j].as_str().as_bytes();
            proof {
                assert(lviews[j as int] == lines@[j as int]@);
                assert(b@ == line_bytes(lviews[j as int]));
            }
            let ob: usize = match qopt {
                Some(q) => {
                    let ends = quoted_line_ends(b, d, q);
                    match ends {
                        Some(n_ends) => n_ends,
                        None => {
                            proof {
                                assert(lviews.len() == lines@.len());
                                assert(0 <= j < lviews.len());
                                assert(quoted_ends_of(line_bytes(lviews[j as int]), d, q) is None);
                                assert(!quoted_ok(lviews, d, q));
                            }
                            return Err(
                                SnifferError::SniffingFailed(
                                    "failure to read quoted CSV record: output buffers full".to_owned(),
                                ),
                            );
                        },
                    }
                },
                None => count_occurrences(b, d),
            };
            proof {
                assert(ob == known_ob(lviews[j as int], d, qopt)) by {
                    if qopt is None {
                        lemma_count_byte_bound(line_bytes(lviews[j as int]), d);
                    }
                }
                assert(target.take(j + 1) =~= target.take(j as int).push(target[j as int]));
            }
            chain.add_observation(ob);
            j += 1;
        }
        proof {
            assert(target.take(n_lines as int) =~= target);
            match qopt {
                Some(q) => {
                    assert(quoted_ok(lviews, d, q));
                },
                None => {},
            }
        }
        let mut chains: Vec<Chain> = Vec::new();
        chains.push(chain);
        proof {
            assert(chain_views(chains@) =~= seq![target]);
        }
        self.run_chains(chains)
    }

    /// Infer the column types and the header presence: parse the data past
    /// the preamble with the decided dialect, guess each field of the first
    /// record, intersect the guesses of the following records columnwise
    /// within the sample budget, and declare a header when some column's
    /// data constrains the first row out.
    pub fn infer_types(&mut self, data: &Vec<u8>) -> (r: Result<(), SnifferError>)
        requires
            old(self).delimiter_freq matches Some(f) ==> f < usize::MAX,
        ensures
            ({
                let dd = old(self).delimiter.unwrap_or(44);
                let qq = (match old(self).quote {
                    Some(Quote::Enabled(q)) => Some(q),
                    Some(Quote::Disabled) => None::<u8>,
                    None => Some(34u8),
                });
                let ff = old(self).flexible.unwrap_or(false);
                let k = old(self).num_preamble_rows.unwrap_or(0);
                let off = crate::snip::skip_lines(data@, k as nat, 0);
                let parsed = csv_records_of(data@.skip(off), dd, qq, ff);
                let recs = parsed.0;
                let haserr = parsed.1;
                let size = old(self).sample_size.unwrap_or(SampleSize::Bytes(16384));
                match old(self).delimiter_freq {
                    None => {
                        &&& r is Err
                        &&& (r matches Err(e) ==> e matches SnifferError::SniffingFailed(m) && m@
                            == "delimiter frequency not known"@)
                        &&& *final(self) == *old(self)
                    },
                    Some(freq) => {
                        let fc = freq + 1;
                        &&& (recs.len() == 0 ==> {
                            &&& *final(self) == *old(self)
                            &&& r is Err
                            &&& (haserr ==> (r matches Err(e) ==> e is Csv))
                            &&& (!haserr ==> (r matches Err(e) ==> e matches
                                SnifferError::SniffingFailed(m) && m@
                                == "CSV empty (after preamble)"@))
                        })
                        &&& (recs.len() > 0 ==> {
                            let scan = scan_recs(recs, size, 1, lossy_size(recs[0]), 1);
                            &&& (!scan.0 && haserr ==> {
                                &&& r is Err
                                &&& (r matches Err(e) ==> e is Csv)
                                &&& *final(self) == *old(self)
                            })
                            &&& (scan.0 || !haserr ==> {
                                &&& r is Ok
                                &&& final(self).types@.len() == fc
                                &&& final(self).has_header_row is Some
                                &&& (scan.2 == 1 ==> final(self).has_header_row == Some(false))
                                &&& (scan.2 == 1 ==> exists|gs: Seq<crate::field_type::TypeGuesses>|
                                    {
                                        &&& #[trigger] gs.len() == fc
                                        &&& (forall|y: int|
                                            0 <= y < fc ==> guess_ok(
                                                #[trigger] gs[y],
                                                if y < recs[0].len() {
                                                    line_bytes(
                                                        crate::sample::lossy_decode(recs[0][y]),
                                                    )
                                                } else {
                                                    Seq::empty()
                                                },
                                            ))
                                        &&& (forall|y: int|
                                            0 <= y < fc ==> final(self).types@[y] == (
                                            #[trigger] gs[y]).spec_best())
                                    })
                                &&& final(self).avg_record_len == Some(
                                    clamp_usize(scan.1 / scan.2) as usize,
                                )
                                &&& (scan.2 > 1 ==> exists|
                                    hdr: Seq<crate::field_type::TypeGuesses>,
                                    gm: Seq<Seq<crate::field_type::TypeGuesses>>,
                                |
                                    #![trigger hdr.len(), gm.len()]
                                    {
                                        &&& hdr.len() == fc
                                        &&& gm.len() == scan.2 - 1
                                        &&& (forall|y: int|
                                            0 <= y < fc ==> guess_ok(
                                                #[trigger] hdr[y],
                                                if y < recs[0].len() {
                                                    line_bytes(
                                                        crate::sample::lossy_decode(recs[0][y]),
                                                    )
                                                } else {
                                                    Seq::empty()
                                                },
                                            ))
                                        &&& (forall|rr: int|
                                            0 <= rr < gm.len() ==> (#[trigger] gm[rr]).len() == (
                                            if recs[1 + rr].len() < fc {
                                                recs[1 + rr].len() as int
                                            } else {
                                                fc
                                            }))
                                        &&& (forall|rr: int, y: int|
                                            0 <= rr < gm.len() && 0 <= y < gm[rr].len()
                                                ==> guess_ok(
                                                #[trigger] gm[rr][y],
                                                line_bytes(
                                                    crate::sample::lossy_decode(recs[1 + rr][y]),
                                                ),
                                            ))
                                        &&& final(self).has_header_row == Some(
                                            exists|y: int|
                                                0 <= y < fc && !(#[trigger] col_fold(
                                                    gm,
                                                    y,
                                                )).spec_allows(hdr[y]),
                                        )
                                        &&& (forall|y: int|
                                            0 <= y < fc ==> final(self).types@[y] == (
                                            #[trigger] col_fold(gm, y)).spec_best())
                                    })
                                &&& (final(self).has_header_row == Some(true) ==> {
                                    &&& final(self).fields@.len() == fc
                                    &&& forall|y: int|
                                        0 <= y < fc ==> (#[trigger] final(self).fields@[y])@
                                            == (if y < recs[0].len() {
                                            crate::sample::lossy_decode(recs[0][y])
                                        } else {
                                            Seq::empty()
                                        })
                                })
                                &&& (final(self).has_header_row == Some(false)
                                    ==> final(self).fields@.len() == 0)
                                &&& *final(self) == (Sniffer {
                                    has_header_row: final(self).has_header_row,
                                    fields: final(self).fields,
                                    types: final(self).types,
                                    avg_record_len: final(self).avg_record_len,
                                    ..*old(self)
                                })
                            })
                        })
                    },
                }
            }),
    {
        let freq = match self.delimiter_freq {
            Some(f) => f,
            None => {
                return Err(SnifferError::SniffingFailed("delimiter frequency not known".to_owned()));
            },
        };
        let field_count = freq + 1;
        let k = match self.num_preamble_rows {
            Some(kk) => kk,
            None => 0,
        };
        let off = crate::snip::preamble_skipcount(data, k);
        let tail = vstd::slice::slice_subrange(data.as_slice(), off, data.len());
        proof {
            assert(tail@ =~= data@.skip(crate::snip::skip_lines(data@, k as nat, 0)));
        }
        let dd = match self.delimiter {
            Some(d) => d,
            None => 44,
        };
        let qq: Option<u8> = match self.quote {
            Some(Quote::Enabled(q)) => Some(q),
            Some(Quote::Disabled) => None,
            None => Some(34),
        };
        let ff = match self.flexible {
            Some(f2) => f2,
            None => false,
        };
        let size = self.get_sample_size();
        let pref = self.get_date_preference();
        let (records, errv) = csv_read_records(tail, dd, qq, ff);
        let ghost recs = record_views(records@);
        let nav = records.len();
        if nav == 0 {
            match errv {
                Some(e) => {
                    return Err(SnifferError::Csv(e));
                },
                None => {
                    return Err(
                        SnifferError::SniffingFailed("CSV empty (after preamble)".to_owned()),
                    );
                },
            }
        }
        // guesses and decoded size of the first record
        let first: &Vec<Vec<u8>> = &records[0];
        let fl = first.len();
        proof {
            assert(recs[0] == crate::sample::byte_lines(first@));
            assert(lossy_size(crate::sample::byte_lines(first@).take(0)) == 0) by {
                assert(crate::sample::byte_lines(first@).take(0) =~= Seq::<Seq<u8>>::empty());
            }
        }
        let mut header_row_types: Vec<crate::field_type::TypeGuesses> = Vec::new();
        let mut first_sz: u128 = 0;
        let mut i: usize = 0;
        while i < fl
            invariant
                i <= fl,
                fl == first@.len(),
                *self == *old(self),
                recs[0] == crate::sample::byte_lines(first@),
                first_sz as int == lossy_size(crate::sample::byte_lines(first@).take(i as int)),
                header_row_types@.len() == (if i < field_count {
                    i as int
                } else {
                    field_count as int
                }),
                forall|y: int|
                    0 <= y < header_row_types@.len() ==> guess_ok(
                        #[trigger] header_row_types@[y],
                        line_bytes(crate::sample::lossy_decode(recs[0][y])),
                    ),
            decreases fl - i,
        {
            let gp = field_guess(&first[i], pref);
            if i < field_count {
                header_row_types.push(gp.0);
            }
            proof {
                let bl = crate::sample::byte_lines(first@);
                assert(bl.take(i + 1).drop_last() =~= bl.take(i as int));
                assert(bl.take(i + 1).last() == bl[i as int]);
                assert(bl[i as int] == first@[i as int]@);
            }
            first_sz = sat_add_u128(first_sz, gp.1 as u128);
            i += 1;
        }
        proof {
            assert(crate::sample::byte_lines(first@).take(fl as int) =~= crate::sample::byte_lines(
                first@,
            ));
        }
        while header_row_types.len() < field_count
            invariant
                *self == *old(self),
                recs[0] == crate::sample::byte_lines(first@),
                fl == first@.len(),
                header_row_types@.len() <= field_count,
                header_row_types@.len() >= (if fl < field_count {
                    fl as int
                } else {
                    field_count as int
                }),
                forall|y: int|
                    0 <= y < header_row_types@.len() ==> (y < fl ==> guess_ok(
                        #[trigger] header_row_types@[y],
                        line_bytes(crate::sample::lossy_decode(recs[0][y])),
                    )) && (y >= fl ==> header_row_types@[y]
                        == crate::field_type::TypeGuesses::spec_all()),
            decreases field_count - header_row_types.len(),
        {
            header_row_types.push(crate::field_type::TypeGuesses::all());
        }
        let mut row_types: Vec<crate::field_type::TypeGuesses> = Vec::new();
        while row_types.len() < field_count
            invariant
                *self == *old(self),
                row_types@.len() <= field_count,
                forall|y: int|
                    0 <= y < row_types@.len() ==> #[trigger] row_types@[y]
                        == crate::field_type::TypeGuesses::spec_all(),
            decreases field_count - row_types.len(),
        {
            row_types.push(crate::field_type::TypeGuesses::all());
        }
        // walk the remaining records within the budget
        let ghost scan = scan_recs(recs, size, 1, lossy_size(recs[0]), 1);
        let ghost mut gmat: Seq<Seq<crate::field_type::TypeGuesses>> = Seq::empty();
        let mut n_bytes: u128 = first_sz;
        let mut n_records_u: usize = 1;
        let mut broke = false;
        let mut ridx: usize = 1;
        proof {
            assert(forall|y: int|
                0 <= y < field_count ==> #[trigger] col_fold(gmat, y)
                    == crate::field_type::TypeGuesses::spec_all());
        }
        while ridx < nav && !broke
            invariant
                1 <= ridx <= nav,
                nav == recs.len(),
                nav == records@.len(),
                recs == record_views(records@),
                *self == *old(self),
                scan == scan_recs(recs, size, 1, lossy_size(recs[0]), 1),
                row_types@.len() == field_count,
                gmat.len() == n_records_u - 1,
                forall|rr: int|
                    0 <= rr < gmat.len() ==> (#[trigger] gmat[rr]).len() == (if recs[1
                        + rr].len() < field_count {
                        recs[1 + rr].len() as int
                    } else {
                        field_count as int
                    }),
                forall|rr: int, y: int|
                    0 <= rr < gmat.len() && 0 <= y < gmat[rr].len() ==> guess_ok(
                        #[trigger] gmat[rr][y],
                        line_bytes(crate::sample::lossy_decode(recs[1 + rr][y])),
                    ),
                forall|y: int|
                    0 <= y < field_count ==> #[trigger] row_types@[y] == col_fold(gmat, y),
                !broke ==> n_records_u == ridx,
                !broke ==> scan == scan_recs(
                    recs,
                    size,
                    ridx as int,
                    n_bytes as int,
                    n_records_u as int,
                ),
                broke ==> scan == (true, n_bytes as int, n_records_u as int),
                broke ==> n_records_u >= 2,
                n_records_u >= 1,
            decreases nav - ridx + if broke {
                0int
            } else {
                1int
            },
        {
            let rec: &Vec<Vec<u8>> = &records[ridx];
            let rl = rec.len();
            proof {
                assert(recs[ridx as int] == crate::sample::byte_lines(rec@));
            }
            let lim = if rl < field_count {
                rl
            } else {
                field_count
            };
            let ghost mut cur_row: Seq<crate::field_type::TypeGuesses> = Seq::empty();
            let ghost pre_rows = row_types@;
            let mut fi: usize = 0;
            while fi < lim
                invariant
                    fi <= lim,
                    lim <= rl,
                    rl == rec@.len(),
                    *self == *old(self),
                    row_types@.len() == field_count,
                    lim <= field_count,
                    recs[ridx as int] == crate::sample::byte_lines(rec@),
                    ridx < recs.len(),
                    cur_row.len() == fi,
                    forall|k: int|
                        0 <= k < fi ==> guess_ok(
                            #[trigger] cur_row[k],
                            line_bytes(crate::sample::lossy_decode(recs[ridx as int][k])),
                        ),
                    forall|k: int|
                        0 <= k < fi ==> #[trigger] row_types@[k] == pre_rows[k].spec_intersect(
                            cur_row[k],
                        ),
                    forall|k: int| fi <= k < field_count ==> #[trigger] row_types@[k] == pre_rows[k],
                decreases lim - fi,
            {
                let gp = field_guess(&rec[fi], pref);
                let cur = row_types[fi];
                row_types[fi] = cur.intersect(gp.0);
                proof {
                    assert(rec@[fi as int]@ == recs[ridx as int][fi as int]);
                    cur_row = cur_row.push(gp.0);
                }
                fi += 1;
            }
            proof {
                let prev_gmat = gmat;
                gmat = gmat.push(cur_row);
                assert(gmat.drop_last() =~= prev_gmat);
                assert(gmat.last() == cur_row);
                assert forall|y: int| 0 <= y < field_count implies #[trigger] row_types@[y]
                    == col_fold(gmat, y) by {
                    if y < lim {
                        assert(row_types@[y] == pre_rows[y].spec_intersect(cur_row[y]));
                        assert(pre_rows[y] == col_fold(prev_gmat, y));
                    } else {
                        assert(row_types@[y] == pre_rows[y]);
                    }
                }
            }
            let mut rsz: u128 = 0;
            let mut f2: usize = 0;
            proof {
                assert(crate::sample::byte_lines(rec@).take(0) =~= Seq::<Seq<u8>>::empty());
            }
            while f2 < rl
                invariant
                    f2 <= rl,
                    rl == rec@.len(),
                    *self == *old(self),
                    rsz as int == rec_size(crate::sample::byte_lines(rec@).take(f2 as int)),
                    rsz <= (f2 as int) * 0xffff_ffff_ffff_ffffu128,
                decreases rl - f2,
            {
                proof {
                    let bl = crate::sample::byte_lines(rec@);
                    assert(bl.take(f2 + 1).drop_last() =~= bl.take(f2 as int));
                    assert(bl.take(f2 + 1).last() == bl[f2 as int]);
                    assert(bl[f2 as int] == rec@[f2 as int]@);
                }
                rsz = rsz + (rec[f2].len() as u128);
                f2 += 1;
            }
            proof {
                assert(crate::sample::byte_lines(rec@).take(rl as int) =~= crate::sample::byte_lines(
                    rec@,
                ));
            }
            n_bytes = sat_add_u128(n_bytes, rsz);
            n_records_u += 1;
            let over = match size {
                SampleSize::Records(rr) => n_records_u > rr,
                SampleSize::Bytes(bb) => n_bytes > (bb as u128),
                SampleSize::All => false,
            };
            proof {
                assert(over == crate::sample::over_budget(
                    size,
                    n_bytes as int,
                    n_records_u as int,
                ));
            }
            if over {
                broke = true;
            } else {
                ridx += 1;
            }
        }
        if !broke {
            match errv {
                Some(e) => {
                    return Err(SnifferError::Csv(e));
                },
                None => {},
            }
        }
        proof {
            if !broke {
                assert(scan == (false, n_bytes as int, n_records_u as int));
            }
            assert(scan.1 == n_bytes as int && scan.2 == n_records_u as int);
        }
        if n_records_u == 1 {
            self.has_header_row = Some(false);
            self.fields = Vec::new();
            let ghost hdr_guesses = header_row_types@;
            self.types = crate::field_type::get_best_types(&header_row_types);
            proof {
                assert(hdr_guesses.len() == field_count);
                assert(forall|y: int|
                    0 <= y < field_count ==> guess_ok(
                        #[trigger] hdr_guesses[y],
                        if y < recs[0].len() {
                            line_bytes(crate::sample::lossy_decode(recs[0][y]))
                        } else {
                            Seq::empty()
                        },
                    )) by {
                    assert(forall|y: int|
                        0 <= y < field_count && y >= first@.len() ==> #[trigger] hdr_guesses[y]
                            == crate::field_type::TypeGuesses::spec_all());
                    assert(forall|y: int|
                        0 <= y < field_count && y >= first@.len() ==> guess_ok(
                            #[trigger] hdr_guesses[y],
                            Seq::empty(),
                        ));
                }
            }
            let avg = clamp_to_usize(n_bytes);
            self.avg_record_len = Some(avg);
            proof {
                assert(scan.1 / scan.2 == scan.1) by {
                    assert(scan.2 == 1);
                    vstd::arithmetic::div_mod::lemma_div_basics(scan.1);
                }
            }
            return Ok(());
        }
        let ghost hdr_guesses = header_row_types@;
        let mut has_header = false;
        let mut hi: usize = 0;
        while hi < field_count
            invariant
                hi <= field_count,
                *self == *old(self),
                row_types@.len() == field_count,
                header_row_types@.len() == field_count,
                hdr_guesses == header_row_types@,
                forall|y: int|
                    0 <= y < field_count ==> #[trigger] row_types@[y] == col_fold(gmat, y),
                has_header == exists|y: int|
                    0 <= y < hi && !(#[trigger] col_fold(gmat, y)).spec_allows(hdr_guesses[y]),
            decreases field_count - hi,
        {
            if !row_types[hi].allows(header_row_types[hi]) {
                has_header = true;
                proof {
                    assert(!(col_fold(gmat, hi as int)).spec_allows(hdr_guesses[hi as int]));
                }
            }
            hi += 1;
        }
        self.has_header_row = Some(has_header);
        proof {
            assert(has_header == exists|y: int|
                0 <= y < field_count && !(#[trigger] col_fold(gmat, y)).spec_allows(
                    hdr_guesses[y],
                ));
        }
        if has_header {
            let mut fields: Vec<String> = Vec::new();
            let mut x: usize = 0;
            while x < field_count
                invariant
                    x <= field_count,
                    fl == first@.len(),
                    recs[0] == crate::sample::byte_lines(first@),
                    fields@.len() == x,
                    self.has_header_row == Some(true),
                    self.fields == old(self).fields,
                    self.types == old(self).types,
                    self.avg_record_len == old(self).avg_record_len,
                    *self == (Sniffer { has_header_row: Some(true), ..*old(self) }),
                    forall|y: int|
                        0 <= y < x ==> (#[trigger] fields@[y])@ == (if y < fl {
                            crate::sample::lossy_decode(recs[0][y])
                        } else {
                            Seq::<char>::empty()
                        }),
                decreases field_count - x,
            {
                if x < fl {
                    fields.push(crate::sample::lossy_string(first[x].as_slice()));
                } else {
                    fields.push(String::new());
                }
                x += 1;
            }
            self.fields = fields;
        } else {
            self.fields = Vec::new();
        }
        self.types = crate::field_type::get_best_types(&row_types);
        let q2 = n_bytes / (n_records_u as u128);
        let avg = clamp_to_usize(q2);
        self.avg_record_len = Some(avg);
        proof {
            assert(hdr_guesses.len() == field_count);
            assert(forall|y: int|
                0 <= y < field_count ==> guess_ok(
                    #[trigger] hdr_guesses[y],
                    if y < recs[0].len() {
                        line_bytes(crate::sample::lossy_decode(recs[0][y]))
                    } else {
                        Seq::empty()
                    },
                )) by {
                assert(forall|y: int|
                    0 <= y < field_count && y >= first@.len() ==> #[trigger] hdr_guesses[y]
                        == crate::field_type::TypeGuesses::spec_all());
                assert(forall|y: int|
                    0 <= y < field_count && y >= first@.len() ==> guess_ok(
                        #[trigger] hdr_guesses[y],
                        Seq::empty(),
                    ));
            }
            assert(gmat.len() == n_records_u - 1);
        }
        Ok(())
    }

    /// Examine CSV data and return everything inferred about it: the
    /// dialect (delimiter, quote, preamble, header, flexibility, UTF-8
    /// cleanliness) and the per-column types. The run fails exactly when
    /// the pipeline plan over the decoded sample says so, and otherwise
    /// returns the dialect facts that plan settles; the returned record is
    /// well-formed: one type per field, labels exactly when a header row
    /// was found, an ASCII delimiter apart from the quote.
    #[verifier::rlimit(100)]
    #[verifier::spinoff_prover]
    pub fn sniff_bytes(&mut self, data: &Vec<u8>) -> (r: Result<Metadata, SnifferError>)
        requires
            old(self).wf_config(),
        ensures
            r matches Ok(m) ==> {
                &&& m.wf()
                &&& final(self).delimiter_freq matches Some(f) && m.num_fields == f + 1
                &&& m.dialect.is_utf8 == crate::sample::spec_utf8(
                    data@,
                    old(self).sample_size.unwrap_or(SampleSize::Bytes(16384)),
                    0,
                    0,
                    0,
                )
                &&& (old(self).delimiter matches Some(d) ==> m.dialect.delimiter == d)
                &&& m.types@ == final(self).types@
                &&& m.fields@.len() == final(self).fields@.len()
                &&& (forall|i: int|
                    0 <= i < m.fields@.len() ==> (#[trigger] m.fields@[i])@
                        == final(self).fields@[i]@)
                &&& m.dialect.header.num_preamble_rows == final(self).num_preamble_rows->0
                &&& m.avg_record_len == final(self).avg_record_len->0
            },
            ({
                let size = old(self).sample_size.unwrap_or(SampleSize::Bytes(16384));
                let lviews = decoded_lines(data@, size);
                let plan = sniff_plan(*old(self), lviews, data@, size);
                &&& (r is Ok <==> plan is Go)
                &&& (plan is FailQuote ==> (r matches Err(e) ==> e matches
                    SnifferError::SniffingFailed(m) && m@
                    == "invalid regex match: no delimiter found"@))
                &&& (plan is FailQuoted ==> (r matches Err(e) ==> e matches
                    SnifferError::SniffingFailed(m) && m@
                    == "failure to read quoted CSV record: output buffers full"@))
                &&& (plan is FailDelimiter ==> (r matches Err(e) ==> e matches
                    SnifferError::SniffingFailed(m) && m@ == "unable to find valid delimiter"@))
                &&& (plan is FailWide ==> (r matches Err(e) ==> e matches
                    SnifferError::SniffingFailed(m) && m@ == "Failed to infer all metadata"@))
                &&& (plan is FailEmpty ==> (r matches Err(e) ==> e matches
                    SnifferError::SniffingFailed(m) && m@ == "CSV empty (after preamble)"@))
                &&& (plan is FailCsv ==> (r matches Err(e) ==> e is Csv))
                &&& (match (plan, r) {
                    (SniffPlan::Go { delimiter, quote, flexible, preamble, freq }, Ok(m)) => {
                        let fc = freq + 1;
                        let off = crate::snip::skip_lines(data@, preamble as nat, 0);
                        let parsed = csv_records_of(
                            data@.skip(off),
                            delimiter,
                            quote_byte(quote),
                            flexible,
                        );
                        let recs = parsed.0;
                        let scan = scan_recs(recs, size, 1, lossy_size(recs[0]), 1);
                        &&& m.dialect.delimiter == delimiter
                        &&& m.dialect.quote == quote
                        &&& m.dialect.flexible == flexible
                        &&& m.dialect.header.num_preamble_rows == preamble
                        &&& m.num_fields == fc
                        &&& m.types@.len() == fc
                        &&& m.avg_record_len == clamp_usize(scan.1 / scan.2) as usize
                        &&& (scan.2 == 1 ==> !m.dialect.header.has_header_row)
                        &&& (m.dialect.header.has_header_row ==> {
                            &&& m.fields@.len() == fc
                            &&& (forall|y: int|
                                0 <= y < fc ==> (#[trigger] m.fields@[y])@ == (if y
                                    < recs[0].len() {
                                    crate::sample::lossy_decode(recs[0][y])
                                } else {
                                    Seq::empty()
                                }))
                        })
                        &&& (!m.dialect.header.has_header_row ==> m.fields@.len() == 0)
                        &&& (scan.2 == 1 ==> exists|gs: Seq<crate::field_type::TypeGuesses>|
                            {
                                &&& #[trigger] gs.len() == fc
                                &&& (forall|y: int|
                                    0 <= y < fc ==> guess_ok(
                                        #[trigger] gs[y],
                                        if y < recs[0].len() {
                                            line_bytes(crate::sample::lossy_decode(recs[0][y]))
                                        } else {
                                            Seq::empty()
                                        },
                                    ))
                                &&& (forall|y: int|
                                    0 <= y < fc ==> m.types@[y] == (
                                    #[trigger] gs[y]).spec_best())
                            })
                        &&& (scan.2 > 1 ==> exists|
                            hdr: Seq<crate::field_type::TypeGuesses>,
                            gm: Seq<Seq<crate::field_type::TypeGuesses>>,
                        |
                            #![trigger hdr.len(), gm.len()]
                            {
                                &&& hdr.len() == fc
                                &&& gm.len() == scan.2 - 1
                                &&& (forall|y: int|
                                    0 <= y < fc ==> guess_ok(
                                        #[trigger] hdr[y],
                                        if y < recs[0].len() {
                                            line_bytes(crate::sample::lossy_decode(recs[0][y]))
                                        } else {
                                            Seq::empty()
                                        },
                                    ))
                                &&& (forall|rr: int|
                                    0 <= rr < gm.len() ==> (#[trigger] gm[rr]).len() == (if recs[1
                                        + rr].len() < fc {
                                        recs[1 + rr].len() as int
                                    } else {
                                        fc
                                    }))
                                &&& (forall|rr: int, y: int|
                                    0 <= rr < gm.len() && 0 <= y < gm[rr].len() ==> guess_ok(
                                        #[trigger] gm[rr][y],
                                        line_bytes(crate::sample::lossy_decode(recs[1 + rr][y])),
                                    ))
                                &&& m.dialect.header.has_header_row == exists|y: int|
                                    0 <= y < fc && !(#[trigger] col_fold(gm, y)).spec_allows(
                                        hdr[y],
                                    )
                                &&& (forall|y: int|
                                    0 <= y < fc ==> m.types@[y] == (#[trigger] col_fold(
                                        gm,
                                        y,
                                    )).spec_best())
                            })
                    },
                    _ => true,
                })
            }),
    {
        let size = self.get_sample_size();
        let (raw_lines, utf8_ok) = crate::sample::take_sample(data, size);
        let mut lines: Vec<String> = Vec::new();
        let nl = raw_lines.len();
        let mut j: usize = 0;
        while j < nl
            invariant
                j <= nl,
                nl == raw_lines@.len(),
                lines@.len() == j,
                *self == *old(self),
                crate::sample::byte_lines(raw_lines@) == crate::sample::spec_sample(
                    data@,
                    size,
                    0,
                    0,
                    0,
                ),
                size == old(self).sample_size.unwrap_or(SampleSize::Bytes(16384)),
                forall|k: int|
                    0 <= k < j ==> (#[trigger] lines@[k])@ == crate::sample::lossy_decode(
                        crate::sample::byte_lines(raw_lines@)[k],
                    ),
            decreases nl - j,
        {
            lines.push(crate::sample::lossy_string(raw_lines[j].as_slice()));
            proof {
                assert(crate::sample::byte_lines(raw_lines@)[j as int] == raw_lines@[j as int]@);
            }
            j += 1;
        }
        let ghost lviews = string_views(lines@);
        let ghost plan = sniff_plan(*old(self), lviews, data@, size);
        let ghost cands_g = (match old(self).quote {
            Some(Quote::Enabled(c)) => seq![c],
            _ => seq![0x27u8, 0x22u8, 0x60u8],
        });
        let ghost skip_quote_g = (old(self).quote is Some && old(self).delimiter is Some) || old(
            self,
        ).quote == Some(Quote::Disabled);
        proof {
            assert(lviews =~= decoded_lines(data@, size)) by {
                assert(decoded_lines(data@, size).len() == nl);
                assert(forall|k: int|
                    0 <= k < nl ==> #[trigger] lviews[k] == lines@[k]@);
                assert(forall|k: int|
                    0 <= k < nl ==> #[trigger] decoded_lines(data@, size)[k]
                        == crate::sample::lossy_decode(crate::sample::byte_lines(raw_lines@)[k]));
            }
        }
        match self.infer_quotes_delim(&lines) {
            Err(e) => {
                proof {
                    assert(!skip_quote_g);
                    assert(scan_err(lviews, old(self).delimiter, cands_g));
                    assert(plan is FailQuote);
                }
                return Err(e);
            },
            Ok(()) => {},
        }
        let ghost acc_g = cand_acc(lviews, old(self).delimiter, cands_g, cands_g.len() as int);
        let ghost q2_g: Quote = if skip_quote_g {
            old(self).quote->0
        } else if acc_g.1 == 0 {
            Quote::Disabled
        } else {
            Quote::Enabled(acc_g.0)
        };
        let ghost d2_g: Option<u8> = if skip_quote_g || acc_g.1 == 0 {
            old(self).delimiter
        } else {
            Some(acc_g.2)
        };
        proof {
            assert(self.wf_config());
            assert(!(plan is FailQuote));
            assert(self.quote == Some(q2_g));
            assert(self.delimiter == d2_g);
            assert(*self == (Sniffer { quote: Some(q2_g), delimiter: d2_g, ..*old(self) }));
            match old(self).delimiter {
                Some(d) => {
                    lemma_cand_acc_kd(lviews, d, cands_g, cands_g.len() as int);
                    assert(self.delimiter == Some(d));
                },
                None => {},
            }
        }
        let ghost chains_g = (match d2_g {
            Some(d) => seq![known_obs(lviews, d, quote_byte(q2_g))],
            None => ascii_chains(lviews),
        });
        let ghost sel_g = best_sel(chains_g);
        let ghost delim_g: u8 = (match d2_g {
            Some(d) => d,
            None => sel_g.delim as u8,
        });
        let ghost preamble_g: int = (match d2_g {
            Some(d) => preamble_of(chains_g[0], sel_g.state),
            None => preamble_of(chains_g[sel_g.winner], sel_g.state),
        });
        if self.delimiter.is_some() {
            match self.infer_preamble_known_delim(&lines) {
                Err(e) => {
                    proof {
                        if (match quote_byte(q2_g) {
                            Some(q) => !quoted_ok(lviews, d2_g->0, q),
                            None => false,
                        }) {
                            assert(plan is FailQuoted);
                        } else {
                            assert(sel_g.state == 2);
                            assert(plan is FailDelimiter);
                        }
                    }
                    return Err(e);
                },
                Ok(()) => {},
            }
            proof {
                crate::chain::lemma_sel_delim(chains_g, 0, init_acc());
                assert(sel_g.winner == 0);
                assert(preamble_g == preamble_of(chains_g[0], sel_g.state));
            }
        } else {
            match self.infer_delim_preamble(&lines) {
                Err(e) => {
                    proof {
                        assert(sel_g.state == 2);
                        assert(plan is FailDelimiter);
                    }
                    return Err(e);
                },
                Ok(()) => {},
            }
            proof {
                crate::chain::lemma_sel_delim(chains_g, 0, init_acc());
            }
        }
        proof {
            assert(sel_g.state != 2);
            assert(sel_g.winner >= 0);
            assert(sel_g.freq == crate::chain::max_obs(chains_g[sel_g.winner]));
            assert(chains_g[sel_g.winner].len() == lviews.len());
            crate::chain::lemma_preamble_bounds(
                (match d2_g {
                    Some(d) => chains_g[0],
                    None => chains_g[sel_g.winner],
                }),
                sel_g.state,
            );
            assert(0 <= preamble_g <= lviews.len());
            assert(lviews.len() == nl);
            assert(0 <= sel_g.freq <= usize::MAX);
            assert(*self == (Sniffer {
                quote: Some(q2_g),
                delimiter: Some(delim_g),
                flexible: Some(sel_g.state == 1),
                delimiter_freq: Some(sel_g.freq as usize),
                num_preamble_rows: Some(preamble_g as usize),
                ..*old(self)
            }));
        }
        let freq0 = match self.delimiter_freq {
            Some(f) => f,
            None => {
                return Err(SnifferError::SniffingFailed("Failed to infer all metadata".to_owned()));
            },
        };
        if freq0 == usize::MAX {
            proof {
                assert(sel_g.freq == usize::MAX as int);
                assert(plan is FailWide);
            }
            return Err(SnifferError::SniffingFailed("Failed to infer all metadata".to_owned()));
        }
        proof {
            assert(sel_g.freq < usize::MAX as int);
            assert(!(plan is FailWide));
        }

        let ghost off_g = crate::snip::skip_lines(data@, preamble_g as nat, 0);
        let ghost parsed_g = csv_records_of(
            data@.skip(off_g),
            delim_g,
            quote_byte(q2_g),
            sel_g.state == 1,
        );
        match self.infer_types(data) {
            Err(e) => {
                proof {
                    assert((preamble_g as usize) as nat == preamble_g as nat);
                    if parsed_g.0.len() == 0 {
                        if parsed_g.1 {
                            assert(plan is FailCsv);
                        } else {
                            assert(plan is FailEmpty);
                        }
                    } else {
                        assert(plan is FailCsv);
                    }
                }
                return Err(e);
            },
            Ok(()) => {},
        }
        let ghost scan_g = scan_recs(parsed_g.0, size, 1, lossy_size(parsed_g.0[0]), 1);
        proof {
            assert((preamble_g as usize) as nat == preamble_g as nat);
            assert(parsed_g.0.len() > 0);
            assert(scan_g.0 || !parsed_g.1);
            assert(plan == (SniffPlan::Go {
                delimiter: delim_g,
                quote: q2_g,
                flexible: sel_g.state == 1,
                preamble: preamble_g,
                freq: sel_g.freq,
            }));
        }
        self.is_utf8 = Some(utf8_ok);
        match (
            self.delimiter,
            self.num_preamble_rows,
            self.has_header_row,
            self.quote,
            self.flexible,
            self.is_utf8,
            self.delimiter_freq,
            self.avg_record_len,
        ) {
            (
                Some(delimiter),
                Some(num_preamble_rows),
                Some(has_header_row),
                Some(quote),
                Some(flexible),
                Some(is_utf8),
                Some(freq),
                Some(avg_record_len),
            ) => {
                let fields = clone_strings(&self.fields);
                let types = clone_types(&self.types);
                let m = Metadata {
                    dialect: Dialect {
                        delimiter,
                        header: Header { has_header_row, num_preamble_rows },
                        quote,
                        flexible,
                        is_utf8,
                    },
                    avg_record_len,
                    num_fields: freq + 1,
                    fields,
                    types,
                };
                proof {
                    assert(m.types@ == self.types@);
                    assert(m.dialect.header.has_header_row == (self.has_header_row->0));
                }
                Ok(m)
            },
            _ => Err(SnifferError::SniffingFailed("Failed to infer all metadata".to_owned())),
        }
    }

    /// Choose the best chain and record what it implies: the delimiter
    /// (unless already known), its frequency, the flexible flag and the
    /// preamble length. Chains are ranked by final state (narrower wins)
    /// and then by exact final probability; the first best chain wins.
    /// When no chain reaches a steady state, sniffing fails.
    pub fn run_chains(&mut self, chains: Vec<Chain>) -> (r: Result<(), SnifferError>)
        requires
            chains@.len() <= 128,
        ensures
            ({
                let sel = best_sel(chain_views(chains@));
                &&& (r is Err <==> sel.state == 2)
                &&& (r matches Err(e) ==> {
                    &&& e matches SnifferError::SniffingFailed(m) && m@
                        == "unable to find valid delimiter"@
                    &&& *final(self) == *old(self)
                })
                &&& (r is Ok ==> {
                    &&& 0 <= sel.winner < chains@.len()
                    &&& *final(self) == (Sniffer {
                        flexible: Some(sel.state == 1),
                        delimiter: if old(self).delimiter is Some {
                            old(self).delimiter
                        } else {
                            Some(sel.delim as u8)
                        },
                        delimiter_freq: Some(sel.freq as usize),
                        num_preamble_rows: Some(
                            preamble_of(chain_views(chains@)[sel.winner], sel.state) as usize,
                        ),
                        ..*old(self)
                    })
                })
            }),
            (forall|i: int|
                0 <= i < chains@.len() ==> max_obs(#[trigger] chain_views(chains@)[i]) == 0)
                ==> r is Err,
    {
        let ghost views = chain_views(chains@);
        let n = chains.len();
        let mut best_state: usize = 2;
        let mut best_num = BigNat::zero();
        let mut best_maxc: usize = 0;
        let mut best_t: usize = 0;
        let mut best_delim: u8 = 44;
        let mut best_freq: usize = 0;
        let mut best_path: Vec<(usize, crate::chain::VIteration)> = Vec::new();
        let ghost mut winner: int = -1;
        let mut i: usize = 0;
        proof {
            assert(views.len() == n);
            assert(forall|j: int| 0 <= j < n ==> views[j] == chains@[j].observations@);
        }
        while i < n
            invariant
                i <= n,
                n == chains@.len(),
                n <= 128,
                views == chain_views(chains@),
                views.len() == n,
                forall|j: int| 0 <= j < n ==> views[j] == chains@[j].observations@,
                best_num.wf(),
                best_num.val() >= 0,
                best_state <= 2,
                sel_from(views, 0, init_acc()) == sel_from(
                    views,
                    i as int,
                    SelAcc {
                        delim: best_delim as int,
                        freq: best_freq as int,
                        state: best_state as int,
                        num: best_num.val(),
                        maxc: best_maxc as int,
                        t: best_t as nat,
                        winner: winner,
                    },
                ),
                winner >= -1,
                winner == -1 ==> best_state == 2 && best_num.val() == 0 && best_maxc == 0 && best_t
                    == 0 && best_delim == 44 && best_freq == 0,
                winner >= 0 ==> {
                    &&& winner < i
                    &&& views[winner].len() > 0
                    &&& max_obs(views[winner]) >= 1
                    &&& best_t == views[winner].len()
                    &&& best_maxc == max_obs(views[winner])
                    &&& best_freq == max_obs(views[winner])
                    &&& best_state == cstate(views[winner])
                    &&& best_num.val() == cnum(views[winner])
                    &&& best_delim == winner
                    &&& best_path@.len() == views[winner].len() + 1
                    &&& forall|k: int|
                        0 <= k < best_path@.len() ==> (#[trigger] best_path@[k]).0 == vstate(
                            views[winner],
                            max_obs(views[winner]),
                            k as nat,
                        )
                },
            decreases n - i,
        {
            let ghost pre_acc = SelAcc {
                delim: best_delim as int,
                freq: best_freq as int,
                state: best_state as int,
                num: best_num.val(),
                maxc: best_maxc as int,
                t: best_t as nat,
                winner: winner,
            };
            let res = chains[i].viterbi();
            let plen = res.path.len();
            if plen > 0 {
                let ghost obs = views[i as int];
                let last_idx = plen - 1;
                let fs = res.path[last_idx].0;
                let freq = res.max_delim_freq;
                let tlen = chains[i].observations.len();
                proof {
                    if max_obs(obs) == 0 {
                        assert(fs == 2 && res.path@[last_idx as int].1.prob.val() == 0);
                        assert(fs as int == cstate(obs));
                        assert(res.path@[last_idx as int].1.prob.val() == cnum(obs));
                    } else {
                        assert(fs as int == vstate(obs, max_obs(obs), obs.len()));
                        assert(vstate(obs, max_obs(obs), obs.len()) == vfinal(obs, max_obs(obs)));
                        assert(fs as int == cstate(obs));
                        assert(res.path@[last_idx as int].1.prob.val() == cnum(obs));
                    }
                    assert(cnum(obs) >= 0) by {
                        if max_obs(obs) >= 1 {
                            lemma_vprob_nonneg(obs, max_obs(obs), obs.len(), vfinal(
                                obs,
                                max_obs(obs),
                            ));
                        }
                    }
                }
                let replace = fs < best_state || (fs == best_state && rat_gt(
                    &res.path[last_idx].1.prob,
                    freq,
                    tlen,
                    &best_num,
                    best_maxc,
                    best_t,
                ));
                proof {
                    assert(freq == max_obs(obs));
                    assert(tlen == obs.len());
                }
                if replace {
                    proof {
                        // a chain that displaces the threshold saw a delimiter
                        if max_obs(obs) == 0 {
                            assert(!(fs < best_state));
                            assert(cnum(obs) == 0);
                            assert(!crate::chain::rat_gt_spec(
                                0,
                                max_obs(obs),
                                obs.len() as nat,
                                best_num.val(),
                                best_maxc as int,
                                best_t as nat,
                            )) by {
                                vstd::arithmetic::mul::lemma_mul_basics(
                                    vstd::arithmetic::power::pow(
                                        1000 * (best_maxc + 1),
                                        best_t as nat,
                                    ),
                                );
                                vstd::arithmetic::power::lemma_pow_positive(
                                    1000 * (max_obs(obs) + 1),
                                    obs.len() as nat,
                                );
                                vstd::arithmetic::mul::lemma_mul_nonnegative(
                                    best_num.val(),
                                    vstd::arithmetic::power::pow(
                                        1000 * (max_obs(obs) + 1),
                                        obs.len() as nat,
                                    ),
                                );
                            }
                            assert(false);
                        }
                    }
                    best_state = fs;
                    best_num = res.path[last_idx].1.prob.duplicate();
                    best_maxc = freq;
                    best_t = tlen;
                    best_delim = i as u8;
                    best_freq = freq;
                    best_path = res.path;
                    proof {
                        winner = i as int;
                    }
                }
                proof {
                    let stepped = sel_step(pre_acc, views[i as int], i as int);
                    assert(sel_from(views, i as int, pre_acc) == sel_from(
                        views,
                        i + 1,
                        stepped,
                    ));
                    assert(stepped == SelAcc {
                        delim: best_delim as int,
                        freq: best_freq as int,
                        state: best_state as int,
                        num: best_num.val(),
                        maxc: best_maxc as int,
                        t: best_t as nat,
                        winner: winner,
                    });
                }
            } else {
                proof {
                    assert(views[i as int].len() == 0);
                    assert(sel_step(pre_acc, views[i as int], i as int) == pre_acc);
                    assert(sel_from(views, i as int, pre_acc) == sel_from(views, i + 1, pre_acc));
                }
            }
            i += 1;
        }
        proof {
            assert(sel_from(views, n as int, SelAcc {
                delim: best_delim as int,
                freq: best_freq as int,
                state: best_state as int,
                num: best_num.val(),
                maxc: best_maxc as int,
                t: best_t as nat,
                winner: winner,
            }) == SelAcc {
                delim: best_delim as int,
                freq: best_freq as int,
                state: best_state as int,
                num: best_num.val(),
                maxc: best_maxc as int,
                t: best_t as nat,
                winner: winner,
            });
            if forall|j: int| 0 <= j < n ==> max_obs(#[trigger] views[j]) == 0 {
                crate::chain::lemma_all_zero_sel(views, 0);
            }
        }
        if best_state == 2 {
            return Err(SnifferError::SniffingFailed("unable to find valid delimiter".to_owned()));
        }
        proof {
            if winner == -1 {
                assert(best_state == 2);
            }
            assert(0 <= winner < n);
        }
        self.flexible = Some(best_state == 1);
        if self.delimiter.is_none() {
            self.delimiter = Some(best_delim);
        }
        self.delimiter_freq = Some(best_freq);
        // count the leading path positions, past the first two, that differ
        // from the best state
        let ghost wobs = views[winner];
        let ghost wmax = max_obs(wobs);
        let mut cnt: usize = 0;
        let mut idx: usize = 2;
        let pl = best_path.len();
        while idx < pl && best_path[idx].0 != best_state
            invariant
                2 <= idx <= pl || (pl < 2 && idx == 2),
                cnt == idx - 2,
                pl == best_path@.len(),
                pl == wobs.len() + 1,
                best_state as int == cstate(wobs),
                wmax == max_obs(wobs),
                wmax >= 1,
                forall|k: int|
                    0 <= k < pl ==> (#[trigger] best_path@[k]).0 == vstate(wobs, wmax, k as nat),
                pre_cnt(wobs, wmax, best_state as int, 2) == cnt + pre_cnt(
                    wobs,
                    wmax,
                    best_state as int,
                    idx as nat,
                ),
            decreases pl - idx,
        {
            proof {
                assert(vstate(wobs, wmax, idx as nat) != best_state as int);
                assert(pre_cnt(wobs, wmax, best_state as int, idx as nat) == 1 + pre_cnt(
                    wobs,
                    wmax,
                    best_state as int,
                    (idx + 1) as nat,
                ));
            }
            cnt += 1;
            idx += 1;
        }
        proof {
            if idx < pl {
                assert(pre_cnt(wobs, wmax, best_state as int, idx as nat) == 0);
            } else {
                assert(idx as int > wobs.len());
                assert(pre_cnt(wobs, wmax, best_state as int, idx as nat) == 0);
            }
            assert(pre_cnt(wobs, wmax, best_state as int, 2) == cnt);
        }
        let num_preamble_rows: usize = if cnt > 0 {
            cnt + 1
        } else {
            0
        };
        self.num_preamble_rows = Some(num_preamble_rows);
        Ok(())
    }
}

} // verus!
