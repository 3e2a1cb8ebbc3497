//! Semantic field types and per-field type admissibility.
//!
//! For a single textual field this module computes the set of types that
//! could describe it: text always, the numeric types exactly when the field
//! matches the decimal grammars of Rust's integer and float `from_str`
//! parsers, boolean when a short prefix spells a truth value, and the
//! calendar types when the date parser of the `qsv-dateparser` crate accepts
//! the field.

use vstd::prelude::*;
use vstd::string::StringSliceAdditionalSpecFns;

verus! {

/// Day/month order preference handed to the date parser.
#[derive(Debug, Clone, Copy, PartialEq, Eq, Structural)]
pub enum DatePreference {
    /// DMY format, dd/mm/yyyy, dd/mm/yy
    DmyFormat,
    /// MDY format, mm/dd/yyyy, mm/dd/yy
    MdyFormat,
}

/// The valid field types for fields in a CSV record.
#[derive(Debug, Clone, Copy, PartialEq, Eq, Structural)]
pub enum Type {
    /// Unsigned integer (integer >= 0)
    Unsigned,
    /// Signed integer
    Signed,
    /// Text (any field can be a type)
    Text,
    /// Boolean (true / false or 0 / 1)
    Boolean,
    /// Floating-point
    Float,
    /// Date
    Date,
    /// DateTime
    DateTime,
    /// Null
    NULL,
}

/// Possible guesses for the type of a field: one admissibility bit per type.
#[derive(Debug, Clone, Copy, PartialEq, Eq, Structural)]
pub struct TypeGuesses {
    pub boolean: bool,
    pub unsigned: bool,
    pub signed: bool,
    pub float: bool,
    pub date: bool,
    pub datetime: bool,
    pub text: bool,
    pub null: bool,
}

impl TypeGuesses {
    /// Every bit set: the guess for a field about which nothing is known.
    pub open spec fn spec_all() -> TypeGuesses {
        TypeGuesses {
            boolean: true,
            unsigned: true,
            signed: true,
            float: true,
            date: true,
            datetime: true,
            text: true,
            null: true,
        }
    }

    pub fn all() -> (r: TypeGuesses)
        ensures
            r == Self::spec_all(),
    {
        TypeGuesses {
            boolean: true,
            unsigned: true,
            signed: true,
            float: true,
            date: true,
            datetime: true,
            text: true,
            null: true,
        }
    }

    /// The narrowest type among the guesses, from `NULL` (narrowest) to
    /// `Text` (widest, always possible).
    pub open spec fn spec_best(self) -> Type {
        if self.null {
            Type::NULL
        } else if self.boolean {
            Type::Boolean
        } else if self.unsigned {
            Type::Unsigned
        } else if self.signed {
            Type::Signed
        } else if self.float {
            Type::Float
        } else if self.datetime {
            Type::DateTime
        } else if self.date {
            Type::Date
        } else {
            Type::Text
        }
    }

    /// Compute the 'best-fitting' `Type` among the guesses of this struct:
    /// the narrowest admissible type, everything being admissible as text.
    pub fn best(self) -> (r: Type)
        ensures
            r == self.spec_best(),
    {
        if self.null {
            Type::NULL
        } else if self.boolean {
            Type::Boolean
        } else if self.unsigned {
            Type::Unsigned
        } else if self.signed {
            Type::Signed
        } else if self.float {
            Type::Float
        } else if self.datetime {
            Type::DateTime
        } else if self.date {
            Type::Date
        } else {
            Type::Text
        }
    }

    /// `self` has at least one bit that `other` lacks.
    pub open spec fn spec_allows(self, other: TypeGuesses) -> bool {
        ||| (self.boolean && !other.boolean)
        ||| (self.unsigned && !other.unsigned)
        ||| (self.signed && !other.signed)
        ||| (self.float && !other.float)
        ||| (self.date && !other.date)
        ||| (self.datetime && !other.datetime)
        ||| (self.text && !other.text)
        ||| (self.null && !other.null)
    }

    /// Returns `true` if `other` is 'allowed' in the types represented by
    /// `self`, that is, if `self` is not more restrictive than `other`.
    pub fn allows(self, other: TypeGuesses) -> (r: bool)
        ensures
            r == self.spec_allows(other),
    {
        (self.boolean && !other.boolean) || (self.unsigned && !other.unsigned)
            || (self.signed && !other.signed) || (self.float && !other.float)
            || (self.date && !other.date) || (self.datetime && !other.datetime)
            || (self.text && !other.text) || (self.null && !other.null)
    }

    /// Bitwise intersection of two guesses.
    pub open spec fn spec_intersect(self, other: TypeGuesses) -> TypeGuesses {
        TypeGuesses {
            boolean: self.boolean && other.boolean,
            unsigned: self.unsigned && other.unsigned,
            signed: self.signed && other.signed,
            float: self.float && other.float,
            date: self.date && other.date,
            datetime: self.datetime && other.datetime,
            text: self.text && other.text,
            null: self.null && other.null,
        }
    }

    pub fn intersect(self, other: TypeGuesses) -> (r: TypeGuesses)
        ensures
            r == self.spec_intersect(other),
    {
        TypeGuesses {
            boolean: self.boolean && other.boolean,
            unsigned: self.unsigned && other.unsigned,
            signed: self.signed && other.signed,
            float: self.float && other.float,
            date: self.date && other.date,
            datetime: self.datetime && other.datetime,
            text: self.text && other.text,
            null: self.null && other.null,
        }
    }
}

// ---------------------------------------------------------------------------
// Decimal grammars, over the UTF-8 bytes of a field.
// ---------------------------------------------------------------------------

pub open spec fn is_dec_digit(b: u8) -> bool {
    0x30 <= b <= 0x39
}

pub open spec fn all_dec_digits(s: Seq<u8>) -> bool {
    forall|i: int| 0 <= i < s.len() ==> is_dec_digit(#[trigger] s[i])
}

/// Value of a decimal digit string.
pub open spec fn digits_val(s: Seq<u8>) -> int
    decreases s.len(),
{
    if s.len() == 0 {
        0
    } else {
        digits_val(s.drop_last()) * 10 + (s.last() - 0x30)
    }
}

pub proof fn lemma_digits_val_nonneg(s: Seq<u8>)
    requires
        all_dec_digits(s),
    ensures
        digits_val(s) >= 0,
    decreases s.len(),
{
    if s.len() > 0 {
        assert(forall|i: int| 0 <= i < s.len() - 1 ==> is_dec_digit(#[trigger] s.drop_last()[i]));
        lemma_digits_val_nonneg(s.drop_last());
        assert(digits_val(s.drop_last()) * 10 >= 0) by (nonlinear_arith)
            requires
                digits_val(s.drop_last()) >= 0,
        ;
        assert(is_dec_digit(s.last()));
    }
}

/// Extending a digit string can only raise its value.
pub proof fn lemma_digits_val_prefix(s: Seq<u8>, i: int)
    requires
        all_dec_digits(s),
        0 <= i <= s.len(),
    ensures
        digits_val(s.take(i)) <= digits_val(s),
    decreases s.len() - i,
{
    if i < s.len() {
        lemma_digits_val_prefix(s, i + 1);
        assert(s.take(i + 1).drop_last() =~= s.take(i));
        assert(s.take(i + 1).last() == s[i]);
        assert(forall|k: int| 0 <= k < i ==> is_dec_digit(#[trigger] s.take(i)[k]));
        lemma_digits_val_nonneg(s.take(i));
        assert(digits_val(s.take(i + 1)) == digits_val(s.take(i)) * 10 + (s[i] - 0x30));
        assert(digits_val(s.take(i)) * 10 >= digits_val(s.take(i))) by (nonlinear_arith)
            requires
                digits_val(s.take(i)) >= 0,
        ;
        assert(is_dec_digit(s[i]));
    } else {
        assert(s.take(i) =~= s);
    }
}

pub open spec fn strip_plus(s: Seq<u8>) -> Seq<u8> {
    if s.len() > 0 && s[0] == 0x2b {
        s.skip(1)
    } else {
        s
    }
}

/// `u64::from_str` accepts an optional `+` and then decimal digits whose
/// value fits in 64 bits.
pub open spec fn is_u64_text(s: Seq<u8>) -> bool {
    let t = strip_plus(s);
    t.len() > 0 && all_dec_digits(t) && digits_val(t) <= u64::MAX
}

/// `i64::from_str` accepts an optional sign and then decimal digits whose
/// value fits in the signed 64-bit range.
pub open spec fn is_i64_text(s: Seq<u8>) -> bool {
    if s.len() > 0 && s[0] == 0x2d {
        let t = s.skip(1);
        t.len() > 0 && all_dec_digits(t) && digits_val(t) <= 0x8000_0000_0000_0000
    } else {
        let t = strip_plus(s);
        t.len() > 0 && all_dec_digits(t) && digits_val(t) <= i64::MAX
    }
}

pub open spec fn strip_sign(s: Seq<u8>) -> Seq<u8> {
    if s.len() > 0 && (s[0] == 0x2b || s[0] == 0x2d) {
        s.skip(1)
    } else {
        s
    }
}

pub open spec fn lower_byte(b: u8) -> u8 {
    if 0x41 <= b <= 0x5a {
        (b + 0x20) as u8
    } else {
        b
    }
}

pub open spec fn lower_bytes(s: Seq<u8>) -> Seq<u8> {
    Seq::new(s.len(), |i: int| lower_byte(s[i]))
}

/// First index at or after `i` holding `a` or `c`; the length if none does.
pub open spec fn first_from(s: Seq<u8>, i: int, a: u8, c: u8) -> int
    decreases s.len() - i,
{
    if i < 0 || i >= s.len() {
        s.len() as int
    } else if s[i] == a || s[i] == c {
        i
    } else {
        first_from(s, i + 1, a, c)
    }
}

/// `first_from` is pinned down by "no match before, match (or end) at".
pub proof fn lemma_first_from_is(s: Seq<u8>, i: int, j: int, a: u8, c: u8)
    requires
        0 <= i <= j <= s.len(),
        forall|k: int| i <= k < j ==> s[k] != a && s[k] != c,
        j < s.len() ==> (s[j] == a || s[j] == c),
    ensures
        first_from(s, i, a, c) == j,
    decreases j - i,
{
    if i < j {
        lemma_first_from_is(s, i + 1, j, a, c);
    }
}

pub open spec fn is_mantissa(s: Seq<u8>) -> bool {
    let d = first_from(s, 0, 0x2e, 0x2e);
    if d == s.len() {
        s.len() > 0 && all_dec_digits(s)
    } else {
        all_dec_digits(s.take(d)) && all_dec_digits(s.skip(d + 1)) && s.len() > 1
    }
}

pub open spec fn is_exp_tail(s: Seq<u8>) -> bool {
    let t = strip_sign(s);
    t.len() > 0 && all_dec_digits(t)
}

pub open spec fn inf_bytes() -> Seq<u8> {
    seq![0x69u8, 0x6eu8, 0x66u8]
}

pub open spec fn infinity_bytes() -> Seq<u8> {
    seq![0x69u8, 0x6eu8, 0x66u8, 0x69u8, 0x6eu8, 0x69u8, 0x74u8, 0x79u8]
}

pub open spec fn nan_bytes() -> Seq<u8> {
    seq![0x6eu8, 0x61u8, 0x6eu8]
}

/// `f64::from_str` accepts an optional sign followed by `inf`, `infinity` or
/// `nan` (any case), or a decimal number with optional fraction and optional
/// exponent. Acceptance never depends on magnitude: out-of-range values
/// parse to infinity.
pub open spec fn is_float_text(s: Seq<u8>) -> bool {
    let t = strip_sign(s);
    ||| lower_bytes(t) == inf_bytes()
    ||| lower_bytes(t) == infinity_bytes()
    ||| lower_bytes(t) == nan_bytes()
    ||| {
        let k = first_from(t, 0, 0x65, 0x45);
        if k == t.len() {
            is_mantissa(t)
        } else {
            is_mantissa(t.take(k)) && is_exp_tail(t.skip(k + 1))
        }
    }
}

/// The ASCII lowercase of the first five bytes is one of the truth words.
pub open spec fn is_boolean_text(s: Seq<u8>) -> bool {
    let n = if s.len() < 5 { s.len() as int } else { 5 };
    let t = lower_bytes(s.take(n));
    ||| t == seq![0x30u8]
    ||| t == seq![0x31u8]
    ||| t == seq![0x74u8]
    ||| t == seq![0x66u8]
    ||| t == seq![0x79u8]
    ||| t == seq![0x6eu8]
    ||| t == seq![0x74u8, 0x72u8, 0x75u8, 0x65u8]
    ||| t == seq![0x66u8, 0x61u8, 0x6cu8, 0x73u8, 0x65u8]
    ||| t == seq![0x79u8, 0x65u8, 0x73u8]
    ||| t == seq![0x6eu8, 0x6fu8]
}

// ---------------------------------------------------------------------------
// Executable recognizers.
// ---------------------------------------------------------------------------

/// Scan for the first occurrence of `a` or `c` at or after `from`.
fn scan2(b: &[u8], from: usize, a: u8, c: u8) -> (j: usize)
    requires
        from <= b@.len(),
    ensures
        from <= j <= b@.len(),
        j < b@.len() ==> (b@[j as int] == a || b@[j as int] == c),
        forall|k: int| from <= k < j ==> b@[k] != a && b@[k] != c,
{
    let n = b.len();
    let mut j = from;
    while j < n
        invariant
            from <= j <= n,
            n == b@.len(),
            forall|k: int| from <= k < j ==> b@[k] != a && b@[k] != c,
        decreases n - j,
    {
        if b[j] == a || b[j] == c {
            return j;
        }
        j += 1;
    }
    j
}

/// All bytes at or after `from` are decimal digits, at least one of them,
/// and their value does not exceed `bound`.
fn digits_fit(b: &[u8], from: usize, bound: u64) -> (r: bool)
    requires
        from <= b@.len(),
    ensures
        r == ({
            let t = b@.skip(from as int);
            t.len() > 0 && all_dec_digits(t) && digits_val(t) <= bound
        }),
{
    let ghost t = b@.skip(from as int);
    let n = b.len();
    if from == n {
        return false;
    }
    let mut val: u64 = 0;
    let mut j = from;
    while j < n
        invariant
            from <= j <= n,
            n == b@.len(),
            t == b@.skip(from as int),
            forall|k: int| 0 <= k < j - from ==> is_dec_digit(#[trigger] t[k]),
            val == digits_val(t.take(j - from)),
        decreases n - j,
    {
        let c = b[j];
        proof {
            assert(t[j - from] == b@[j as int]);
        }
        if c < 0x30 || c > 0x39 {
            proof {
                assert(!is_dec_digit(t[j - from]));
            }
            return false;
        }
        let d = (c - 0x30) as u64;
        proof {
            assert(t.take(j - from + 1).drop_last() =~= t.take(j - from));
            assert(t.take(j - from + 1).last() == t[j - from]);
        }
        if val > (u64::MAX - d) / 10 {
            proof {
                assert(forall|k: int| 0 <= k < j - from + 1 ==> is_dec_digit(
                    #[trigger] t.take(j - from + 1)[k]));
                lemma_digits_val_nonneg(t.take(j - from + 1));
                assert(val * 10 + d > u64::MAX) by (nonlinear_arith)
                    requires
                        val > (u64::MAX - d) / 10,
                        0 <= d <= 9,
                        val >= 0,
                ;
                if all_dec_digits(t) {
                    lemma_digits_val_prefix(t, j - from + 1);
                }
            }
            return false;
        }
        proof {
            assert(val * 10 + d <= u64::MAX) by (nonlinear_arith)
                requires
                    val <= (u64::MAX - d) / 10,
                    0 <= d <= 9,
                    val >= 0,
            ;
        }
        val = val * 10 + d;
        j += 1;
    }
    proof {
        assert(t.take(j - from) =~= t);
    }
    val <= bound
}

/// All bytes in `[from, to)` are decimal digits.
fn digits_range(b: &[u8], from: usize, to: usize) -> (r: bool)
    requires
        from <= to <= b@.len(),
    ensures
        r == all_dec_digits(b@.subrange(from as int, to as int)),
{
    let ghost t = b@.subrange(from as int, to as int);
    let mut j = from;
    while j < to
        invariant
            from <= j <= to,
            to <= b@.len(),
            t == b@.subrange(from as int, to as int),
            forall|k: int| 0 <= k < j - from ==> is_dec_digit(#[trigger] t[k]),
        decreases to - j,
    {
        let c = b[j];
        proof {
            assert(t[j - from] == b@[j as int]);
        }
        if c < 0x30 || c > 0x39 {
            proof {
                assert(!is_dec_digit(t[j - from]));
            }
            return false;
        }
        j += 1;
    }
    true
}

/// ASCII lowercase of one byte.
fn lower_of(c: u8) -> (r: u8)
    ensures
        r == lower_byte(c),
{
    if c >= 0x41 && c <= 0x5a {
        c + 0x20
    } else {
        c
    }
}

/// The lowercased bytes at or after `from` spell `inf`, `infinity` or `nan`.
fn special_float(b: &[u8], from: usize) -> (r: bool)
    requires
        from <= b@.len(),
    ensures
        r == ({
            let t = lower_bytes(b@.skip(from as int));
            t == inf_bytes() || t == infinity_bytes() || t == nan_bytes()
        }),
{
    let ghost t = lower_bytes(b@.skip(from as int));
    let m = b.len() - from;
    proof {
        assert(t.len() == b@.len() - from);
        assert(forall|k: int| 0 <= k < t.len() ==> t[k] == lower_byte(
            #[trigger] b@.skip(from as int)[k]));
        assert(forall|k: int| 0 <= k < t.len() ==> b@.skip(from as int)[k] == b@[from + k]);
    }
    if m == 3 {
        let l0 = lower_of(b[from]);
        let l1 = lower_of(b[from + 1]);
        let l2 = lower_of(b[from + 2]);
        let hit = (l0 == 0x69 && l1 == 0x6e && l2 == 0x66) || (l0 == 0x6e && l1 == 0x61 && l2
            == 0x6e);
        proof {
            if hit {
                if l0 == 0x69 {
                    assert(t =~= inf_bytes());
                } else {
                    assert(t =~= nan_bytes());
                }
            } else {
                assert(t != inf_bytes() && t != nan_bytes()) by {
                    assert(t[0] == l0 && t[1] == l1 && t[2] == l2);
                }
                assert(t != infinity_bytes());
            }
        }
        hit
    } else if m == 8 {
        let l0 = lower_of(b[from]);
        let l1 = lower_of(b[from + 1]);
        let l2 = lower_of(b[from + 2]);
        let l3 = lower_of(b[from + 3]);
        let l4 = lower_of(b[from + 4]);
        let l5 = lower_of(b[from + 5]);
        let l6 = lower_of(b[from + 6]);
        let l7 = lower_of(b[from + 7]);
        let hit = l0 == 0x69 && l1 == 0x6e && l2 == 0x66 && l3 == 0x69 && l4 == 0x6e && l5 == 0x69
            && l6 == 0x74 && l7 == 0x79;
        proof {
            if hit {
                assert(t =~= infinity_bytes());
            } else {
                assert(t[0] == l0 && t[1] == l1 && t[2] == l2 && t[3] == l3 && t[4] == l4 && t[5]
                    == l5 && t[6] == l6 && t[7] == l7);
                assert(t != infinity_bytes());
                assert(t != inf_bytes() && t != nan_bytes());
            }
        }
        hit
    } else {
        proof {
            assert(t.len() != 3 && t.len() != 8);
        }
        false
    }
}

/// Recognizer for the `u64::from_str` grammar.
pub fn unsigned_parses(b: &[u8]) -> (r: bool)
    ensures
        r == is_u64_text(b@),
{
    let n = b.len();
    let from: usize = if n > 0 && b[0] == 0x2b {
        1
    } else {
        0
    };
    proof {
        if n > 0 && b@[0] == 0x2b {
            assert(strip_plus(b@) =~= b@.skip(1));
        } else {
            assert(strip_plus(b@) =~= b@.skip(0));
        }
    }
    digits_fit(b, from, u64::MAX)
}

/// Recognizer for the `i64::from_str` grammar.
pub fn signed_parses(b: &[u8]) -> (r: bool)
    ensures
        r == is_i64_text(b@),
{
    let n = b.len();
    if n > 0 && b[0] == 0x2d {
        digits_fit(b, 1, 0x8000_0000_0000_0000)
    } else {
        let from: usize = if n > 0 && b[0] == 0x2b {
            1
        } else {
            0
        };
        proof {
            if n > 0 && b@[0] == 0x2b {
                assert(strip_plus(b@) =~= b@.skip(1));
            } else {
                assert(strip_plus(b@) =~= b@.skip(0));
            }
        }
        digits_fit(b, from, i64::MAX as u64)
    }
}

/// Recognizer for the mantissa part of the float grammar, over `[from, to)`.
fn mantissa_parses(b: &[u8], from: usize, to: usize) -> (r: bool)
    requires
        from <= to <= b@.len(),
    ensures
        r == is_mantissa(b@.subrange(from as int, to as int)),
{
    let ghost t = b@.subrange(from as int, to as int);
    proof {
        assert(forall|k: int| 0 <= k < t.len() ==> t[k] == b@[from + k]);
    }
    let d = scan2(b, from, 0x2e, 0x2e);
    if d >= to {
        proof {
            lemma_first_from_is(t, 0, t.len() as int, 0x2e, 0x2e);
        }
        if to == from {
            return false;
        }
        digits_range(b, from, to)
    } else {
        proof {
            lemma_first_from_is(t, 0, d - from, 0x2e, 0x2e);
            assert(t.take(d - from) =~= b@.subrange(from as int, d as int));
            assert(t.skip(d - from + 1) =~= b@.subrange(d + 1, to as int));
        }
        if to - from <= 1 {
            return false;
        }
        let r1 = digits_range(b, from, d);
        let r2 = digits_range(b, d + 1, to);
        r1 && r2
    }
}

/// Recognizer for the `f64::from_str` grammar.
pub fn float_parses(b: &[u8]) -> (r: bool)
    ensures
        r == is_float_text(b@),
{
    let n = b.len();
    let from: usize = if n > 0 && (b[0] == 0x2b || b[0] == 0x2d) {
        1
    } else {
        0
    };
    proof {
        if n > 0 && (b@[0] == 0x2b || b@[0] == 0x2d) {
            assert(strip_sign(b@) =~= b@.skip(1));
        } else {
            assert(strip_sign(b@) =~= b@.skip(0));
        }
    }
    let ghost t = b@.skip(from as int);
    if special_float(b, from) {
        return true;
    }
    proof {
        assert(forall|k: int| 0 <= k < t.len() ==> t[k] == b@[from + k]);
    }
    let k = scan2(b, from, 0x65, 0x45);
    if k == n {
        proof {
            lemma_first_from_is(t, 0, t.len() as int, 0x65, 0x45);
            assert(t =~= b@.subrange(from as int, n as int));
        }
        mantissa_parses(b, from, n)
    } else {
        proof {
            lemma_first_from_is(t, 0, k - from, 0x65, 0x45);
            assert(t.take(k - from) =~= b@.subrange(from as int, k as int));
        }
        let r1 = mantissa_parses(b, from, k);
        if !r1 {
            return false;
        }
        let ghost tail = t.skip(k - from + 1);
        proof {
            assert(forall|j: int| 0 <= j < tail.len() ==> tail[j] == b@[k + 1 + j]);
        }
        let e_from: usize = if k + 1 < n && (b[k + 1] == 0x2b || b[k + 1] == 0x2d) {
            k + 2
        } else {
            k + 1
        };
        proof {
            if k + 1 < n && (b@[k + 1] == 0x2b || b@[k + 1] == 0x2d) {
                assert(tail.len() > 0 && (tail[0] == 0x2b || tail[0] == 0x2d));
                assert(strip_sign(tail) =~= b@.skip(e_from as int));
            } else {
                if tail.len() > 0 {
                    assert(tail[0] == b@[k + 1]);
                }
                assert(strip_sign(tail) =~= b@.skip(e_from as int));
            }
        }
        let r2 = digits_fit_any(b, e_from);
        r2
    }
}

/// All bytes at or after `from` are decimal digits, at least one of them.
fn digits_fit_any(b: &[u8], from: usize) -> (r: bool)
    requires
        from <= b@.len(),
    ensures
        r == ({
            let t = b@.skip(from as int);
            t.len() > 0 && all_dec_digits(t)
        }),
{
    let n = b.len();
    if from == n {
        return false;
    }
    let r = digits_range(b, from, n);
    proof {
        assert(b@.subrange(from as int, n as int) =~= b@.skip(from as int));
    }
    r
}

/// Whether the ASCII lowercase of the first five characters of `s` spells a
/// truth value: one of 0, 1, t, f, y, n, true, false, yes, no.
pub fn infer_boolean(s: &str) -> (r: bool)
    ensures
        r == is_boolean_text(s.spec_bytes()),
{
    let b = s.as_bytes();
    let n = b.len();
    let m: usize = if n < 5 {
        n
    } else {
        5
    };
    let ghost t = lower_bytes(b@.take(m as int));
    proof {
        assert(t.len() == m);
        assert(forall|k: int| 0 <= k < t.len() ==> t[k] == lower_byte(#[trigger] b@[k]));
    }
    let r = if m == 1 {
        let l0 = lower_of(b[0]);
        l0 == 0x30 || l0 == 0x31 || l0 == 0x74 || l0 == 0x66 || l0 == 0x79 || l0 == 0x6e
    } else if m == 2 {
        let l0 = lower_of(b[0]);
        let l1 = lower_of(b[1]);
        l0 == 0x6e && l1 == 0x6f
    } else if m == 3 {
        let l0 = lower_of(b[0]);
        let l1 = lower_of(b[1]);
        let l2 = lower_of(b[2]);
        l0 == 0x79 && l1 == 0x65 && l2 == 0x73
    } else if m == 4 {
        let l0 = lower_of(b[0]);
        let l1 = lower_of(b[1]);
        let l2 = lower_of(b[2]);
        let l3 = lower_of(b[3]);
        l0 == 0x74 && l1 == 0x72 && l2 == 0x75 && l3 == 0x65
    } else if m == 5 {
        let l0 = lower_of(b[0]);
        let l1 = lower_of(b[1]);
        let l2 = lower_of(b[2]);
        let l3 = lower_of(b[3]);
        let l4 = lower_of(b[4]);
        l0 == 0x66 && l1 == 0x61 && l2 == 0x6c && l3 == 0x73 && l4 == 0x65
    } else {
        false
    };
    proof {
        if m == 1 {
            assert(t =~= seq![lower_byte(b@[0])]);
        } else if m == 2 {
            assert(t =~= seq![lower_byte(b@[0]), lower_byte(b@[1])]);
        } else if m == 3 {
            assert(t =~= seq![lower_byte(b@[0]), lower_byte(b@[1]), lower_byte(b@[2])]);
        } else if m == 4 {
            assert(t =~= seq![
                lower_byte(b@[0]),
                lower_byte(b@[1]),
                lower_byte(b@[2]),
                lower_byte(b@[3]),
            ]);
        } else if m == 5 {
            assert(t =~= seq![
                lower_byte(b@[0]),
                lower_byte(b@[1]),
                lower_byte(b@[2]),
                lower_byte(b@[3]),
                lower_byte(b@[4]),
            ]);
        }
        assert(r == is_boolean_text(b@));
    }
    r
}

// ---------------------------------------------------------------------------
// Date classification, through the outside date parser.
// ---------------------------------------------------------------------------

/// Relies on `qsv_dateparser::parse_with_preference` to parse a date or time
/// string with the given day/month preference, and on chrono's
/// `DateTime::to_rfc3339` for the rendering that is returned. Strings
/// without a full date are completed from the current clock, so nothing is
/// assumed about the rendering.
#[verifier::external_body]
fn date_render(s: &str, dmy: bool) -> (r: Option<Vec<u8>>) {
    match qsv_dateparser::parse_with_preference(s, dmy) {
        Ok(d) => Some(d.to_rfc3339().into_bytes()),
        Err(_) => None,
    }
}

/// Bytes of the rendering suffix `T00:00:00+00:00` that marks a pure date.
pub open spec fn midnight_bytes() -> Seq<u8> {
    seq![
        0x54u8,
        0x30u8,
        0x30u8,
        0x3au8,
        0x30u8,
        0x30u8,
        0x3au8,
        0x30u8,
        0x30u8,
        0x2bu8,
        0x30u8,
        0x30u8,
        0x3au8,
        0x30u8,
        0x30u8,
    ]
}

/// The rendering ends in `T00:00:00+00:00`.
pub open spec fn is_midnight(r: Seq<u8>) -> bool {
    r.len() >= 15 && r.skip(r.len() - 15) == midnight_bytes()
}

fn ends_at_midnight(v: &Vec<u8>) -> (r: bool)
    ensures
        r == is_midnight(v@),
{
    let n = v.len();
    if n < 15 {
        return false;
    }
    let ghost t = v@.skip(n - 15);
    proof {
        assert(t.len() == 15);
        assert(forall|k: int| 0 <= k < 15 ==> t[k] == v@[n - 15 + k]);
    }
    let r = v[n - 15] == 0x54 && v[n - 14] == 0x30 && v[n - 13] == 0x30 && v[n - 12] == 0x3a
        && v[n - 11] == 0x30 && v[n - 10] == 0x30 && v[n - 9] == 0x3a && v[n - 8] == 0x30
        && v[n - 7] == 0x30 && v[n - 6] == 0x2b && v[n - 5] == 0x30 && v[n - 4] == 0x30
        && v[n - 3] == 0x3a && v[n - 2] == 0x30 && v[n - 1] == 0x30;
    proof {
        if r {
            assert(t =~= midnight_bytes());
        } else {
            assert(t[0] == v@[n - 15] && t[1] == v@[n - 14] && t[2] == v@[n - 13] && t[3] == v@[n
                - 12] && t[4] == v@[n - 11] && t[5] == v@[n - 10] && t[6] == v@[n - 9] && t[7]
                == v@[n - 8] && t[8] == v@[n - 7] && t[9] == v@[n - 6] && t[10] == v@[n - 5]
                && t[11] == v@[n - 4] && t[12] == v@[n - 3] && t[13] == v@[n - 2] && t[14] == v@[n
                - 1]);
            assert(t != midnight_bytes());
        }
    }
    r
}

// ---------------------------------------------------------------------------
// Field-level inference.
// ---------------------------------------------------------------------------

/// The guesses owed to a field whose date parse produced `render`.
pub open spec fn spec_guesses(b: Seq<u8>, render: Option<Seq<u8>>) -> TypeGuesses {
    if b.len() == 0 {
        TypeGuesses::spec_all()
    } else {
        TypeGuesses {
            boolean: is_boolean_text(b),
            unsigned: is_u64_text(b),
            signed: is_i64_text(b),
            float: is_float_text(b),
            date: render is Some && is_midnight(render->0),
            datetime: render is Some && !is_midnight(render->0),
            text: true,
            null: false,
        }
    }
}

/// Guesses for a field, the date classification being supplied by the
/// caller: the `DATE` bit when a rendering exists and marks midnight UTC,
/// the `DATETIME` bit when a rendering exists and does not, and the
/// remaining bits from the field's bytes alone. The empty field admits
/// every type.
pub fn infer_types_with_date(s: &str, render: &Option<Vec<u8>>) -> (r: TypeGuesses)
    ensures
        r == spec_guesses(
            s.spec_bytes(),
            match render {
                Option::Some(v) => Option::Some(v@),
                Option::None => Option::None,
            },
        ),
{
    let b = s.as_bytes();
    if b.len() == 0 {
        return TypeGuesses::all();
    }
    let (date, datetime) = match render {
        Option::Some(v) => {
            let mid = ends_at_midnight(v);
            (mid, !mid)
        },
        Option::None => (false, false),
    };
    TypeGuesses {
        boolean: infer_boolean(s),
        unsigned: unsigned_parses(b),
        signed: signed_parses(b),
        float: float_parses(b),
        date,
        datetime,
        text: true,
        null: false,
    }
}

/// Guesses for a field: the non-calendar bits exactly as `spec_guesses`
/// says, and the calendar bits according to whatever the date parser made
/// of the field, at most one of them set.
pub fn infer_types(s: &str, pref: DatePreference) -> (r: TypeGuesses)
    ensures
        s.spec_bytes().len() == 0 ==> r == TypeGuesses::spec_all(),
        s.spec_bytes().len() != 0 ==> {
            &&& r.text
            &&& !r.null
            &&& r.boolean == is_boolean_text(s.spec_bytes())
            &&& r.unsigned == is_u64_text(s.spec_bytes())
            &&& r.signed == is_i64_text(s.spec_bytes())
            &&& r.float == is_float_text(s.spec_bytes())
            &&& !(r.date && r.datetime)
        },
{
    let render = date_render(s, matches!(pref, DatePreference::DmyFormat));
    infer_types_with_date(s, &render)
}

/// Best types of a whole row of guesses, columnwise.
pub fn get_best_types(guesses: &Vec<TypeGuesses>) -> (r: Vec<Type>)
    ensures
        r@.len() == guesses@.len(),
        forall|i: int| 0 <= i < r@.len() ==> r@[i] == guesses@[i].spec_best(),
{
    let mut r: Vec<Type> = Vec::new();
    let n = guesses.len();
    let mut i: usize = 0;
    while i < n
        invariant
            i <= n,
            n == guesses@.len(),
            r@.len() == i,
            forall|k: int| 0 <= k < i ==> r@[k] == guesses@[k].spec_best(),
        decreases n - i,
    {
        r.push(guesses[i].best());
        i += 1;
    }
    r
}

} // verus!
