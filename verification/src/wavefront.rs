//! The Wavefront OBJ mesh loader: a forgiving single-pass, line-oriented
//! parser for the `v` (vertex position) and `f` (triangular face) statements.
//! Every other line is silently skipped.
//!
//! Vertex scalars are plain decimal numerals (an optional sign, digits, at
//! most one decimal point; no exponent notation), held as fixed-point values
//! scaled by `SCALE` and clamped to `COORD_MAX`, which leaves the rendered
//! output unchanged: a clamped coordinate always projects outside any image.

use vstd::prelude::*;
use vstd::string::StrSliceExecFns;

verus! {

/// Which coordinate, or which face group, an error concerns.
#[derive(Clone, Copy, PartialEq, Eq, Structural, Debug)]
pub enum Axis {
    X,
    Y,
    Z,
}

/// A format error of the OBJ subset. The loader stops at the first one.
#[derive(Clone, Copy, PartialEq, Eq, Structural, Debug)]
pub enum ObjError {
    /// A `v` line with fewer tokens than three coordinates.
    MissingCoord(Axis),
    /// A `v` token that is not a plain decimal numeral.
    InvalidCoord(Axis),
    /// An `f` line with fewer than three index groups.
    MissingGroup(Axis),
    /// An `f` group whose first segment is not an integer index of at
    /// least one that fits the index type.
    InvalidIndex(Axis),
}

pub open spec fn spec_message(e: ObjError) -> Seq<char> {
    match e {
        ObjError::MissingCoord(Axis::X) => "failed to read x"@,
        ObjError::MissingCoord(Axis::Y) => "failed to read y"@,
        ObjError::MissingCoord(Axis::Z) => "failed to read z"@,
        ObjError::InvalidCoord(Axis::X) => "invalid format for x"@,
        ObjError::InvalidCoord(Axis::Y) => "invalid format for y"@,
        ObjError::InvalidCoord(Axis::Z) => "invalid format for z"@,
        ObjError::MissingGroup(Axis::X) => "failed to read x group"@,
        ObjError::MissingGroup(Axis::Y) => "failed to read y group"@,
        ObjError::MissingGroup(Axis::Z) => "failed to read z group"@,
        ObjError::InvalidIndex(Axis::X) => "invalid format for x vertex id"@,
        ObjError::InvalidIndex(Axis::Y) => "invalid format for y vertex id"@,
        ObjError::InvalidIndex(Axis::Z) => "invalid format for z vertex id"@,
    }
}

impl ObjError {
    /// The error's text, identifying the offending field.
    pub fn message(&self) -> (r: String)
        ensures
            r@ == spec_message(*self),
    {
        match self {
            ObjError::MissingCoord(Axis::X) => "failed to read x".to_owned(),
            ObjError::MissingCoord(Axis::Y) => "failed to read y".to_owned(),
            ObjError::MissingCoord(Axis::Z) => "failed to read z".to_owned(),
            ObjError::InvalidCoord(Axis::X) => "invalid format for x".to_owned(),
            ObjError::InvalidCoord(Axis::Y) => "invalid format for y".to_owned(),
            ObjError::InvalidCoord(Axis::Z) => "invalid format for z".to_owned(),
            ObjError::MissingGroup(Axis::X) => "failed to read x group".to_owned(),
            ObjError::MissingGroup(Axis::Y) => "failed to read y group".to_owned(),
            ObjError::MissingGroup(Axis::Z) => "failed to read z group".to_owned(),
            ObjError::InvalidIndex(Axis::X) => "invalid format for x vertex id".to_owned(),
            ObjError::InvalidIndex(Axis::Y) => "invalid format for y vertex id".to_owned(),
            ObjError::InvalidIndex(Axis::Z) => "invalid format for z vertex id".to_owned(),
        }
    }
}

/// ASCII whitespace, the separator between the tokens of a statement line.
pub open spec fn is_space(c: char) -> bool {
    c == ' ' || c == '\t' || c == '\r' || c == '\n' || c == '\u{b}' || c == '\u{c}'
}

fn is_space_char(c: char) -> (r: bool)
    ensures
        r == is_space(c),
{
    c == ' ' || c == '\t' || c == '\r' || c == '\n' || c == '\u{b}' || c == '\u{c}'
}

/// The end of the token starting at `i`: the first position at or after `i`
/// that holds whitespace, or the line's end.
pub open spec fn token_end(s: Seq<char>, i: int) -> int
    decreases s.len() - i,
{
    if i >= s.len() || is_space(s[i]) {
        i
    } else {
        token_end(s, i + 1)
    }
}

proof fn lemma_token_end_bounds(s: Seq<char>, i: int)
    requires
        0 <= i <= s.len(),
    ensures
        i <= token_end(s, i) <= s.len(),
        i < s.len() && !is_space(s[i]) ==> token_end(s, i) >= i + 1,
    decreases s.len() - i,
{
    if i < s.len() && !is_space(s[i]) {
        lemma_token_end_bounds(s, i + 1);
    }
}

/// The whitespace-separated tokens of the suffix of `s` starting at `i`.
pub open spec fn tokens_from(s: Seq<char>, i: int) -> Seq<Seq<char>>
    decreases s.len() - i,
        via tokens_from_decreases
{
    if i < 0 || i >= s.len() {
        Seq::empty()
    } else if is_space(s[i]) {
        tokens_from(s, i + 1)
    } else {
        seq![s.subrange(i, token_end(s, i))] + tokens_from(s, token_end(s, i))
    }
}

#[via_fn]
proof fn tokens_from_decreases(s: Seq<char>, i: int) {
    if 0 <= i < s.len() && !is_space(s[i]) {
        lemma_token_end_bounds(s, i);
    }
}

/// The whitespace-separated tokens of a line.
pub open spec fn tokens(s: Seq<char>) -> Seq<Seq<char>> {
    tokens_from(s, 0)
}

/// Split a line into its whitespace-separated tokens.
pub fn tokenize(s: &str) -> (r: Vec<String>)
    ensures
        r@.len() == tokens(s@).len(),
        forall|i: int| 0 <= i < r@.len() ==> #[trigger] r@[i]@ == tokens(s@)[i],
{
    let n = s.unicode_len();
    let mut r: Vec<String> = Vec::new();
    let mut i: usize = 0;
    while i < n
        invariant
            s@.len() == n,
            i <= n,
            tokens(s@) == r@.map_values(|t: String| t@) + tokens_from(s@, i as int),
        decreases n - i,
    {
        let c = s.get_char(i);
        if is_space_char(c) {
            i = i + 1;
        } else {
            let mut j = i + 1;
            proof {
                lemma_token_end_bounds(s@, i as int);
            }
            while j < n && !is_space_char(s.get_char(j))
                invariant
                    s@.len() == n,
                    i < j <= n,
                    token_end(s@, i as int) == token_end(s@, j as int),
                decreases n - j,
            {
                j = j + 1;
            }
            proof {
                assert(token_end(s@, j as int) == j);
            }
            let t = s.substring_char(i, j).to_owned();
            let ghost prev = r@;
            r.push(t);
            proof {
                assert(r@.map_values(|t2: String| t2@) =~= prev.map_values(|t2: String| t2@)
                    + seq![t@]);
            }
            i = j;
        }
    }
    proof {
        assert(tokens(s@) =~= r@.map_values(|t: String| t@));
    }
    r
}

/// Fixed-point scale of a vertex scalar: the stored value is the numeral
/// times `SCALE`, truncated toward zero.
pub const SCALE: i64 = 1000000;

/// Magnitude bound of a stored scalar. A numeral beyond it is clamped, which
/// cannot change the rendered output: any coordinate this far outside the
/// normalized `[-1, +1]` range projects outside every image.
pub const COORD_MAX: i64 = 1000000000000000;

pub open spec fn is_digit(c: char) -> bool {
    '0' <= c && c <= '9'
}

pub open spec fn digit_val(c: char) -> int {
    c as int - '0' as int
}

pub open spec fn all_digits(s: Seq<char>) -> bool {
    forall|i: int| 0 <= i < s.len() ==> is_digit(#[trigger] s[i])
}

/// The value of a digit string, most significant digit first.
pub open spec fn digits_val(s: Seq<char>) -> int
    decreases s.len(),
{
    if s.len() == 0 {
        0
    } else {
        digits_val(s.drop_last()) * 10 + digit_val(s.last())
    }
}

pub proof fn lemma_digits_val_nonneg(s: Seq<char>)
    requires
        all_digits(s),
    ensures
        digits_val(s) >= 0,
    decreases s.len(),
{
    if s.len() > 0 {
        assert(all_digits(s.drop_last()));
        lemma_digits_val_nonneg(s.drop_last());
    }
}

pub open spec fn pow10(n: nat) -> int
    decreases n,
{
    if n == 0 {
        1
    } else {
        10 * pow10((n - 1) as nat)
    }
}

/// The first position at or after `i` where `stop` occurs, or the end.
pub open spec fn scan_to(s: Seq<char>, i: int, stop: char) -> int
    decreases s.len() - i,
{
    if i >= s.len() || s[i] == stop {
        i
    } else {
        scan_to(s, i + 1, stop)
    }
}

proof fn lemma_scan_to_found(s: Seq<char>, i: int, j: int, stop: char)
    requires
        0 <= i <= j <= s.len(),
        forall|t: int| i <= t < j ==> #[trigger] s[t] != stop,
        j == s.len() || s[j] == stop,
    ensures
        scan_to(s, i, stop) == j,
    decreases j - i,
{
    if i < j {
        lemma_scan_to_found(s, i + 1, j, stop);
    }
}

/// Cap a nonnegative accumulator at `cap`.
pub open spec fn cap_at(v: int, cap: int) -> int {
    if v > cap {
        cap
    } else {
        v
    }
}

/// Appending a digit commutes with capping: the capped accumulator can be
/// maintained without ever computing the uncapped value.
proof fn lemma_cap_step(v: int, d: int, cap: int)
    requires
        0 <= v,
        0 <= d < 10,
        1 <= cap,
    ensures
        cap_at(v * 10 + d, cap) == (if cap_at(v, cap) * 10 + d > cap {
            cap
        } else {
            cap_at(v, cap) * 10 + d
        }),
{
    if v > cap {
        assert(v * 10 + d > cap) by (nonlinear_arith)
            requires
                v > cap,
                0 <= d,
                1 <= cap,
        ;
        assert(cap * 10 + d > cap) by (nonlinear_arith)
            requires
                0 <= d,
                1 <= cap,
        ;
    }
}

/// The fraction digits of a numeral, scaled to six fixed-point places:
/// digits beyond the sixth are truncated (toward zero), shorter fractions
/// are padded.
pub open spec fn frac_scaled(fp: Seq<char>) -> int {
    if fp.len() >= 6 {
        digits_val(fp.subrange(0, 6))
    } else {
        digits_val(fp) * pow10((6 - fp.len()) as nat)
    }
}

/// The value of a scalar numeral, scaled by `SCALE`, truncated toward zero
/// and clamped to `[-COORD_MAX, COORD_MAX]`; `None` where the token is not a
/// numeral: an optional sign, then decimal digits with at most one decimal
/// point and at least one digit in all.
pub open spec fn numeral_value(s: Seq<char>) -> Option<int> {
    let b: int = if s.len() > 0 && (s[0] == '+' || s[0] == '-') {
        1
    } else {
        0
    };
    let neg = s.len() > 0 && s[0] == '-';
    let d = scan_to(s, b, '.');
    let ip = s.subrange(b, d);
    let fp = if d < s.len() {
        s.subrange(d + 1, s.len() as int)
    } else {
        Seq::<char>::empty()
    };
    if all_digits(ip) && all_digits(fp) && ip.len() + fp.len() > 0 {
        let m = cap_at(digits_val(ip) * (SCALE as int) + frac_scaled(fp), COORD_MAX as int);
        Some(
            if neg {
                -m
            } else {
                m
            },
        )
    } else {
        None
    }
}

/// The value of a face-index numeral: an optional plus sign, then decimal
/// digits; `None` where a digit is missing, another character appears, or
/// the value exceeds the index type.
pub open spec fn index_value(s: Seq<char>) -> Option<int> {
    let b: int = if s.len() > 0 && s[0] == '+' {
        1
    } else {
        0
    };
    let ds = s.subrange(b, s.len() as int);
    if ds.len() > 0 && all_digits(ds) && digits_val(ds) <= usize::MAX {
        Some(digits_val(ds))
    } else {
        None
    }
}

proof fn lemma_scan_to_skip(s: Seq<char>, i: int, j: int, stop: char)
    requires
        0 <= i <= j <= s.len(),
        forall|t: int| i <= t < j ==> #[trigger] s[t] != stop,
    ensures
        scan_to(s, i, stop) == scan_to(s, j, stop),
    decreases j - i,
{
    if i < j {
        lemma_scan_to_skip(s, i + 1, j, stop);
    }
}

proof fn lemma_scan_to_bounds(s: Seq<char>, i: int, stop: char)
    requires
        0 <= i <= s.len(),
    ensures
        i <= scan_to(s, i, stop) <= s.len(),
    decreases s.len() - i,
{
    if i < s.len() && s[i] != stop {
        lemma_scan_to_bounds(s, i + 1, stop);
    }
}

proof fn lemma_digits_val_bound(s: Seq<char>)
    requires
        all_digits(s),
    ensures
        0 <= digits_val(s) < pow10(s.len()),
    decreases s.len(),
{
    if s.len() > 0 {
        assert(all_digits(s.drop_last()));
        lemma_digits_val_bound(s.drop_last());
    }
}

proof fn lemma_pow10_pos(n: nat)
    ensures
        pow10(n) >= 1,
    decreases n,
{
    if n > 0 {
        lemma_pow10_pos((n - 1) as nat);
    }
}

proof fn lemma_pow10_add(a: nat, b: nat)
    ensures
        pow10(a) * pow10(b) == pow10(a + b),
    decreases a,
{
    if a == 0 {
        assert(pow10(0) * pow10(b) == pow10(b)) by (nonlinear_arith)
            requires
                pow10(0) == 1,
        ;
    } else {
        lemma_pow10_add((a - 1) as nat, b);
        assert((10 * pow10((a - 1) as nat)) * pow10(b) == 10 * (pow10((a - 1) as nat) * pow10(
            b,
        ))) by (nonlinear_arith);
    }
}

/// The scaled fraction is always below one whole fixed-point unit.
proof fn lemma_frac_scaled_bound(fp: Seq<char>)
    requires
        all_digits(fp),
    ensures
        0 <= frac_scaled(fp) < 1000000,
{
    reveal_with_fuel(pow10, 8);
    if fp.len() >= 6 {
        assert(all_digits(fp.subrange(0, 6)));
        lemma_digits_val_bound(fp.subrange(0, 6));
    } else {
        lemma_digits_val_bound(fp);
        lemma_pow10_pos((6 - fp.len()) as nat);
        lemma_pow10_add(fp.len(), (6 - fp.len()) as nat);
        assert(digits_val(fp) * pow10((6 - fp.len()) as nat) < pow10(fp.len()) * pow10(
            (6 - fp.len()) as nat,
        )) by (nonlinear_arith)
            requires
                0 <= digits_val(fp) < pow10(fp.len()),
                pow10((6 - fp.len()) as nat) >= 1,
        ;
        assert(0 <= digits_val(fp) * pow10((6 - fp.len()) as nat)) by (nonlinear_arith)
            requires
                0 <= digits_val(fp),
                pow10((6 - fp.len()) as nat) >= 1,
        ;
    }
}

/// Scan the digit run starting at `from`; its value is accumulated capped at
/// `cap`, so overlong runs saturate instead of overflowing.
fn scan_digits(s: &str, from: usize, cap: u128) -> (r: (usize, u128))
    requires
        from <= s@.len(),
        1 <= cap <= 100000000000000000000000,
    ensures
        from <= r.0 <= s@.len(),
        forall|t: int| from <= t < r.0 ==> is_digit(#[trigger] s@[t]),
        r.0 == s@.len() || !is_digit(s@[r.0 as int]),
        r.1 == cap_at(digits_val(s@.subrange(from as int, r.0 as int)), cap as int),
{
    let n = s.unicode_len();
    let mut j = from;
    let mut acc: u128 = 0;
    let mut stop = false;
    while !stop
        invariant
            s@.len() == n,
            from <= j <= n,
            forall|t: int| from <= t < j ==> is_digit(#[trigger] s@[t]),
            acc == cap_at(digits_val(s@.subrange(from as int, j as int)), cap as int),
            1 <= cap <= 100000000000000000000000,
            stop ==> j == n || !is_digit(s@[j as int]),
        decreases n - j + (if stop {
            0int
        } else {
            1
        }),
    {
        if j < n {
            let c = s.get_char(j);
            let u = c as u32;
            if 48 <= u && u <= 57 {
                let d: u128 = (u - 48) as u128;
                let ghost pre = s@.subrange(from as int, j as int);
                let ghost dv = digits_val(pre);
                proof {
                    assert(all_digits(pre));
                    lemma_digits_val_nonneg(pre);
                    lemma_cap_step(dv, d as int, cap as int);
                    assert(s@.subrange(from as int, j + 1).drop_last() =~= pre);
                    assert(s@.subrange(from as int, j + 1).last() == s@[j as int]);
                }
                let t = acc * 10 + d;
                acc = if t > cap {
                    cap
                } else {
                    t
                };
                j = j + 1;
            } else {
                stop = true;
            }
        } else {
            stop = true;
        }
    }
    (j, acc)
}

/// Scan the fraction digits starting at `from`, keeping the value of the
/// first six (later places are below the fixed-point resolution).
fn scan_frac(s: &str, from: usize) -> (r: (usize, u64, usize))
    requires
        from <= s@.len(),
    ensures
        from <= r.0 <= s@.len(),
        forall|t: int| from <= t < r.0 ==> is_digit(#[trigger] s@[t]),
        r.0 == s@.len() || !is_digit(s@[r.0 as int]),
        r.2 == (if r.0 - from >= 6 {
            6int
        } else {
            r.0 - from
        }),
        r.1 == digits_val(s@.subrange(from as int, from + r.2)),
        r.1 < 1000000,
{
    let n = s.unicode_len();
    let mut j = from;
    let mut acc: u64 = 0;
    let mut count: usize = 0;
    let mut stop = false;
    while !stop
        invariant
            s@.len() == n,
            from <= j <= n,
            forall|t: int| from <= t < j ==> is_digit(#[trigger] s@[t]),
            count == (if j - from >= 6 {
                6int
            } else {
                j - from
            }),
            acc == digits_val(s@.subrange(from as int, from + count)),
            acc < 1000000,
            stop ==> j == n || !is_digit(s@[j as int]),
        decreases n - j + (if stop {
            0int
        } else {
            1
        }),
    {
        if j < n {
            let c = s.get_char(j);
            let u = c as u32;
            if 48 <= u && u <= 57 {
                if count < 6 {
                    let d: u64 = (u - 48) as u64;
                    let ghost pre = s@.subrange(from as int, from + count);
                    proof {
                        assert(all_digits(pre));
                        lemma_digits_val_nonneg(pre);
                        assert(s@.subrange(from as int, from + count + 1).drop_last() =~= pre);
                        assert(s@.subrange(from as int, from + count + 1).last() == s@[
                            from + count]);
                        assert(all_digits(s@.subrange(from as int, from + count + 1)));
                        lemma_digits_val_bound(s@.subrange(from as int, from + count + 1));
                        reveal_with_fuel(pow10, 8);
                    }
                    acc = acc * 10 + d;
                    count = count + 1;
                }
                j = j + 1;
            } else {
                stop = true;
            }
        } else {
            stop = true;
        }
    }
    (j, acc, count)
}

/// Capping the integer part at ten billion commutes with scaling and the
/// final clamp: a capped integer part already lies beyond `COORD_MAX`.
proof fn lemma_scaled_cap(dv: int, fs: int)
    requires
        0 <= dv,
        0 <= fs < 1000000,
    ensures
        cap_at(cap_at(dv, 10000000000) * 1000000 + fs, 1000000000000000) == cap_at(
            dv * 1000000 + fs,
            1000000000000000,
        ),
{
    if dv > 10000000000 {
        assert(dv * 1000000 > 10000000000 * 1000000) by (nonlinear_arith)
            requires
                dv > 10000000000,
        ;
    }
}

/// A digit is never a separator character.
proof fn lemma_digits_not(s: Seq<char>, lo: int, hi: int, stop: char)
    requires
        0 <= lo <= hi <= s.len(),
        forall|t: int| lo <= t < hi ==> is_digit(#[trigger] s[t]),
        !is_digit(stop),
    ensures
        forall|t: int| lo <= t < hi ==> #[trigger] s[t] != stop,
{
}

/// Parse a scalar numeral into its fixed-point value.
pub fn parse_scalar(s: &str) -> (r: Option<i64>)
    ensures
        r is Some <==> numeral_value(s@) is Some,
        r is Some ==> r.unwrap() as int == numeral_value(s@).unwrap(),
{
    let n = s.unicode_len();
    let mut start: usize = 0;
    let mut neg = false;
    if n > 0 {
        let c0 = s.get_char(0);
        if c0 == '+' || c0 == '-' {
            neg = c0 == '-';
            start = 1;
        }
    }
    let ghost b: int = start as int;
    let (i0, acc) = scan_digits(s, start, 10000000000);
    proof {
        lemma_digits_not(s@, b, i0 as int, '.');
    }
    let mut fr: u64 = 0;
    let mut fcnt: usize = 0;
    let mut fempty = true;
    if i0 < n {
        let c = s.get_char(i0);
        if c != '.' {
            proof {
                lemma_scan_to_skip(s@, b, i0 as int, '.');
                lemma_scan_to_bounds(s@, i0 + 1, '.');
                let d = scan_to(s@, b, '.');
                assert(!is_digit(s@.subrange(b, d)[i0 - b]));
            }
            return None;
        }
        proof {
            lemma_scan_to_found(s@, b, i0 as int, '.');
        }
        let (i1, fr1, fcnt1) = scan_frac(s, i0 + 1);
        if i1 < n {
            proof {
                let fp = s@.subrange(i0 + 1, n as int);
                assert(!is_digit(fp[i1 - (i0 + 1)]));
            }
            return None;
        }
        fr = fr1;
        fcnt = fcnt1;
        fempty = i1 == i0 + 1;
    } else {
        proof {
            lemma_scan_to_found(s@, b, n as int, '.');
        }
    }
    if i0 == start && fempty {
        return None;
    }
    let ghost d = scan_to(s@, b, '.');
    let ghost ip = s@.subrange(b, d);
    let ghost fp = if d < s@.len() {
        s@.subrange(d + 1, s@.len() as int)
    } else {
        Seq::<char>::empty()
    };
    proof {
        assert(all_digits(ip));
        assert(all_digits(fp));
        lemma_digits_val_nonneg(ip);
        lemma_frac_scaled_bound(fp);
        if i0 < n {
            if fp.len() >= 6 {
                assert(fp.subrange(0, 6) =~= s@.subrange(i0 + 1, i0 + 1 + 6));
            } else {
                assert(fp =~= s@.subrange(i0 + 1, i0 + 1 + fcnt));
            }
        }
        reveal_with_fuel(pow10, 8);
    }
    let mult = pow10_small(6 - fcnt);
    let fs: i64 = (fr as i64) * (mult as i64);
    proof {
        assert(fs == frac_scaled(fp));
        lemma_scaled_cap(digits_val(ip), fs as int);
    }
    let t: i64 = (acc as i64) * SCALE + fs;
    let v: i64 = if t > COORD_MAX {
        COORD_MAX
    } else {
        t
    };
    if neg {
        Some(-v)
    } else {
        Some(v)
    }
}

/// Parse a face-index numeral.
pub fn parse_index(s: &str) -> (r: Option<usize>)
    ensures
        r is Some <==> index_value(s@) is Some,
        r is Some ==> r.unwrap() as int == index_value(s@).unwrap(),
{
    let n = s.unicode_len();
    let mut start: usize = 0;
    if n > 0 && s.get_char(0) == '+' {
        start = 1;
    }
    let ghost b: int = start as int;
    let ghost ds = s@.subrange(b, s@.len() as int);
    let (i0, acc) = scan_digits(s, start, 20000000000000000000);
    if i0 < n {
        proof {
            assert(!is_digit(ds[i0 - b]));
        }
        return None;
    }
    if i0 == start {
        return None;
    }
    proof {
        assert(ds =~= s@.subrange(b, i0 as int));
        lemma_digits_val_bound(ds);
    }
    if acc > usize::MAX as u128 {
        return None;
    }
    Some(acc as usize)
}

/// `pow10` for the fixed-point padding of a short fraction.
fn pow10_small(e: usize) -> (r: u64)
    requires
        e <= 6,
    ensures
        r == pow10(e as nat),
        r <= 1000000,
{
    proof {
        reveal_with_fuel(pow10, 8);
    }
    let mut r: u64 = 1;
    let mut k: usize = 0;
    while k < e
        invariant
            k <= e <= 6,
            r == pow10(k as nat),
            r <= 1000000,
        decreases e - k,
    {
        proof {
            reveal_with_fuel(pow10, 8);
            lemma_pow10_pos(k as nat);
            lemma_pow10_add(k as nat, 1);
            assert(pow10((k + 1) as nat) == pow10(k as nat) * 10) by {
                assert(pow10(1) == 10) by {
                    reveal_with_fuel(pow10, 2);
                }
            }
        }
        r = r * 10;
        k = k + 1;
    }
    r
}

/// A vertex position: three fixed-point scalars (the written coordinates
/// times `SCALE`, truncated and clamped).
#[derive(Clone, Copy, PartialEq, Eq, Structural, Debug)]
pub struct Vert {
    pub x: i64,
    pub y: i64,
    pub z: i64,
}

/// A scalar numeral yields a value within the clamp bounds.
pub proof fn lemma_numeral_bounds(s: Seq<char>)
    requires
        numeral_value(s) is Some,
    ensures
        -(COORD_MAX as int) <= numeral_value(s)->Some_0 <= COORD_MAX as int,
{
    let b: int = if s.len() > 0 && (s[0] == '+' || s[0] == '-') {
        1
    } else {
        0
    };
    let d = scan_to(s, b, '.');
    let ip = s.subrange(b, d);
    let fp = if d < s.len() {
        s.subrange(d + 1, s.len() as int)
    } else {
        Seq::<char>::empty()
    };
    lemma_digits_val_nonneg(ip);
    lemma_frac_scaled_bound(fp);
    assert(digits_val(ip) * (SCALE as int) >= 0) by (nonlinear_arith)
        requires
            digits_val(ip) >= 0,
            SCALE as int > 0,
    ;
}

/// A triangular face: three 0-based indices into the vertex array.
#[derive(Clone, Copy, PartialEq, Eq, Debug)]
pub struct Face {
    pub vertices: (usize, usize, usize),
}

/// A mesh: the vertices and faces read from an OBJ file, in file order.
#[derive(Debug)]
pub struct Obj {
    pub vertices: Vec<Vert>,
    pub faces: Vec<Face>,
}

/// An edge between two vertex positions.
#[derive(Clone, Copy, PartialEq, Eq, Structural, Debug)]
pub struct Line(pub Vert, pub Vert);

/// A triangle given by its three corner positions.
#[derive(Clone, Copy, PartialEq, Eq, Structural, Debug)]
pub struct Tri(pub Vert, pub Vert, pub Vert);

impl Tri {
    /// The three directed edges of the triangle.
    pub fn lines(&self) -> (r: Vec<Line>)
        ensures
            r@.len() == 3,
            r@[0] == Line(self.0, self.1),
            r@[1] == Line(self.1, self.2),
            r@[2] == Line(self.2, self.0),
    {
        let mut r: Vec<Line> = Vec::new();
        r.push(Line(self.0, self.1));
        r.push(Line(self.1, self.2));
        r.push(Line(self.2, self.0));
        r
    }
}

/// What a `v` statement's payload denotes: a vertex read from the three
/// leading tokens (any further tokens are ignored), or the first error, in
/// reading order.
pub open spec fn spec_parse_vert(s: Seq<char>) -> Result<Vert, ObjError> {
    let ts = tokens(s);
    if ts.len() < 1 {
        Err(ObjError::MissingCoord(Axis::X))
    } else if numeral_value(ts[0]) is None {
        Err(ObjError::InvalidCoord(Axis::X))
    } else if ts.len() < 2 {
        Err(ObjError::MissingCoord(Axis::Y))
    } else if numeral_value(ts[1]) is None {
        Err(ObjError::InvalidCoord(Axis::Y))
    } else if ts.len() < 3 {
        Err(ObjError::MissingCoord(Axis::Z))
    } else if numeral_value(ts[2]) is None {
        Err(ObjError::InvalidCoord(Axis::Z))
    } else {
        Ok(
            Vert {
                x: numeral_value(ts[0])->Some_0 as i64,
                y: numeral_value(ts[1])->Some_0 as i64,
                z: numeral_value(ts[2])->Some_0 as i64,
            },
        )
    }
}

impl Vert {
    /// Parse the payload of a `v` statement.
    pub fn parse(s: &str) -> (r: Result<Vert, ObjError>)
        ensures
            r == spec_parse_vert(s@),
    {
        let ts = tokenize(s);
        if ts.len() < 1 {
            return Err(ObjError::MissingCoord(Axis::X));
        }
        let x = match parse_scalar(ts[0].as_str()) {
            Some(v) => v,
            None => {
                return Err(ObjError::InvalidCoord(Axis::X));
            },
        };
        proof {
            lemma_numeral_bounds(tokens(s@)[0]);
        }
        if ts.len() < 2 {
            return Err(ObjError::MissingCoord(Axis::Y));
        }
        let y = match parse_scalar(ts[1].as_str()) {
            Some(v) => v,
            None => {
                return Err(ObjError::InvalidCoord(Axis::Y));
            },
        };
        proof {
            lemma_numeral_bounds(tokens(s@)[1]);
        }
        if ts.len() < 3 {
            return Err(ObjError::MissingCoord(Axis::Z));
        }
        let z = match parse_scalar(ts[2].as_str()) {
            Some(v) => v,
            None => {
                return Err(ObjError::InvalidCoord(Axis::Z));
            },
        };
        proof {
            lemma_numeral_bounds(tokens(s@)[2]);
        }
        Ok(Vert { x, y, z })
    }
}

/// The index denoted by a face group: the value of the group's first
/// `/`-separated segment, which must be at least one (OBJ indices are
/// 1-based; zero would underflow the stored 0-based index).
pub open spec fn group_index(g: Seq<char>) -> Option<int> {
    let seg = g.subrange(0, scan_to(g, 0, '/'));
    if index_value(seg) is Some && index_value(seg)->Some_0 >= 1 {
        index_value(seg)
    } else {
        None
    }
}

/// The first `/`-separated segment of a face group.
pub fn first_segment(g: &str) -> (r: String)
    ensures
        r@ == g@.subrange(0, scan_to(g@, 0, '/')),
{
    let n = g.unicode_len();
    let mut j: usize = 0;
    while j < n && g.get_char(j) != '/'
        invariant
            g@.len() == n,
            j <= n,
            forall|t: int| 0 <= t < j ==> #[trigger] g@[t] != '/',
        decreases n - j,
    {
        j = j + 1;
    }
    proof {
        lemma_scan_to_found(g@, 0, j as int, '/');
    }
    g.substring_char(0, j).to_owned()
}

/// Parse a face group into its 1-based vertex index.
fn parse_group(g: &str) -> (r: Option<usize>)
    ensures
        r is Some <==> group_index(g@) is Some,
        r is Some ==> r->Some_0 as int == group_index(g@)->Some_0,
{
    let seg = first_segment(g);
    match parse_index(seg.as_str()) {
        Some(v) => {
            if v >= 1 {
                Some(v)
            } else {
                None
            }
        },
        None => None,
    }
}

/// What an `f` statement's payload denotes: a face read from the three
/// leading groups (any further groups are ignored; the loader does not
/// polygonize), with indices converted to 0-based, or the first error.
pub open spec fn spec_parse_face(s: Seq<char>) -> Result<Face, ObjError> {
    let ts = tokens(s);
    if ts.len() < 1 {
        Err(ObjError::MissingGroup(Axis::X))
    } else if group_index(ts[0]) is None {
        Err(ObjError::InvalidIndex(Axis::X))
    } else if ts.len() < 2 {
        Err(ObjError::MissingGroup(Axis::Y))
    } else if group_index(ts[1]) is None {
        Err(ObjError::InvalidIndex(Axis::Y))
    } else if ts.len() < 3 {
        Err(ObjError::MissingGroup(Axis::Z))
    } else if group_index(ts[2]) is None {
        Err(ObjError::InvalidIndex(Axis::Z))
    } else {
        Ok(
            Face {
                vertices: (
                    (group_index(ts[0])->Some_0 - 1) as usize,
                    (group_index(ts[1])->Some_0 - 1) as usize,
                    (group_index(ts[2])->Some_0 - 1) as usize,
                ),
            },
        )
    }
}

impl Face {
    /// Parse the payload of an `f` statement.
    pub fn parse(s: &str) -> (r: Result<Face, ObjError>)
        ensures
            r == spec_parse_face(s@),
    {
        let ts = tokenize(s);
        if ts.len() < 1 {
            return Err(ObjError::MissingGroup(Axis::X));
        }
        let a = match parse_group(ts[0].as_str()) {
            Some(v) => v,
            None => {
                return Err(ObjError::InvalidIndex(Axis::X));
            },
        };
        if ts.len() < 2 {
            return Err(ObjError::MissingGroup(Axis::Y));
        }
        let b = match parse_group(ts[1].as_str()) {
            Some(v) => v,
            None => {
                return Err(ObjError::InvalidIndex(Axis::Y));
            },
        };
        if ts.len() < 3 {
            return Err(ObjError::MissingGroup(Axis::Z));
        }
        let c = match parse_group(ts[2].as_str()) {
            Some(v) => v,
            None => {
                return Err(ObjError::InvalidIndex(Axis::Z));
            },
        };
        Ok(Face { vertices: (a - 1, b - 1, c - 1) })
    }
}

/// A line contributes a vertex exactly when it begins with `v` and a space.
pub open spec fn is_vertex_line(l: Seq<char>) -> bool {
    l.len() >= 2 && l[0] == 'v' && l[1] == ' '
}

/// A line contributes a face exactly when it begins with `f` and a space.
pub open spec fn is_face_line(l: Seq<char>) -> bool {
    l.len() >= 2 && l[0] == 'f' && l[1] == ' '
}

/// The statement payload: everything after the two-character prefix.
pub open spec fn line_payload(l: Seq<char>) -> Seq<char> {
    l.subrange(2, l.len() as int)
}

/// One line's effect on the mesh built so far: a parsed vertex or face is
/// appended; any line that is not a `v` or `f` statement is skipped.
pub open spec fn spec_add(vs: Seq<Vert>, fs: Seq<Face>, l: Seq<char>) -> Result<
    (Seq<Vert>, Seq<Face>),
    ObjError,
> {
    if is_vertex_line(l) {
        match spec_parse_vert(line_payload(l)) {
            Ok(v) => Ok((vs.push(v), fs)),
            Err(e) => Err(e),
        }
    } else if is_face_line(l) {
        match spec_parse_face(line_payload(l)) {
            Ok(f) => Ok((vs, fs.push(f))),
            Err(e) => Err(e),
        }
    } else {
        Ok((vs, fs))
    }
}

/// The mesh described by a sequence of lines, or the first format error.
pub open spec fn spec_load(ls: Seq<Seq<char>>) -> Result<(Seq<Vert>, Seq<Face>), ObjError>
    decreases ls.len(),
{
    if ls.len() == 0 {
        Ok((Seq::empty(), Seq::empty()))
    } else {
        match spec_load(ls.drop_last()) {
            Ok(m) => spec_add(m.0, m.1, ls.last()),
            Err(e) => Err(e),
        }
    }
}

/// Once a prefix of the lines fails, the whole load fails with that error.
proof fn lemma_load_err_sticks(ls: Seq<Seq<char>>, j: int)
    requires
        0 <= j <= ls.len(),
        spec_load(ls.take(j)) is Err,
    ensures
        spec_load(ls) == spec_load(ls.take(j)),
    decreases ls.len() - j,
{
    if j < ls.len() {
        assert(ls.take(j + 1).drop_last() =~= ls.take(j));
        lemma_load_err_sticks(ls, j + 1);
    } else {
        assert(ls.take(j) =~= ls);
    }
}

/// How many lines of the file are `v` statements.
pub open spec fn count_vertex_lines(ls: Seq<Seq<char>>) -> int
    decreases ls.len(),
{
    if ls.len() == 0 {
        0
    } else {
        count_vertex_lines(ls.drop_last()) + (if is_vertex_line(ls.last()) {
            1int
        } else {
            0
        })
    }
}

/// How many lines of the file are `f` statements.
pub open spec fn count_face_lines(ls: Seq<Seq<char>>) -> int
    decreases ls.len(),
{
    if ls.len() == 0 {
        0
    } else {
        count_face_lines(ls.drop_last()) + (if is_face_line(ls.last()) {
            1int
        } else {
            0
        })
    }
}

/// Round trip: a successful load yields exactly one vertex per `v` line and
/// one face per `f` line of the input.
pub proof fn lemma_load_counts(ls: Seq<Seq<char>>)
    requires
        spec_load(ls) is Ok,
    ensures
        spec_load(ls)->Ok_0.0.len() == count_vertex_lines(ls),
        spec_load(ls)->Ok_0.1.len() == count_face_lines(ls),
    decreases ls.len(),
{
    if ls.len() > 0 {
        lemma_load_counts(ls.drop_last());
    }
}

/// The parses of a file's `v` statements, in file order.
pub open spec fn vertex_parses(ls: Seq<Seq<char>>) -> Seq<Vert>
    decreases ls.len(),
{
    if ls.len() == 0 {
        Seq::empty()
    } else if is_vertex_line(ls.last()) {
        vertex_parses(ls.drop_last()).push(spec_parse_vert(line_payload(ls.last()))->Ok_0)
    } else {
        vertex_parses(ls.drop_last())
    }
}

/// The parses of a file's `f` statements, in file order.
pub open spec fn face_parses(ls: Seq<Seq<char>>) -> Seq<Face>
    decreases ls.len(),
{
    if ls.len() == 0 {
        Seq::empty()
    } else if is_face_line(ls.last()) {
        face_parses(ls.drop_last()).push(spec_parse_face(line_payload(ls.last()))->Ok_0)
    } else {
        face_parses(ls.drop_last())
    }
}

/// Round trip: a successful load yields, in file order, exactly the parses
/// of the `v` lines as its vertices and of the `f` lines as its faces.
pub proof fn lemma_load_round_trip(ls: Seq<Seq<char>>)
    requires
        spec_load(ls) is Ok,
    ensures
        spec_load(ls)->Ok_0.0 == vertex_parses(ls),
        spec_load(ls)->Ok_0.1 == face_parses(ls),
    decreases ls.len(),
{
    if ls.len() == 0 {
        assert(vertex_parses(ls) =~= Seq::<Vert>::empty());
        assert(face_parses(ls) =~= Seq::<Face>::empty());
    } else {
        let pre = ls.drop_last();
        let l = ls.last();
        lemma_load_round_trip(pre);
        if is_vertex_line(l) {
            assert(vertex_parses(ls) =~= vertex_parses(pre).push(
                spec_parse_vert(line_payload(l))->Ok_0,
            ));
            assert(face_parses(ls) =~= face_parses(pre));
        } else if is_face_line(l) {
            assert(face_parses(ls) =~= face_parses(pre).push(
                spec_parse_face(line_payload(l))->Ok_0,
            ));
            assert(vertex_parses(ls) =~= vertex_parses(pre));
        } else {
            assert(vertex_parses(ls) =~= vertex_parses(pre));
            assert(face_parses(ls) =~= face_parses(pre));
        }
    }
}

/// Round trip: a parsed face stores the 1-based indices written in its three
/// groups, each reduced by one.
pub proof fn lemma_face_indices(s: Seq<char>)
    requires
        spec_parse_face(s) is Ok,
    ensures
        tokens(s).len() >= 3,
        group_index(tokens(s)[0]) is Some,
        group_index(tokens(s)[1]) is Some,
        group_index(tokens(s)[2]) is Some,
        spec_parse_face(s)->Ok_0.vertices.0 + 1 == group_index(tokens(s)[0])->Some_0,
        spec_parse_face(s)->Ok_0.vertices.1 + 1 == group_index(tokens(s)[1])->Some_0,
        spec_parse_face(s)->Ok_0.vertices.2 + 1 == group_index(tokens(s)[2])->Some_0,
{
}

/// Robustness: a `v` statement with at least three scalar tokens succeeds
/// with the values of the first three; any further tokens are ignored.
pub proof fn lemma_vert_extra_tokens(s: Seq<char>)
    requires
        tokens(s).len() >= 3,
        numeral_value(tokens(s)[0]) is Some,
        numeral_value(tokens(s)[1]) is Some,
        numeral_value(tokens(s)[2]) is Some,
    ensures
        spec_parse_vert(s) == Ok::<Vert, ObjError>(
            Vert {
                x: numeral_value(tokens(s)[0])->Some_0 as i64,
                y: numeral_value(tokens(s)[1])->Some_0 as i64,
                z: numeral_value(tokens(s)[2])->Some_0 as i64,
            },
        ),
{
}

/// Robustness: a line that is not a `v` or `f` statement (a comment, `vn`,
/// `vt`, `g`, `s`, a blank line) never changes what a load yields, wherever
/// it stands in the file.
pub proof fn lemma_skip_line(ls: Seq<Seq<char>>, i: int, l: Seq<char>)
    requires
        0 <= i <= ls.len(),
        !is_vertex_line(l),
        !is_face_line(l),
    ensures
        spec_load(ls.insert(i, l)) == spec_load(ls),
    decreases ls.len(),
{
    let ls2 = ls.insert(i, l);
    if i == ls.len() {
        assert(ls2.drop_last() =~= ls);
        assert(ls2.last() == l);
    } else {
        assert(ls2.drop_last() =~= ls.drop_last().insert(i, l));
        assert(ls2.last() == ls.last());
        lemma_skip_line(ls.drop_last(), i, l);
    }
}

proof fn lemma_token_end_trailing(s: Seq<char>, c: char, i: int)
    requires
        is_space(c),
        0 <= i <= s.len(),
    ensures
        token_end(s.push(c), i) == token_end(s, i),
    decreases s.len() - i,
{
    if i < s.len() && !is_space(s[i]) {
        lemma_token_end_trailing(s, c, i + 1);
    }
}

proof fn lemma_tokens_from_trailing(s: Seq<char>, c: char, i: int)
    requires
        is_space(c),
        0 <= i <= s.len(),
    ensures
        tokens_from(s.push(c), i) == tokens_from(s, i),
    decreases s.len() - i,
{
    let s2 = s.push(c);
    if i == s.len() {
        assert(s2[i] == c);
        assert(is_space(s2[i]));
        assert(tokens_from(s2, i) == tokens_from(s2, i + 1));
    } else if is_space(s[i]) {
        assert(s2[i] == s[i]);
        lemma_tokens_from_trailing(s, c, i + 1);
    } else {
        assert(s2[i] == s[i]);
        lemma_token_end_bounds(s, i);
        lemma_token_end_trailing(s, c, i);
        let e = token_end(s, i);
        assert(s2.subrange(i, e) =~= s.subrange(i, e));
        lemma_tokens_from_trailing(s, c, e);
        assert(tokens_from(s2, i) == seq![s2.subrange(i, e)] + tokens_from(s2, e));
        assert(tokens_from(s, i) == seq![s.subrange(i, e)] + tokens_from(s, e));
    }
}

/// Robustness: trailing whitespace does not change a line's tokens, and so
/// never changes what a statement denotes.
pub proof fn lemma_trailing_space(s: Seq<char>, c: char)
    requires
        is_space(c),
    ensures
        tokens(s.push(c)) == tokens(s),
{
    lemma_tokens_from_trailing(s, c, 0);
}

impl Obj {
    /// An empty mesh.
    pub fn new() -> (o: Obj)
        ensures
            o.vertices@ == Seq::<Vert>::empty(),
            o.faces@ == Seq::<Face>::empty(),
    {
        Obj { vertices: Vec::new(), faces: Vec::new() }
    }

    /// Feed one line of an OBJ file to the mesh being built.
    pub fn add_line(&mut self, line: &str) -> (r: Result<(), ObjError>)
        ensures
            match spec_add(old(self).vertices@, old(self).faces@, line@) {
                Ok(m) => r is Ok && final(self).vertices@ == m.0 && final(self).faces@ == m.1,
                Err(e) => r == Err::<(), ObjError>(e) && final(self).vertices@ == old(
                    self,
                ).vertices@ && final(self).faces@ == old(self).faces@,
            },
    {
        let n = line.unicode_len();
        if n >= 2 {
            let c0 = line.get_char(0);
            let c1 = line.get_char(1);
            if c0 == 'v' && c1 == ' ' {
                let payload = line.substring_char(2, n);
                match Vert::parse(payload) {
                    Ok(v) => {
                        self.vertices.push(v);
                        return Ok(());
                    },
                    Err(e) => {
                        return Err(e);
                    },
                }
            }
            if c0 == 'f' && c1 == ' ' {
                let payload = line.substring_char(2, n);
                match Face::parse(payload) {
                    Ok(f) => {
                        self.faces.push(f);
                        return Ok(());
                    },
                    Err(e) => {
                        return Err(e);
                    },
                }
            }
        }
        Ok(())
    }

    /// Build a mesh from the lines of an OBJ file: `v` and `f` statements
    /// are parsed, every other line is skipped, and the first format error
    /// aborts the load.
    pub fn from_lines(lines: &Vec<String>) -> (r: Result<Obj, ObjError>)
        ensures
            match spec_load(lines@.map_values(|l: String| l@)) {
                Ok(m) => r is Ok && r->Ok_0.vertices@ == m.0 && r->Ok_0.faces@ == m.1,
                Err(e) => r is Err && r->Err_0 == e,
            },
    {
        let ghost ls = lines@.map_values(|l: String| l@);
        let mut o = Obj::new();
        let mut i: usize = 0;
        while i < lines.len()
            invariant
                i <= lines@.len(),
                ls == lines@.map_values(|l: String| l@),
                spec_load(ls.take(i as int)) == Ok::<(Seq<Vert>, Seq<Face>), ObjError>(
                    (o.vertices@, o.faces@),
                ),
            decreases lines@.len() - i,
        {
            let r = o.add_line(lines[i].as_str());
            proof {
                assert(ls.take(i + 1).drop_last() =~= ls.take(i as int));
                assert(ls.take(i + 1).last() == ls[i as int]);
            }
            match r {
                Ok(_) => {
                },
                Err(e) => {
                    proof {
                        lemma_load_err_sticks(ls, i + 1);
                    }
                    return Err(e);
                },
            }
            i = i + 1;
        }
        proof {
            assert(ls.take(ls.len() as int) =~= ls);
        }
        Ok(o)
    }
}

} // verus!

