//! Byte-level text helpers for the wire protocol: decimal formatting and
//! parsing of signed 64-bit integers, ASCII whitespace handling, ASCII case
//! folding, and whitespace tokenization of inline command lines.
use vstd::prelude::*;

verus! {

/// ASCII whitespace, the separator set for inline commands and the
/// characters trimmed around integer lines.
pub open spec fn is_ws(b: u8) -> bool {
    b == 32 || b == 9 || b == 10 || b == 12 || b == 13
}

/// ASCII decimal digit.
pub open spec fn is_digit(b: u8) -> bool {
    48 <= b <= 57
}

/// The value of one digit byte; non-digits count as zero so that the
/// accumulation below is total and monotone.
pub open spec fn digit_val(b: u8) -> int {
    if is_digit(b) {
        b - 48
    } else {
        0
    }
}

pub open spec fn all_digits(s: Seq<u8>) -> bool {
    forall|i: int| 0 <= i < s.len() ==> is_digit(#[trigger] s[i])
}

/// The number denoted by a digit string, most significant digit first.
pub open spec fn digits_val(s: Seq<u8>) -> int
    decreases s.len(),
{
    if s.len() == 0 {
        0
    } else {
        digits_val(s.drop_last()) * 10 + digit_val(s.last())
    }
}

pub proof fn lemma_digits_val_nonneg(s: Seq<u8>)
    ensures
        digits_val(s) >= 0,
    decreases s.len(),
{
    if s.len() > 0 {
        lemma_digits_val_nonneg(s.drop_last());
    }
}

/// A digit string is worth at least as much as any of its prefixes.
pub proof fn lemma_digits_val_prefix_le(s: Seq<u8>, k: int)
    requires
        0 <= k <= s.len(),
    ensures
        digits_val(s.take(k)) <= digits_val(s),
    decreases s.len(),
{
    if k == s.len() {
        assert(s.take(k) =~= s);
    } else {
        assert(s.drop_last().take(k) =~= s.take(k));
        lemma_digits_val_prefix_le(s.drop_last(), k);
        lemma_digits_val_nonneg(s.drop_last());
    }
}

/// Leading ASCII whitespace removed.
pub open spec fn trim_front(s: Seq<u8>) -> Seq<u8>
    decreases s.len(),
{
    if s.len() > 0 && is_ws(s[0]) {
        trim_front(s.drop_first())
    } else {
        s
    }
}

/// Trailing ASCII whitespace removed.
pub open spec fn trim_back(s: Seq<u8>) -> Seq<u8>
    decreases s.len(),
{
    if s.len() > 0 && is_ws(s.last()) {
        trim_back(s.drop_last())
    } else {
        s
    }
}

/// Surrounding ASCII whitespace removed.
pub open spec fn spec_trim(s: Seq<u8>) -> Seq<u8> {
    trim_back(trim_front(s))
}

/// What a protocol line means as a signed 64-bit integer: surrounding
/// whitespace is ignored, an optional `+` or `-` sign precedes at least one
/// digit, and the value must fit in 64 signed bits.
pub open spec fn spec_parse_i64(line: Seq<u8>) -> Option<int> {
    let t = spec_trim(line);
    if t.len() == 0 {
        None
    } else {
        let sign: int = if t[0] == 45 {
            -1
        } else {
            1
        };
        let ds = if t[0] == 45 || t[0] == 43 {
            t.drop_first()
        } else {
            t
        };
        if ds.len() == 0 || !all_digits(ds) {
            None
        } else {
            let v = sign * digits_val(ds);
            if -0x8000_0000_0000_0000 <= v <= 0x7fff_ffff_ffff_ffff {
                Some(v)
            } else {
                None
            }
        }
    }
}

/// The canonical decimal digit string of a non-negative number.
pub open spec fn spec_udec(n: nat) -> Seq<u8>
    decreases n,
{
    if n < 10 {
        seq![(48 + n) as u8]
    } else {
        spec_udec(n / 10).push((48 + n % 10) as u8)
    }
}

/// The canonical decimal representation of an integer, with a `-` sign
/// when negative.
pub open spec fn spec_idec(i: int) -> Seq<u8> {
    if i < 0 {
        seq![45u8] + spec_udec((-i) as nat)
    } else {
        spec_udec(i as nat)
    }
}

pub proof fn lemma_udec_digits(n: nat)
    ensures
        spec_udec(n).len() > 0,
        all_digits(spec_udec(n)),
        digits_val(spec_udec(n)) == n,
    decreases n,
{
    if n < 10 {
        let d = ((48 + n) as u8);
        assert(d == 48 + n);
        assert(is_digit(d));
        assert(spec_udec(n) == seq![d]);
        assert(spec_udec(n).last() == d);
        assert(spec_udec(n).drop_last() =~= Seq::<u8>::empty());
        assert(digits_val(Seq::<u8>::empty()) == 0);
        assert(digits_val(spec_udec(n)) == digit_val(d));
    } else {
        lemma_udec_digits(n / 10);
        let d = ((48 + n % 10) as u8);
        assert(d == 48 + n % 10);
        assert(is_digit(d));
        assert(spec_udec(n) == spec_udec(n / 10).push(d));
        assert(spec_udec(n).drop_last() =~= spec_udec(n / 10));
        assert(spec_udec(n).last() == d);
        assert(digits_val(spec_udec(n)) == digits_val(spec_udec(n / 10)) * 10 + digit_val(d));
        assert((n / 10) * 10 + n % 10 == n);
        assert forall|i: int| 0 <= i < spec_udec(n).len() implies is_digit(
            #[trigger] spec_udec(n)[i],
        ) by {
            if i < spec_udec(n / 10).len() {
                assert(spec_udec(n)[i] == spec_udec(n / 10)[i]);
            }
        }
    }
}

/// Parsing the canonical decimal form of an in-range integer gives the
/// integer back.
pub proof fn lemma_parse_idec(v: int)
    requires
        -0x8000_0000_0000_0000 <= v <= 0x7fff_ffff_ffff_ffff,
    ensures
        spec_parse_i64(spec_idec(v)) == Some(v),
{
    let s = spec_idec(v);
    if v < 0 {
        let mag = (-v) as nat;
        lemma_udec_digits(mag);
        let u = spec_udec(mag);
        assert(s == seq![45u8] + u);
        assert(s.len() == 1 + u.len());
        assert(s[0] == 45);
        assert(!is_ws(s[0]));
        assert(s.last() == u.last());
        assert(u.last() == u[u.len() - 1]);
        assert(is_digit(u.last()));
        assert(!is_ws(s.last()));
        assert(trim_front(s) == s);
        assert(trim_back(s) == s);
        assert(s.drop_first() =~= u);
        lemma_digits_val_nonneg(u);
        let t = spec_trim(s);
        assert(t == s);
        assert(t[0] == 45);
        let ds2 = t.drop_first();
        assert(ds2 == u);
        assert(all_digits(ds2) && ds2.len() > 0);
        assert(digits_val(ds2) == mag);
        assert(-1 * digits_val(ds2) == v);
        assert(spec_parse_i64(s) == Some(-1 * digits_val(ds2)));
    } else {
        lemma_udec_digits(v as nat);
        let u = spec_udec(v as nat);
        assert(s == u);
        assert(is_digit(u[0]));
        assert(!is_ws(s[0]));
        assert(is_digit(u[u.len() - 1]));
        assert(u.last() == u[u.len() - 1]);
        assert(!is_ws(s.last()));
        assert(trim_front(s) == s);
        assert(trim_back(s) == s);
        assert(s[0] != 45 && s[0] != 43);
        let t = spec_trim(s);
        assert(t == s);
        assert(all_digits(t) && t.len() > 0);
        assert(1 * digits_val(t) == v);
        assert(spec_parse_i64(s) == Some(1 * digits_val(t)));
    }
}

/// Appends the decimal digits of `n` to `out`.
pub fn fmt_u64(n: u64, out: &mut Vec<u8>)
    ensures
        final(out)@ == old(out)@ + spec_udec(n as nat),
    decreases n,
{
    if n < 10 {
        out.push(48 + (n as u8));
        proof {
            assert(final(out)@ =~= old(out)@ + spec_udec(n as nat));
        }
    } else {
        fmt_u64(n / 10, out);
        out.push(48 + ((n % 10) as u8));
        proof {
            assert(final(out)@ =~= old(out)@ + spec_udec(n as nat));
        }
    }
}

/// Appends the decimal form of `i`, with a `-` sign when negative.
pub fn fmt_i64(i: i64, out: &mut Vec<u8>)
    ensures
        final(out)@ == old(out)@ + spec_idec(i as int),
{
    if i >= 0 {
        fmt_u64(i as u64, out);
    } else {
        out.push(45);
        let mag: u64 = (-(i as i128)) as u64;
        assert(mag as nat == (-(i as int)) as nat);
        fmt_u64(mag, out);
        proof {
            assert(final(out)@ =~= old(out)@ + spec_idec(i as int));
        }
    }
}

/// Appends the decimal digits of a length.
pub fn fmt_usize(n: usize, out: &mut Vec<u8>)
    ensures
        final(out)@ == old(out)@ + spec_udec(n as nat),
{
    fmt_u64(n as u64, out);
}

/// Whether a byte is ASCII whitespace.
pub fn is_ws_byte(b: u8) -> (r: bool)
    ensures
        r == is_ws(b),
{
    b == 32 || b == 9 || b == 10 || b == 12 || b == 13
}

/// Reads a protocol line as a signed 64-bit integer, exactly as
/// [`spec_parse_i64`] describes.
#[verifier::rlimit(60)]
pub fn parse_i64(s: &[u8]) -> (r: Option<i64>)
    ensures
        match spec_parse_i64(s@) {
            Some(v) => r is Some && r.unwrap() as int == v,
            None => r is None,
        },
{
    let ghost whole = s@;
    let mut lo: usize = 0;
    let mut hi: usize = s.len();
    proof {
        assert(whole.subrange(0, s.len() as int) =~= whole);
    }
    while lo < hi && is_ws_byte(s[lo])
        invariant
            0 <= lo <= hi <= s.len(),
            hi == s.len(),
            trim_front(whole) == trim_front(whole.subrange(lo as int, hi as int)),
            whole == s@,
        decreases hi - lo,
    {
        proof {
            let cur = whole.subrange(lo as int, hi as int);
            assert(cur[0] == whole[lo as int]);
            assert(cur.drop_first() =~= whole.subrange(lo as int + 1, hi as int));
        }
        lo = lo + 1;
    }
    proof {
        let cur = whole.subrange(lo as int, hi as int);
        assert(cur.len() == 0 || !is_ws(cur[0]));
        assert(trim_front(whole) == cur);
    }
    while lo < hi && is_ws_byte(s[hi - 1])
        invariant
            0 <= lo <= hi <= s.len(),
            spec_trim(whole) == trim_back(whole.subrange(lo as int, hi as int)),
            whole == s@,
            hi > lo ==> !is_ws(whole[lo as int]),
        decreases hi,
    {
        proof {
            let cur = whole.subrange(lo as int, hi as int);
            assert(cur.last() == whole[hi - 1]);
            assert(cur.drop_last() =~= whole.subrange(lo as int, hi as int - 1));
        }
        hi = hi - 1;
    }
    proof {
        let cur = whole.subrange(lo as int, hi as int);
        assert(cur.len() == 0 || !is_ws(cur.last()));
        assert(trim_back(cur) == cur);
        assert(spec_trim(whole) == cur);
    }
    let ghost t = whole.subrange(lo as int, hi as int);
    if lo == hi {
        proof {
            assert(t.len() == 0);
        }
        return None;
    }
    let mut neg: bool = false;
    let first = s[lo];
    if first == 45 {
        neg = true;
        lo = lo + 1;
    } else if first == 43 {
        lo = lo + 1;
    }
    proof {
        assert(t[0] == first);
        if first == 45 || first == 43 {
            assert(t.drop_first() =~= whole.subrange(lo as int, hi as int));
        }
    }
    let ghost ds = whole.subrange(lo as int, hi as int);
    if lo == hi {
        return None;
    }
    let limit: u64 = if neg {
        0x8000_0000_0000_0000
    } else {
        0x7fff_ffff_ffff_ffff
    };
    let mut mag: u64 = 0;
    let mut i: usize = lo;
    while i < hi
        invariant
            lo <= i <= hi <= s.len(),
            whole == s@,
            spec_trim(whole) == t,
            t.len() > 0,
            neg == (t[0] == 45),
            ds == (if t[0] == 45 || t[0] == 43 {
                t.drop_first()
            } else {
                t
            }),
            ds == whole.subrange(lo as int, hi as int),
            ds.len() > 0,
            mag as int == digits_val(ds.take(i - lo)),
            mag <= limit,
            all_digits(ds.take(i - lo)),
            limit == if neg { 0x8000_0000_0000_0000u64 } else { 0x7fff_ffff_ffff_ffffu64 },
        decreases hi - i,
    {
        let b = s[i];
        proof {
            assert(ds[i - lo] == whole[i as int]);
        }
        if b < 48 || b > 57 {
            proof {
                assert(!is_digit(ds[i - lo]));
                assert(!all_digits(ds));
            }
            return None;
        }
        let d: u64 = (b - 48) as u64;
        if mag > (limit - d) / 10 {
            proof {
                assert(mag * 10 + d > limit) by (nonlinear_arith)
                    requires
                        mag > (limit - d) / 10,
                        d <= 9,
                        limit >= d,
                ;
                assert(ds.take(i - lo + 1).drop_last() =~= ds.take(i - lo));
                assert(ds.take(i - lo + 1).last() == ds[i - lo]);
                assert(digits_val(ds.take(i - lo + 1)) == mag * 10 + d);
                assert(digits_val(ds.take(i - lo + 1)) > limit);
                lemma_digits_val_prefix_le(ds, i - lo + 1);
                assert(digits_val(ds) > limit);
                if all_digits(ds) {
                    let ds2 = if t[0] == 45 || t[0] == 43 {
                        t.drop_first()
                    } else {
                        t
                    };
                    assert(ds2 == ds);
                    assert(digits_val(ds2) > limit as int);
                    if neg {
                        assert(t[0] == 45);
                        assert(-1 * digits_val(ds2) < -0x8000_0000_0000_0000);
                    } else {
                        assert(t[0] != 45);
                        assert(1 * digits_val(ds2) > 0x7fff_ffff_ffff_ffff);
                    }
                    assert(spec_parse_i64(whole) is None);
                }
            }
            return None;
        }
        proof {
            assert(mag * 10 + d <= limit) by (nonlinear_arith)
                requires
                    mag <= (limit - d) / 10,
                    d <= 9,
                    limit >= d,
            ;
            assert(ds.take(i - lo + 1).drop_last() =~= ds.take(i - lo));
            assert(ds.take(i - lo + 1).last() == ds[i - lo]);
        }
        mag = mag * 10 + d;
        i = i + 1;
    }
    proof {
        assert(ds.take(hi - lo) =~= ds);
        assert(mag as int == digits_val(ds));
        assert(all_digits(ds));
    }
    if neg {
        let r: i64 = (-(mag as i128)) as i64;
        proof {
            assert(r as int == -1 * digits_val(ds));
        }
        Some(r)
    } else {
        let r: i64 = mag as i64;
        proof {
            assert(r as int == 1 * digits_val(ds));
        }
        Some(r)
    }
}

/// ASCII upper-casing of one byte.
pub open spec fn spec_upper(b: u8) -> u8 {
    if 97 <= b <= 122 {
        (b - 32) as u8
    } else {
        b
    }
}

/// ASCII upper-casing of a byte string, the sense in which command names
/// are matched case-insensitively.
pub open spec fn spec_upper_seq(s: Seq<u8>) -> Seq<u8> {
    s.map_values(|b: u8| spec_upper(b))
}

/// Whether `name`, upper-cased, is exactly `target`.
pub fn upper_eq(name: &[u8], target: &[u8]) -> (r: bool)
    ensures
        r == (spec_upper_seq(name@) == target@),
{
    if name.len() != target.len() {
        proof {
            assert(spec_upper_seq(name@).len() == name@.len());
        }
        return false;
    }
    let n = name.len();
    let mut i: usize = 0;
    while i < n
        invariant
            0 <= i <= n,
            n == name@.len() == target@.len(),
            forall|j: int| 0 <= j < i ==> spec_upper(name@[j]) == target@[j],
        decreases n - i,
    {
        let mut b = name[i];
        if b >= 97 && b <= 122 {
            b = b - 32;
        }
        if b != target[i] {
            proof {
                assert(spec_upper_seq(name@)[i as int] == spec_upper(name@[i as int]));
            }
            return false;
        }
        i = i + 1;
    }
    proof {
        assert(spec_upper_seq(name@) =~= target@);
    }
    true
}

/// Whether two byte strings are equal.
pub fn bytes_eq(a: &[u8], b: &[u8]) -> (r: bool)
    ensures
        r == (a@ == b@),
{
    if a.len() != b.len() {
        return false;
    }
    let n = a.len();
    let mut i: usize = 0;
    while i < n
        invariant
            0 <= i <= n,
            n == a@.len() == b@.len(),
            forall|j: int| 0 <= j < i ==> a@[j] == b@[j],
        decreases n - i,
    {
        if a[i] != b[i] {
            return false;
        }
        i = i + 1;
    }
    proof {
        assert(a@ =~= b@);
    }
    true
}

/// The first non-whitespace position at or after `i`.
pub open spec fn skip_ws(s: Seq<u8>, i: int) -> int
    decreases s.len() - i,
{
    if 0 <= i < s.len() && is_ws(s[i]) {
        skip_ws(s, i + 1)
    } else {
        i
    }
}

/// The first whitespace position (or the end) at or after `i`.
pub open spec fn scan_token(s: Seq<u8>, i: int) -> int
    decreases s.len() - i,
{
    if 0 <= i < s.len() && !is_ws(s[i]) {
        scan_token(s, i + 1)
    } else {
        i
    }
}

pub proof fn lemma_skip_ws_bounds(s: Seq<u8>, i: int)
    requires
        0 <= i <= s.len(),
    ensures
        i <= skip_ws(s, i) <= s.len(),
        skip_ws(s, i) < s.len() ==> !is_ws(s[skip_ws(s, i)]),
    decreases s.len() - i,
{
    if i < s.len() && is_ws(s[i]) {
        lemma_skip_ws_bounds(s, i + 1);
    }
}

pub proof fn lemma_scan_token_bounds(s: Seq<u8>, i: int)
    requires
        0 <= i <= s.len(),
    ensures
        i <= scan_token(s, i) <= s.len(),
        i < s.len() && !is_ws(s[i]) ==> scan_token(s, i) >= i + 1,
        scan_token(s, i) < s.len() ==> is_ws(s[scan_token(s, i)]),
    decreases s.len() - i,
{
    if i < s.len() && !is_ws(s[i]) {
        lemma_scan_token_bounds(s, i + 1);
    }
}

/// The whitespace-separated tokens of `s` at or after position `i`.
pub open spec fn tokens_from(s: Seq<u8>, i: int) -> Seq<Seq<u8>>
    decreases s.len() - i,
    when 0 <= i <= s.len()
    via tokens_from_decreases
{
    let j = skip_ws(s, i);
    if j >= s.len() {
        Seq::empty()
    } else {
        let k = scan_token(s, j);
        seq![s.subrange(j, k)] + tokens_from(s, k)
    }
}

#[via_fn]
proof fn tokens_from_decreases(s: Seq<u8>, i: int) {
    lemma_skip_ws_bounds(s, i);
    let j = skip_ws(s, i);
    if j < s.len() {
        lemma_scan_token_bounds(s, j);
    }
}

/// The whitespace-separated tokens of an inline command line.
pub open spec fn spec_tokens(s: Seq<u8>) -> Seq<Seq<u8>> {
    tokens_from(s, 0)
}

} // verus!
