//! Byte-level text helpers shared by the segmenter and the parser.
//!
//! History sources hand the library plain lines of bytes; all of the
//! format work here is ASCII, so whitespace, digits and delimiters are
//! recognised at the byte level.

use vstd::prelude::*;

verus! {

/// ASCII whitespace: space, tab, line feed, vertical tab, form feed,
/// carriage return.
pub open spec fn is_ws(b: u8) -> bool {
    b == 32 || b == 9 || b == 10 || b == 11 || b == 12 || b == 13
}

pub open spec fn is_digit(b: u8) -> bool {
    48 <= b <= 57
}

/// Value of one decimal digit; other bytes count as 0.
pub open spec fn digit_val(b: u8) -> nat {
    if is_digit(b) {
        (b - 48) as nat
    } else {
        0
    }
}

/// Value of a string of decimal digits.
pub open spec fn dec_value(s: Seq<u8>) -> nat
    decreases s.len(),
{
    if s.len() == 0 {
        0
    } else {
        dec_value(s.drop_last()) * 10 + digit_val(s.last())
    }
}

pub open spec fn all_digits(s: Seq<u8>) -> bool {
    forall|i: int| 0 <= i < s.len() ==> is_digit(#[trigger] s[i])
}

pub open spec fn spec_trim_start(s: Seq<u8>) -> Seq<u8>
    decreases s.len(),
{
    if s.len() > 0 && is_ws(s[0]) {
        spec_trim_start(s.drop_first())
    } else {
        s
    }
}

pub open spec fn spec_trim_end(s: Seq<u8>) -> Seq<u8>
    decreases s.len(),
{
    if s.len() > 0 && is_ws(s.last()) {
        spec_trim_end(s.drop_last())
    } else {
        s
    }
}

/// The input without leading and trailing ASCII whitespace.
pub open spec fn spec_trim(s: Seq<u8>) -> Seq<u8> {
    spec_trim_end(spec_trim_start(s))
}

pub fn is_ws_byte(b: u8) -> (r: bool)
    ensures
        r == is_ws(b),
{
    b == 32 || b == 9 || b == 10 || b == 11 || b == 12 || b == 13
}

pub fn is_digit_byte(b: u8) -> (r: bool)
    ensures
        r == is_digit(b),
{
    48 <= b && b <= 57
}

/// Copies `s[from..to]` into a fresh vector.
pub fn subrange_vec(s: &[u8], from: usize, to: usize) -> (r: Vec<u8>)
    requires
        from <= to <= s@.len(),
    ensures
        r@ == s@.subrange(from as int, to as int),
{
    let sub = vstd::slice::slice_subrange(s, from, to);
    vstd::slice::slice_to_vec(sub)
}

/// Appends all of `s` to `v`.
pub fn push_all(v: &mut Vec<u8>, s: &[u8])
    ensures
        final(v)@ == old(v)@ + s@,
{
    let n = s.len();
    let mut i: usize = 0;
    while i < n
        invariant
            i <= n,
            n == s@.len(),
            v@ == old(v)@ + s@.subrange(0, i as int),
        decreases n - i,
    {
        v.push(s[i]);
        proof {
            assert(old(v)@ + s@.subrange(0, i + 1) =~= (old(v)@ + s@.subrange(0, i as int)).push(
                s@[i as int],
            ));
        }
        i = i + 1;
    }
    proof {
        assert(s@.subrange(0, n as int) =~= s@);
    }
}

pub fn bytes_eq(a: &[u8], b: &[u8]) -> (r: bool)
    ensures
        r <==> a@ == b@,
{
    if a.len() != b.len() {
        proof {
            assert(a@ != b@) by {
                assert(a@.len() != b@.len());
            }
        }
        return false;
    }
    let n = a.len();
    let mut i: usize = 0;
    while i < n
        invariant
            n == a@.len() == b@.len(),
            i <= n,
            forall|j: int| 0 <= j < i ==> a@[j] == b@[j],
        decreases n - i,
    {
        if a[i] != b[i] {
            return false;
        }
        i = i + 1;
    }
    proof {
        assert(a@ =~= b@);
    }
    true
}

/// Index of the first occurrence of `b` in `s` at or after `from`.
pub fn find_byte(s: &[u8], b: u8, from: usize) -> (r: Option<usize>)
    requires
        from <= s@.len(),
    ensures
        r matches Some(i) ==> from <= i < s@.len() && s@[i as int] == b && (forall|j: int|
            from <= j < i ==> s@[j] != b),
        r is None ==> forall|j: int| from <= j < s@.len() ==> s@[j] != b,
{
    let n = s.len();
    let mut i: usize = from;
    while i < n
        invariant
            from <= i <= n,
            n == s@.len(),
            forall|j: int| from <= j < i ==> s@[j] != b,
        decreases n - i,
    {
        if s[i] == b {
            return Some(i);
        }
        i = i + 1;
    }
    None
}

/// Position right after the leading whitespace of `s`.
fn trim_start_index(s: &[u8]) -> (r: usize)
    ensures
        r <= s@.len(),
        s@.subrange(r as int, s@.len() as int) == spec_trim_start(s@),
        forall|j: int| 0 <= j < r ==> is_ws(s@[j]),
        r < s@.len() ==> !is_ws(s@[r as int]),
{
    let n = s.len();
    let mut i: usize = 0;
    proof {
        assert(s@.subrange(0, n as int) =~= s@);
    }
    while i < n && is_ws_byte(s[i])
        invariant
            i <= n,
            n == s@.len(),
            spec_trim_start(s@) == spec_trim_start(s@.subrange(i as int, n as int)),
            forall|j: int| 0 <= j < i ==> is_ws(s@[j]),
        decreases n - i,
    {
        proof {
            assert(s@.subrange(i as int, n as int).drop_first() =~= s@.subrange(
                i + 1,
                n as int,
            ));
        }
        i = i + 1;
    }
    proof {
        let rest = s@.subrange(i as int, n as int);
        if i < n {
            assert(!is_ws(rest[0]));
            assert(spec_trim_start(rest) == rest);
        } else {
            assert(rest =~= Seq::<u8>::empty());
            assert(spec_trim_start(rest) == rest);
        }
    }
    i
}

/// Position right before the trailing whitespace of `s`.
fn trim_end_index(s: &[u8]) -> (r: usize)
    ensures
        r <= s@.len(),
        s@.subrange(0, r as int) == spec_trim_end(s@),
        forall|j: int| r <= j < s@.len() ==> is_ws(s@[j]),
        r > 0 ==> !is_ws(s@[r - 1]),
{
    let mut i: usize = s.len();
    proof {
        assert(s@.subrange(0, s@.len() as int) =~= s@);
    }
    while i > 0 && is_ws_byte(s[i - 1])
        invariant
            i <= s@.len(),
            spec_trim_end(s@) == spec_trim_end(s@.subrange(0, i as int)),
            forall|j: int| i <= j < s@.len() ==> is_ws(s@[j]),
        decreases i,
    {
        proof {
            assert(s@.subrange(0, i as int).drop_last() =~= s@.subrange(0, i - 1));
        }
        i = i - 1;
    }
    proof {
        let rest = s@.subrange(0, i as int);
        if i > 0 {
            assert(rest.last() == s@[i - 1]);
            assert(spec_trim_end(rest) == rest);
        } else {
            assert(rest =~= Seq::<u8>::empty());
            assert(spec_trim_end(rest) == rest);
        }
    }
    i
}

/// The input without trailing ASCII whitespace.
pub fn trim_end_vec(s: &[u8]) -> (r: Vec<u8>)
    ensures
        r@ == spec_trim_end(s@),
{
    let e = trim_end_index(s);
    subrange_vec(s, 0, e)
}

/// The input without leading and trailing ASCII whitespace.
pub fn trim_vec(s: &[u8]) -> (r: Vec<u8>)
    ensures
        r@ == spec_trim(s@),
{
    let b = trim_start_index(s);
    let t = vstd::slice::slice_subrange(s, b, s.len());
    let e = trim_end_index(t);
    subrange_vec(t, 0, e)
}

/// Parses `s[from..to]` as an unsigned decimal number: succeeds exactly
/// when the range is non-empty, holds digits only, and the value fits in
/// a `u64`.
pub fn parse_u64(s: &[u8], from: usize, to: usize) -> (r: Option<u64>)
    requires
        from <= to <= s@.len(),
    ensures
        r matches Some(v) ==> {
            let digits = s@.subrange(from as int, to as int);
            &&& from < to
            &&& all_digits(digits)
            &&& v == dec_value(digits)
        },
        r is None ==> {
            let digits = s@.subrange(from as int, to as int);
            from == to || !all_digits(digits) || dec_value(digits) > u64::MAX
        },
{
    if from == to {
        return None;
    }
    let mut acc: u64 = 0;
    let mut i: usize = from;
    while i < to
        invariant
            from <= i <= to <= s@.len(),
            acc == dec_value(s@.subrange(from as int, i as int)),
            all_digits(s@.subrange(from as int, i as int)),
        decreases to - i,
    {
        let b = s[i];
        if !is_digit_byte(b) {
            proof {
                let digits = s@.subrange(from as int, to as int);
                assert(digits[i - from] == s@[i as int]);
                assert(!all_digits(digits));
            }
            return None;
        }
        let d = (b - 48) as u64;
        if acc > (u64::MAX - d) / 10 {
            proof {
                let pre = s@.subrange(from as int, i + 1);
                let digits = s@.subrange(from as int, to as int);
                assert(pre.drop_last() =~= s@.subrange(from as int, i as int));
                assert(dec_value(pre) > u64::MAX) by {
                    assert(acc * 10 + d > u64::MAX) by (nonlinear_arith)
                        requires
                            acc > (u64::MAX - d) / 10,
                            d <= 9,
                            acc >= 0,
                    ;
                }
                if all_digits(digits) {
                    lemma_dec_value_prefix(digits, (i + 1 - from) as int);
                    assert(digits.subrange(0, i + 1 - from) =~= pre);
                }
            }
            return None;
        }
        proof {
            let pre = s@.subrange(from as int, i + 1);
            assert(pre.drop_last() =~= s@.subrange(from as int, i as int));
            assert(acc * 10 + d <= u64::MAX) by (nonlinear_arith)
                requires
                    acc <= (u64::MAX - d) / 10,
                    d <= 9,
                    acc >= 0,
            ;
            assert(forall|j: int| 0 <= j < pre.len() ==> is_digit(#[trigger] pre[j]));
        }
        acc = acc * 10 + d;
        i = i + 1;
    }
    proof {
        assert(s@.subrange(from as int, to as int) =~= s@.subrange(from as int, i as int));
    }
    Some(acc)
}

/// Ten to the power of `n`.
pub open spec fn pow10(n: nat) -> nat
    decreases n,
{
    if n == 0 {
        1
    } else {
        10 * pow10((n - 1) as nat)
    }
}

pub proof fn lemma_pow10_mono(a: nat, b: nat)
    requires
        a <= b,
    ensures
        pow10(a) <= pow10(b),
    decreases b,
{
    if a < b {
        lemma_pow10_mono(a, (b - 1) as nat);
    }
}

/// A digit string's value is below 10 to the power of its length.
pub proof fn lemma_dec_value_upper(s: Seq<u8>)
    requires
        all_digits(s),
    ensures
        dec_value(s) < pow10(s.len() as nat),
    decreases s.len(),
{
    if s.len() > 0 {
        assert(all_digits(s.drop_last())) by {
            assert(forall|i: int|
                0 <= i < s.len() - 1 ==> s.drop_last()[i] == #[trigger] s[i]);
        }
        lemma_dec_value_upper(s.drop_last());
        let p = pow10((s.len() - 1) as nat);
        assert(dec_value(s.drop_last()) * 10 + digit_val(s.last()) < 10 * p)
            by (nonlinear_arith)
            requires
                dec_value(s.drop_last()) < p,
                digit_val(s.last()) <= 9,
        ;
    }
}

/// A digit string's value only grows when digits are appended.
proof fn lemma_dec_value_prefix(s: Seq<u8>, k: int)
    requires
        0 <= k <= s.len(),
        all_digits(s),
    ensures
        dec_value(s) >= dec_value(s.subrange(0, k)),
    decreases s.len() - k,
{
    if k < s.len() {
        lemma_dec_value_prefix(s, k + 1);
        let a = s.subrange(0, k);
        let b = s.subrange(0, k + 1);
        assert(b.drop_last() =~= a);
        assert(dec_value(b) == dec_value(a) * 10 + (b.last() - 48));
        assert(dec_value(a) * 10 >= dec_value(a)) by (nonlinear_arith)
            requires
                dec_value(a) >= 0,
        ;
    } else {
        assert(s.subrange(0, k) =~= s);
    }
}

} // verus!
