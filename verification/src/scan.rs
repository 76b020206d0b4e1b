//! Byte-sequence scanning helpers shared by the grammar, the codec and the
//! header parsers: first-occurrence search, whitespace trimming, and decimal
//! numerals.

use vstd::prelude::*;
use crate::message::{SP, HT};

verus! {

/// Index of the first occurrence of `b` in `s`; `s.len()` when absent.
pub open spec fn find_byte(s: Seq<u8>, b: u8) -> nat
    decreases s.len(),
{
    if s.len() == 0 {
        0
    } else if s[0] == b {
        0
    } else {
        (1 + find_byte(s.drop_first(), b)) as nat
    }
}

pub proof fn lemma_find_byte(s: Seq<u8>, b: u8)
    ensures
        find_byte(s, b) <= s.len(),
        forall|j: int| 0 <= j < find_byte(s, b) ==> s[j] != b,
        find_byte(s, b) < s.len() ==> s[find_byte(s, b) as int] == b,
    decreases s.len(),
{
    if s.len() > 0 && s[0] != b {
        lemma_find_byte(s.drop_first(), b);
        assert forall|j: int| 0 <= j < find_byte(s, b) implies s[j] != b by {
            if j > 0 {
                assert(s.drop_first()[j - 1] != b);
            }
        }
    }
}

/// The first index where `b` stands determines `find_byte` exactly.
pub proof fn lemma_find_byte_is(s: Seq<u8>, b: u8, k: int)
    requires
        0 <= k <= s.len(),
        forall|j: int| 0 <= j < k ==> s[j] != b,
        k < s.len() ==> s[k] == b,
        k == s.len() ==> forall|j: int| 0 <= j < s.len() ==> s[j] != b,
    ensures
        find_byte(s, b) == k,
    decreases s.len(),
{
    if s.len() > 0 && s[0] != b {
        assert forall|j: int| 0 <= j < k - 1 implies s.drop_first()[j] != b by {
            assert(s[j + 1] != b);
        }
        lemma_find_byte_is(s.drop_first(), b, k - 1);
    }
}

/// Executable first-occurrence search.
pub fn scan_byte(v: &[u8], b: u8) -> (r: usize)
    ensures
        r == find_byte(v@, b),
{
    let n = v.len();
    let mut i: usize = 0;
    while i < n
        invariant
            n == v@.len(),
            0 <= i <= n,
            forall|j: int| 0 <= j < i ==> v@[j] != b,
        decreases n - i,
    {
        if v[i] == b {
            proof {
                lemma_find_byte_is(v@, b, i as int);
            }
            return i;
        }
        i += 1;
    }
    proof {
        lemma_find_byte_is(v@, b, n as int);
    }
    n
}

/// First occurrence of `b` at or after `from`, as an index into `v`;
/// `v.len()` when absent.
pub fn scan_byte_from(v: &[u8], from: usize, b: u8) -> (r: usize)
    requires
        from <= v@.len(),
    ensures
        r == from + find_byte(v@.skip(from as int), b),
        r <= v@.len(),
{
    let n = v.len();
    let mut i: usize = from;
    while i < n
        invariant
            from <= i <= n,
            n == v@.len(),
            forall|j: int| from <= j < i ==> v@[j] != b,
        decreases n - i,
    {
        if v[i] == b {
            proof {
                let rest = v@.skip(from as int);
                assert forall|j: int| 0 <= j < i - from implies rest[j] != b by {
                    assert(rest[j] == v@[j + from]);
                }
                lemma_find_byte_is(rest, b, i - from);
            }
            return i;
        }
        i += 1;
    }
    proof {
        let rest = v@.skip(from as int);
        assert forall|j: int| 0 <= j < rest.len() implies rest[j] != b by {
            assert(rest[j] == v@[j + from]);
        }
        lemma_find_byte_is(rest, b, rest.len() as int);
    }
    n
}

/// Horizontal whitespace, as header values are trimmed of it.
pub open spec fn is_ws(b: u8) -> bool {
    b == SP || b == HT
}

/// `s` without leading horizontal whitespace.
pub open spec fn trim_front(s: Seq<u8>) -> Seq<u8>
    decreases s.len(),
{
    if s.len() > 0 && is_ws(s[0]) {
        trim_front(s.drop_first())
    } else {
        s
    }
}

/// `s` without trailing horizontal whitespace.
pub open spec fn trim_back(s: Seq<u8>) -> Seq<u8>
    decreases s.len(),
{
    if s.len() > 0 && is_ws(s[s.len() - 1]) {
        trim_back(s.drop_last())
    } else {
        s
    }
}

/// `s` without leading or trailing horizontal whitespace.
pub open spec fn trim(s: Seq<u8>) -> Seq<u8> {
    trim_back(trim_front(s))
}

pub proof fn lemma_trim_front_is(s: Seq<u8>, k: int)
    requires
        0 <= k <= s.len(),
        forall|j: int| 0 <= j < k ==> is_ws(s[j]),
        k < s.len() ==> !is_ws(s[k]),
    ensures
        trim_front(s) =~= s.skip(k),
    decreases s.len(),
{
    if k == 0 {
        assert(s.skip(0) =~= s);
    } else {
        assert forall|j: int| 0 <= j < k - 1 implies is_ws(s.drop_first()[j]) by {
            assert(s[j + 1] == s.drop_first()[j]);
        }
        lemma_trim_front_is(s.drop_first(), k - 1);
        assert(s.drop_first().skip(k - 1) =~= s.skip(k));
    }
}

pub proof fn lemma_trim_back_is(s: Seq<u8>, k: int)
    requires
        0 <= k <= s.len(),
        forall|j: int| k <= j < s.len() ==> is_ws(s[j]),
        k > 0 ==> !is_ws(s[k - 1]),
    ensures
        trim_back(s) =~= s.take(k),
    decreases s.len(),
{
    if k == s.len() {
        assert(s.take(k) =~= s);
    } else {
        lemma_trim_back_is(s.drop_last(), k);
        assert(s.drop_last().take(k) =~= s.take(k));
    }
}

/// Trimming never lengthens, and strictly shortens a sequence whose end
/// is whitespace.
pub proof fn lemma_trim_len(s: Seq<u8>)
    ensures
        trim_front(s).len() <= s.len(),
        s.len() > 0 && is_ws(s[0]) ==> trim_front(s).len() < s.len(),
        trim_back(s).len() <= s.len(),
        s.len() > 0 && is_ws(s[s.len() - 1]) ==> trim_back(s).len() < s.len(),
    decreases s.len(),
{
    if s.len() > 0 {
        lemma_trim_len(s.drop_first());
        lemma_trim_len(s.drop_last());
    }
}

/// A sequence with no surrounding whitespace is its own trim.
pub proof fn lemma_trim_id(s: Seq<u8>)
    requires
        s.len() > 0 ==> !is_ws(s[0]) && !is_ws(s[s.len() - 1]),
    ensures
        trim(s) == s,
{
    lemma_trim_front_is(s, 0);
    assert(s.skip(0) =~= s);
    lemma_trim_back_is(s, s.len() as int);
    assert(s.take(s.len() as int) =~= s);
}

/// Executable trimming; copies the kept range out.
pub fn trim_bytes(v: &[u8]) -> (r: Vec<u8>)
    ensures
        r@ == trim(v@),
{
    let n = v.len();
    let mut a: usize = 0;
    while a < n && (v[a] == SP || v[a] == HT)
        invariant
            n == v@.len(),
            0 <= a <= n,
            forall|j: int| 0 <= j < a ==> is_ws(v@[j]),
        decreases n - a,
    {
        a += 1;
    }
    proof {
        lemma_trim_front_is(v@, a as int);
    }
    let mut z: usize = n;
    while z > a && (v[z - 1] == SP || v[z - 1] == HT)
        invariant
            n == v@.len(),
            a <= z <= n,
            forall|j: int| z <= j < n ==> is_ws(v@[j]),
        decreases z,
    {
        z -= 1;
    }
    proof {
        let tf = v@.skip(a as int);
        assert forall|j: int| (z - a) <= j < tf.len() implies is_ws(tf[j]) by {
            assert(tf[j] == v@[j + a]);
        }
        if z > a {
            assert(tf[z - a - 1] == v@[z - 1]);
        }
        lemma_trim_back_is(tf, z - a);
    }
    let mut r: Vec<u8> = Vec::new();
    let mut i: usize = a;
    while i < z
        invariant
            n == v@.len(),
            a <= i <= z <= n,
            r@ =~= v@.subrange(a as int, i as int),
        decreases z - i,
    {
        r.push(v[i]);
        i += 1;
    }
    proof {
        assert(v@.skip(a as int).take(z - a) =~= v@.subrange(a as int, z as int));
    }
    r
}

/// Appends a slice to a byte vector.
pub fn append_bytes(out: &mut Vec<u8>, s: &[u8])
    ensures
        final(out)@ == old(out)@ + s@,
{
    let ghost base = out@;
    let n = s.len();
    let mut i: usize = 0;
    while i < n
        invariant
            n == s@.len(),
            0 <= i <= n,
            out@ =~= base + s@.take(i as int),
        decreases n - i,
    {
        out.push(s[i]);
        i += 1;
    }
    proof {
        assert(base + s@.take(n as int) =~= base + s@);
    }
}

/// A copy of the range `[a, z)` of `v`.
pub fn copy_range(v: &[u8], a: usize, z: usize) -> (r: Vec<u8>)
    requires
        a <= z <= v@.len(),
    ensures
        r@ == v@.subrange(a as int, z as int),
{
    let mut r: Vec<u8> = Vec::new();
    let mut i: usize = a;
    while i < z
        invariant
            a <= i <= z <= v@.len(),
            r@ =~= v@.subrange(a as int, i as int),
        decreases z - i,
    {
        r.push(v[i]);
        i += 1;
    }
    r
}

/// The trimmed copy of the range `[a, z)` of `v`.
pub fn trim_bytes_range(v: &[u8], a: usize, z: usize) -> (r: Vec<u8>)
    requires
        a <= z <= v@.len(),
    ensures
        r@ == trim(v@.subrange(a as int, z as int)),
{
    let mut tmp: Vec<u8> = Vec::new();
    let mut i: usize = a;
    while i < z
        invariant
            a <= i <= z <= v@.len(),
            tmp@ =~= v@.subrange(a as int, i as int),
        decreases z - i,
    {
        tmp.push(v[i]);
        i += 1;
    }
    trim_bytes(tmp.as_slice())
}

/// An ASCII decimal digit.
pub open spec fn is_digit(b: u8) -> bool {
    48 <= b <= 57
}

/// A nonempty, all-digit numeral.
pub open spec fn is_digits(s: Seq<u8>) -> bool {
    s.len() > 0 && forall|j: int| 0 <= j < s.len() ==> is_digit(#[trigger] s[j])
}

/// The canonical decimal numeral of `n`, most significant digit first.
pub open spec fn dec_digits(n: nat) -> Seq<u8>
    decreases n,
{
    if n < 10 {
        seq![(48 + n) as u8]
    } else {
        dec_digits(n / 10).push((48 + n % 10) as u8)
    }
}

/// The value of a digit string, read most significant digit first.
pub open spec fn dec_value(s: Seq<u8>) -> int
    decreases s.len(),
{
    if s.len() == 0 {
        0
    } else {
        dec_value(s.drop_last()) * 10 + (s.last() - 48)
    }
}

/// The canonical numeral evaluates to the number it was made from.
pub proof fn lemma_dec_round_trip(n: nat)
    ensures
        is_digits(dec_digits(n)),
        dec_value(dec_digits(n)) == n,
        dec_digits(n)[0] != 48 || n < 10,
    decreases n,
{
    if n < 10 {
        let s = dec_digits(n);
        assert(s =~= seq![(48 + n) as u8]);
        assert(s.drop_last() =~= Seq::<u8>::empty());
        assert(dec_value(s.drop_last()) == 0);
        assert(s.last() == (48 + n) as u8);
        assert(dec_value(s) == dec_value(s.drop_last()) * 10 + (s.last() - 48));
    } else {
        lemma_dec_round_trip(n / 10);
        let s = dec_digits(n);
        assert(s.drop_last() =~= dec_digits(n / 10));
        assert(s.last() == (48 + n % 10) as u8);
        assert(dec_value(s) == dec_value(dec_digits(n / 10)) * 10 + (s.last() - 48));
        assert(dec_value(s) == (n / 10) * 10 + n % 10);
        assert(forall|j: int| 0 <= j < s.len() - 1 ==> s[j] == dec_digits(n / 10)[j]);
        assert(is_digits(s));
    }
}

/// Digit strings have nonnegative value, and prefixes never exceed the whole.
pub proof fn lemma_dec_value_monotone(s: Seq<u8>, k: int)
    requires
        forall|j: int| 0 <= j < s.len() ==> is_digit(#[trigger] s[j]),
        0 <= k <= s.len(),
    ensures
        0 <= dec_value(s.take(k)) <= dec_value(s),
    decreases s.len() - k,
{
    if k == s.len() {
        assert(s.take(k) =~= s);
        lemma_dec_value_nonneg(s);
    } else {
        lemma_dec_value_monotone(s, k + 1);
        assert(s.take(k + 1).drop_last() =~= s.take(k));
        lemma_dec_value_nonneg(s.take(k));
    }
}

pub proof fn lemma_dec_value_nonneg(s: Seq<u8>)
    requires
        forall|j: int| 0 <= j < s.len() ==> is_digit(#[trigger] s[j]),
    ensures
        dec_value(s) >= 0,
    decreases s.len(),
{
    if s.len() > 0 {
        assert(forall|j: int| 0 <= j < s.drop_last().len() ==> is_digit(#[trigger] s.drop_last()[j]));
        lemma_dec_value_nonneg(s.drop_last());
    }
}

/// Whether every byte of `v` is a decimal digit and `v` is nonempty.
pub fn all_digits(v: &[u8]) -> (r: bool)
    ensures
        r == is_digits(v@),
{
    let n = v.len();
    if n == 0 {
        return false;
    }
    let mut i: usize = 0;
    while i < n
        invariant
            n == v@.len(),
            0 <= i <= n,
            forall|j: int| 0 <= j < i ==> is_digit(#[trigger] v@[j]),
        decreases n - i,
    {
        if v[i] < 48 || v[i] > 57 {
            return false;
        }
        i += 1;
    }
    true
}

/// Evaluates a digit string, refusing values above `limit`.
pub fn parse_dec_bounded(v: &[u8], limit: usize) -> (r: Option<usize>)
    requires
        is_digits(v@),
        limit <= 0x0fff_ffff,
    ensures
        dec_value(v@) <= limit ==> r == Some(dec_value(v@) as usize),
        dec_value(v@) > limit ==> r is None,
{
    let n = v.len();
    let mut val: usize = 0;
    let mut i: usize = 0;
    proof {
        assert(v@.take(0) =~= Seq::<u8>::empty());
    }
    while i < n
        invariant
            n == v@.len(),
            is_digits(v@),
            limit <= 0x0fff_ffff,
            0 <= i <= n,
            val == dec_value(v@.take(i as int)),
            val <= limit,
        decreases n - i,
    {
        let d = v[i];
        proof {
            assert(is_digit(v@[i as int]));
            assert(v@.take(i + 1).drop_last() =~= v@.take(i as int));
            assert(v@.take(i + 1).last() == v@[i as int]);
        }
        let next = val * 10 + (d - 48) as usize;
        if next > limit {
            proof {
                lemma_dec_value_monotone(v@, i + 1);
                assert(v@.take(v@.len() as int) =~= v@);
            }
            return None;
        }
        val = next;
        i += 1;
    }
    proof {
        assert(v@.take(n as int) =~= v@);
    }
    Some(val)
}

/// The canonical decimal numeral of `n`, as bytes.
pub fn dec_vec(n: usize) -> (r: Vec<u8>)
    ensures
        r@ == dec_digits(n as nat),
{
    let mut low_first: Vec<u8> = Vec::new();
    let mut m = n;
    if n < 10 {
        let mut r: Vec<u8> = Vec::new();
        r.push(48 + n as u8);
        assert(r@ =~= dec_digits(n as nat));
        return r;
    }
    while m >= 10
        invariant
            dec_digits(n as nat) =~= dec_digits(m as nat) + low_first@.reverse(),
        decreases m,
    {
        let ghost before = low_first@;
        low_first.push(48 + (m % 10) as u8);
        proof {
            assert(low_first@.reverse() =~= seq![(48 + (m % 10) as nat) as u8] + before.reverse());
            assert(dec_digits(m as nat) =~= dec_digits((m as nat) / 10).push((48 + (m as nat) % 10) as u8));
            assert(dec_digits(m as nat) + before.reverse() =~= dec_digits((m / 10) as nat) + low_first@.reverse());
        }
        m = m / 10;
    }
    let mut r: Vec<u8> = Vec::new();
    r.push(48 + m as u8);
    assert(r@ =~= dec_digits(m as nat));
    let mut j: usize = low_first.len();
    while j > 0
        invariant
            j <= low_first@.len(),
            r@ =~= dec_digits(m as nat) + low_first@.reverse().take(low_first@.len() - j),
        decreases j,
    {
        j -= 1;
        r.push(low_first[j]);
        proof {
            let rev = low_first@.reverse();
            assert(rev[low_first@.len() - j - 1] == low_first@[j as int]);
            assert(rev.take(low_first@.len() - j) =~= rev.take(low_first@.len() - j - 1).push(low_first@[j as int]));
        }
    }
    proof {
        assert(low_first@.reverse().take(low_first@.len() as int) =~= low_first@.reverse());
    }
    r
}

} // verus!
