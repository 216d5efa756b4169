//! Integer value of a digit run, and value comparison of two digit runs.
//!
//! Numeric segments compare by integer value, with leading zeros ignored
//! and no upper bound on magnitude.  The executable comparison never
//! materialises the value: it strips leading zeros, compares lengths, and
//! falls back to a left-to-right scan, which this module proves equivalent
//! to comparing the values themselves.

use vstd::prelude::*;
use vstd::string::*;
use core::cmp::Ordering;
use crate::segments::is_digit;

verus! {

/// Numeric value of a single digit character.
pub open spec fn digit_of(c: char) -> nat {
    (c as u32 - 48) as nat
}

/// Value of a digit run read as a decimal number (0 for the empty run).
pub open spec fn digit_val(s: Seq<char>) -> nat
    decreases s.len(),
{
    if s.len() == 0 {
        0
    } else {
        10 * digit_val(s.drop_last()) + digit_of(s.last())
    }
}

/// Ten to the power `n`.
pub open spec fn pow10(n: nat) -> nat
    decreases n,
{
    if n == 0 {
        1
    } else {
        10 * pow10((n - 1) as nat)
    }
}

/// The three-way comparison of two natural numbers.
pub open spec fn nat_cmp(a: nat, b: nat) -> Ordering {
    if a < b {
        Ordering::Less
    } else if a == b {
        Ordering::Equal
    } else {
        Ordering::Greater
    }
}

pub proof fn lemma_pow10_pos(n: nat)
    ensures
        pow10(n) >= 1,
    decreases n,
{
    if n > 0 {
        lemma_pow10_pos((n - 1) as nat);
    }
}

pub proof fn lemma_pow10_mono(a: nat, b: nat)
    requires
        a <= b,
    ensures
        pow10(a) <= pow10(b),
    decreases b,
{
    if a < b {
        lemma_pow10_mono(a, (b - 1) as nat);
        lemma_pow10_pos((b - 1) as nat);
    }
}

proof fn lemma_mul_rearrange(a: nat, p: nat, v: nat, d: nat)
    ensures
        10 * (a * p + v) + d == a * (10 * p) + (10 * v + d),
{
    assert(10 * (a * p + v) + d == a * (10 * p) + (10 * v + d)) by (nonlinear_arith);
}

proof fn lemma_mul_mono(a: nat, b: nat, p: nat)
    requires
        a <= b,
    ensures
        a * p <= b * p,
{
    assert(a * p <= b * p) by (nonlinear_arith)
        requires
            a <= b,
            p >= 0,
    ;
}

proof fn lemma_mul_distribute(a: nat, p: nat)
    ensures
        (a + 1) * p == a * p + p,
{
    assert((a + 1) * p == a * p + p) by (nonlinear_arith);
}

/// A leading zero does not change the value of a digit run.
proof fn lemma_zero_head(s: Seq<char>)
    requires
        s.len() > 0,
        s[0] as u32 == 48,
    ensures
        digit_val(s) == digit_val(s.drop_first()),
    decreases s.len(),
{
    if s.len() == 1 {
        assert(s.drop_last() =~= Seq::<char>::empty());
        assert(s.drop_first() =~= Seq::<char>::empty());
        assert(digit_of(s.last()) == 0);
    } else {
        let d = s.drop_last();
        lemma_zero_head(d);
        assert(d.drop_first() =~= s.drop_first().drop_last());
        assert(s.drop_first().last() == s.last());
    }
}

/// Stripping any number of leading zeros preserves the value.
pub proof fn lemma_zeros_dropped(s: Seq<char>, z: int)
    requires
        0 <= z <= s.len(),
        forall|t: int| 0 <= t < z ==> s[t] as u32 == 48,
    ensures
        digit_val(s) == digit_val(s.skip(z)),
    decreases z,
{
    if z == 0 {
        assert(s.skip(0) =~= s);
    } else {
        lemma_zero_head(s);
        let d = s.drop_first();
        assert forall|t: int| 0 <= t < z - 1 implies d[t] as u32 == 48 by {
            assert(d[t] == s[t + 1]);
        }
        lemma_zeros_dropped(d, z - 1);
        assert(d.skip(z - 1) =~= s.skip(z));
    }
}

/// A run of `n` digits has value below `pow10(n)`.
pub proof fn lemma_digit_val_upper(s: Seq<char>)
    requires
        forall|t: int| 0 <= t < s.len() ==> is_digit(s[t]),
    ensures
        digit_val(s) < pow10(s.len()),
    decreases s.len(),
{
    if s.len() > 0 {
        let d = s.drop_last();
        lemma_digit_val_upper(d);
        assert(is_digit(s.last()));
        assert(digit_of(s.last()) <= 9);
    }
}

/// A digit run that does not start with a zero has value at least
/// `pow10(len - 1)`.
pub proof fn lemma_digit_val_lower(s: Seq<char>)
    requires
        s.len() > 0,
        forall|t: int| 0 <= t < s.len() ==> is_digit(s[t]),
        s[0] as u32 != 48,
    ensures
        digit_val(s) >= pow10((s.len() - 1) as nat),
    decreases s.len(),
{
    if s.len() == 1 {
        assert(is_digit(s[0]));
        assert(digit_of(s[0]) >= 1);
    } else {
        let d = s.drop_last();
        lemma_digit_val_lower(d);
    }
}

/// Positional split: the value of `s` is the value of its first `i`
/// digits, shifted, plus the value of the rest.
pub proof fn lemma_digit_val_split(s: Seq<char>, i: int)
    requires
        0 <= i <= s.len(),
    ensures
        digit_val(s) == digit_val(s.take(i)) * pow10((s.len() - i) as nat) + digit_val(s.skip(i)),
    decreases s.len() - i,
{
    if i == s.len() {
        assert(s.take(i) =~= s);
        assert(s.skip(i) =~= Seq::<char>::empty());
        assert(digit_val(s) * 1 == digit_val(s)) by (nonlinear_arith);
    } else {
        let d = s.drop_last();
        lemma_digit_val_split(d, i);
        assert(d.take(i) =~= s.take(i));
        assert(d.skip(i) =~= s.skip(i).drop_last());
        assert(s.skip(i).last() == s.last());
        assert(digit_val(s.skip(i)) == 10 * digit_val(d.skip(i)) + digit_of(s.last()));
        let a = digit_val(s.take(i));
        let p = pow10((s.len() - 1 - i) as nat);
        assert(pow10((s.len() - i) as nat) == 10 * p);
        lemma_mul_rearrange(a, p, digit_val(d.skip(i)), digit_of(s.last()));
    }
}

/// Two equally long digit runs that first differ at position `i` compare
/// by the digit at `i`.
pub proof fn lemma_digit_val_first_diff(x: Seq<char>, y: Seq<char>, i: int)
    requires
        x.len() == y.len(),
        forall|t: int| 0 <= t < x.len() ==> is_digit(x[t]),
        forall|t: int| 0 <= t < y.len() ==> is_digit(y[t]),
        0 <= i < x.len(),
        x.take(i) =~= y.take(i),
        (x[i] as u32) < (y[i] as u32),
    ensures
        digit_val(x) < digit_val(y),
{
    lemma_digit_val_split(x, i);
    lemma_digit_val_split(y, i);
    let m = (x.len() - i) as nat;
    let xs = x.skip(i);
    let ys = y.skip(i);
    lemma_digit_val_split(xs, 1);
    lemma_digit_val_split(ys, 1);
    assert(xs.take(1) =~= seq![x[i]]);
    assert(ys.take(1) =~= seq![y[i]]);
    assert(digit_val(seq![x[i]]) == digit_of(x[i])) by {
        assert(digit_val(Seq::<char>::empty()) == 0);
        assert(seq![x[i]].drop_last() =~= Seq::<char>::empty());
    }
    assert(digit_val(seq![y[i]]) == digit_of(y[i])) by {
        assert(digit_val(Seq::<char>::empty()) == 0);
        assert(seq![y[i]].drop_last() =~= Seq::<char>::empty());
    }
    let p = pow10((m - 1) as nat);
    assert forall|t: int| 0 <= t < xs.skip(1).len() implies is_digit(xs.skip(1)[t]) by {
        assert(xs.skip(1)[t] == x[i + 1 + t]);
    }
    lemma_digit_val_upper(xs.skip(1));
    assert(xs.skip(1).len() == m - 1);
    assert(digit_val(xs) < digit_of(x[i]) * p + p);
    assert(is_digit(x[i]) && is_digit(y[i]));
    assert(digit_of(x[i]) + 1 <= digit_of(y[i]));
    lemma_mul_distribute(digit_of(x[i]), p);
    lemma_mul_mono((digit_of(x[i]) + 1) as nat, digit_of(y[i]), p);
    assert(digit_val(ys) >= digit_of(y[i]) * p);
    assert(digit_val(xs) < digit_val(ys));
    assert(digit_val(x.take(i)) == digit_val(y.take(i)));
}

/// Compare two all-digit runs by integer value.
pub fn cmp_digit_runs(x: &str, y: &str) -> (r: Ordering)
    requires
        forall|t: int| 0 <= t < x@.len() ==> is_digit(x@[t]),
        forall|t: int| 0 <= t < y@.len() ==> is_digit(y@[t]),
    ensures
        r == nat_cmp(digit_val(x@), digit_val(y@)),
{
    let n1 = x.unicode_len();
    let n2 = y.unicode_len();
    let mut p: usize = 0;
    loop
        invariant
            p <= n1,
            n1 == x@.len(),
            forall|t: int| 0 <= t < p ==> x@[t] as u32 == 48,
        ensures
            p <= n1,
            n1 == x@.len(),
            forall|t: int| 0 <= t < p ==> x@[t] as u32 == 48,
            p < n1 ==> x@[p as int] as u32 != 48,
        decreases n1 - p,
    {
        if p == n1 {
            break;
        }
        if x.get_char(p) as u32 != 48 {
            break;
        }
        p += 1;
    }
    let mut q: usize = 0;
    loop
        invariant
            q <= n2,
            n2 == y@.len(),
            forall|t: int| 0 <= t < q ==> y@[t] as u32 == 48,
        ensures
            q <= n2,
            n2 == y@.len(),
            forall|t: int| 0 <= t < q ==> y@[t] as u32 == 48,
            q < n2 ==> y@[q as int] as u32 != 48,
        decreases n2 - q,
    {
        if q == n2 {
            break;
        }
        if y.get_char(q) as u32 != 48 {
            break;
        }
        q += 1;
    }
    let ghost xs = x@.skip(p as int);
    let ghost ys = y@.skip(q as int);
    proof {
        lemma_zeros_dropped(x@, p as int);
        lemma_zeros_dropped(y@, q as int);
        assert forall|t: int| 0 <= t < xs.len() implies is_digit(xs[t]) by {
            assert(xs[t] == x@[p + t]);
        }
        assert forall|t: int| 0 <= t < ys.len() implies is_digit(ys[t]) by {
            assert(ys[t] == y@[q + t]);
        }
    }
    let m1 = n1 - p;
    let m2 = n2 - q;
    if m1 < m2 {
        proof {
            lemma_digit_val_upper(xs);
            lemma_digit_val_lower(ys);
            lemma_pow10_mono(m1 as nat, (m2 - 1) as nat);
        }
        return Ordering::Less;
    }
    if m1 > m2 {
        proof {
            lemma_digit_val_upper(ys);
            lemma_digit_val_lower(xs);
            lemma_pow10_mono(m2 as nat, (m1 - 1) as nat);
        }
        return Ordering::Greater;
    }
    let mut j: usize = 0;
    loop
        invariant
            j <= m1,
            m1 == m2,
            p + m1 == n1,
            q + m2 == n2,
            n1 == x@.len(),
            n2 == y@.len(),
            xs == x@.skip(p as int),
            ys == y@.skip(q as int),
            digit_val(x@) == digit_val(xs),
            digit_val(y@) == digit_val(ys),
            forall|t: int| 0 <= t < xs.len() ==> is_digit(xs[t]),
            forall|t: int| 0 <= t < ys.len() ==> is_digit(ys[t]),
            forall|t: int| 0 <= t < j ==> xs[t] == ys[t],
        ensures
            j == m1,
            xs.len() == m1,
            ys.len() == m1,
            digit_val(x@) == digit_val(xs),
            digit_val(y@) == digit_val(ys),
            forall|t: int| 0 <= t < j ==> xs[t] == ys[t],
        decreases m1 - j,
    {
        if j == m1 {
            break;
        }
        let cx = x.get_char(p + j);
        let cy = y.get_char(q + j);
        proof {
            assert(cx == xs[j as int]);
            assert(cy == ys[j as int]);
        }
        if (cx as u32) < (cy as u32) {
            proof {
                assert(xs.take(j as int) =~= ys.take(j as int));
                lemma_digit_val_first_diff(xs, ys, j as int);
            }
            return Ordering::Less;
        }
        if (cx as u32) > (cy as u32) {
            proof {
                assert(ys.take(j as int) =~= xs.take(j as int));
                lemma_digit_val_first_diff(ys, xs, j as int);
            }
            return Ordering::Greater;
        }
        j += 1;
    }
    proof {
        assert(xs =~= ys);
    }
    Ordering::Equal
}

} // verus!
