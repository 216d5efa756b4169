//! The segment comparator `vercomp` and its ordering laws.
//!
//! Two strings are walked in lockstep.  Each round strips a separator run
//! from both sides, compares the separator runs by length alone, then
//! extracts a digit or letter run (the kind is taken from the first
//! string) and compares the runs, digit runs by integer value and letter
//! runs lexicographically.  When either side runs out, an asymmetric
//! trailing-remainder rule decides: a missing trailing segment counts as
//! older, unless the leftover starts with a letter, which inverts the
//! roles.  Both asymmetries are deliberate legacy conventions and are
//! reproduced exactly.

use vstd::prelude::*;
use vstd::string::*;
use core::cmp::Ordering;
use crate::segments::RunKind;
use crate::segments::alpha_char;
use crate::segments::atend;
use crate::segments::digit_char;
use crate::segments::is_alnum;
use crate::segments::is_alpha;
use crate::segments::is_digit;
use crate::segments::kind_pred;
use crate::segments::lemma_run_len_props;
use crate::segments::run_len;
use crate::segments::str_eq;
use crate::segments::take_alpha;
use crate::segments::take_digits;
use crate::segments::take_noalnum;
use crate::numeric::cmp_digit_runs;
use crate::numeric::digit_val;
use crate::numeric::nat_cmp;

verus! {

/// Lexicographic comparison of two character sequences by code point.
pub open spec fn lex_cmp(a: Seq<char>, b: Seq<char>) -> Ordering
    decreases a.len() + b.len(),
{
    if a.len() == 0 && b.len() == 0 {
        Ordering::Equal
    } else if a.len() == 0 {
        Ordering::Less
    } else if b.len() == 0 {
        Ordering::Greater
    } else if (a[0] as u32) < (b[0] as u32) {
        Ordering::Less
    } else if (a[0] as u32) > (b[0] as u32) {
        Ordering::Greater
    } else {
        lex_cmp(a.drop_first(), b.drop_first())
    }
}

/// The trailing-remainder rule applied once the lockstep walk stops: the
/// side that ended counts as older, unless the other side's leftover
/// starts with a letter, in which case the roles invert.
pub open spec fn tail_rule(r1: Seq<char>, r2: Seq<char>) -> Ordering {
    if r1.len() == 0 && r2.len() == 0 {
        Ordering::Equal
    } else if (r1.len() == 0 && !(r2.len() > 0 && is_alpha(r2[0]))) || (r1.len() > 0 && is_alpha(
        r1[0],
    )) {
        Ordering::Less
    } else {
        Ordering::Greater
    }
}

/// What `vercomp` returns, defined round by round over the two suffixes
/// still to be walked.
pub open spec fn spec_vercomp(a: Seq<char>, b: Seq<char>) -> Ordering
    decreases a.len() + b.len(),
    via spec_vercomp_decreases
{
    if a.len() == 0 || b.len() == 0 {
        tail_rule(a, b)
    } else {
        let sk1 = run_len(a, RunKind::Separator);
        let sk2 = run_len(b, RunKind::Separator);
        let ra = a.skip(sk1 as int);
        let rb = b.skip(sk2 as int);
        if ra.len() == 0 || rb.len() == 0 {
            tail_rule(ra, rb)
        } else if sk1 != sk2 {
            if sk1 < sk2 {
                Ordering::Less
            } else {
                Ordering::Greater
            }
        } else {
            let k = if is_digit(ra[0]) {
                RunKind::Digits
            } else {
                RunKind::Letters
            };
            let k1 = run_len(ra, k);
            let k2 = run_len(rb, k);
            if k1 == 0 || k2 == 0 {
                if is_digit(ra[0]) {
                    Ordering::Greater
                } else {
                    Ordering::Less
                }
            } else {
                let c = if is_digit(ra[0]) {
                    nat_cmp(digit_val(ra.take(k1 as int)), digit_val(rb.take(k2 as int)))
                } else {
                    lex_cmp(ra.take(k1 as int), rb.take(k2 as int))
                };
                if c != Ordering::Equal {
                    c
                } else {
                    spec_vercomp(ra.skip(k1 as int), rb.skip(k2 as int))
                }
            }
        }
    }
}

#[via_fn]
proof fn spec_vercomp_decreases(a: Seq<char>, b: Seq<char>) {
    lemma_run_len_props(a, RunKind::Separator);
    lemma_run_len_props(b, RunKind::Separator);
    if a.len() > 0 && b.len() > 0 {
        let ra = a.skip(run_len(a, RunKind::Separator) as int);
        let rb = b.skip(run_len(b, RunKind::Separator) as int);
        let k = if ra.len() > 0 && is_digit(ra[0]) {
            RunKind::Digits
        } else {
            RunKind::Letters
        };
        lemma_run_len_props(ra, k);
        lemma_run_len_props(rb, k);
    }
}

/// The mirror image of an ordering result.
pub open spec fn flip(o: Ordering) -> Ordering {
    match o {
        Ordering::Less => Ordering::Greater,
        Ordering::Equal => Ordering::Equal,
        Ordering::Greater => Ordering::Less,
    }
}

proof fn lemma_lex_cmp_reflexive(s: Seq<char>)
    ensures
        lex_cmp(s, s) == Ordering::Equal,
    decreases s.len(),
{
    if s.len() > 0 {
        lemma_lex_cmp_reflexive(s.drop_first());
    }
}

proof fn lemma_lex_cmp_antisymmetric(a: Seq<char>, b: Seq<char>)
    ensures
        lex_cmp(b, a) == flip(lex_cmp(a, b)),
    decreases a.len() + b.len(),
{
    if a.len() > 0 && b.len() > 0 && (a[0] as u32) == (b[0] as u32) {
        lemma_lex_cmp_antisymmetric(a.drop_first(), b.drop_first());
    }
}

proof fn lemma_tail_rule_antisymmetric(r1: Seq<char>, r2: Seq<char>)
    requires
        r1.len() == 0 || r2.len() == 0,
    ensures
        tail_rule(r2, r1) == flip(tail_rule(r1, r2)),
{
}

/// Comparing any string with itself yields `Equal`.
pub proof fn lemma_vercomp_reflexive(v: Seq<char>)
    ensures
        spec_vercomp(v, v) == Ordering::Equal,
    decreases v.len(),
{
    if v.len() > 0 {
        lemma_run_len_props(v, RunKind::Separator);
        let sk = run_len(v, RunKind::Separator);
        let rv = v.skip(sk as int);
        if rv.len() > 0 {
            let k = if is_digit(rv[0]) {
                RunKind::Digits
            } else {
                RunKind::Letters
            };
            lemma_run_len_props(rv, k);
            let k1 = run_len(rv, k);
            assert(is_alnum(rv[0]));
            assert(kind_pred(k, rv[0]));
            assert(k1 >= 1);
            if is_digit(rv[0]) {
            } else {
                lemma_lex_cmp_reflexive(rv.take(k1 as int));
            }
            lemma_vercomp_reflexive(rv.skip(k1 as int));
        }
    }
}

/// Swapping the arguments of `vercomp` mirrors its result.
pub proof fn lemma_vercomp_antisymmetric(a: Seq<char>, b: Seq<char>)
    ensures
        spec_vercomp(b, a) == flip(spec_vercomp(a, b)),
    decreases a.len() + b.len(),
{
    lemma_run_len_props(a, RunKind::Separator);
    lemma_run_len_props(b, RunKind::Separator);
    if a.len() == 0 || b.len() == 0 {
        lemma_tail_rule_antisymmetric(a, b);
    } else {
        let sk1 = run_len(a, RunKind::Separator);
        let sk2 = run_len(b, RunKind::Separator);
        let ra = a.skip(sk1 as int);
        let rb = b.skip(sk2 as int);
        if ra.len() == 0 || rb.len() == 0 {
            lemma_tail_rule_antisymmetric(ra, rb);
        } else if sk1 != sk2 {
        } else {
            let da = is_digit(ra[0]);
            let db = is_digit(rb[0]);
            lemma_run_len_props(ra, RunKind::Digits);
            lemma_run_len_props(rb, RunKind::Digits);
            lemma_run_len_props(ra, RunKind::Letters);
            lemma_run_len_props(rb, RunKind::Letters);
            if da && db {
                let k1 = run_len(ra, RunKind::Digits);
                let k2 = run_len(rb, RunKind::Digits);
                assert(k1 >= 1 && k2 >= 1);
                if nat_cmp(digit_val(ra.take(k1 as int)), digit_val(rb.take(k2 as int)))
                    == Ordering::Equal {
                    lemma_vercomp_antisymmetric(ra.skip(k1 as int), rb.skip(k2 as int));
                }
            } else if !da && !db {
                assert(is_alpha(ra[0]) && is_alpha(rb[0]));
                let k1 = run_len(ra, RunKind::Letters);
                let k2 = run_len(rb, RunKind::Letters);
                assert(k1 >= 1 && k2 >= 1);
                lemma_lex_cmp_antisymmetric(ra.take(k1 as int), rb.take(k2 as int));
                if lex_cmp(ra.take(k1 as int), rb.take(k2 as int)) == Ordering::Equal {
                    lemma_vercomp_antisymmetric(ra.skip(k1 as int), rb.skip(k2 as int));
                }
            } else if da && !db {
                assert(is_alpha(rb[0]));
                assert(run_len(rb, RunKind::Digits) == 0);
                assert(run_len(ra, RunKind::Letters) == 0);
            } else {
                assert(is_alpha(ra[0]));
                assert(run_len(ra, RunKind::Digits) == 0);
                assert(run_len(rb, RunKind::Letters) == 0);
            }
        }
    }
}

/// Apply the trailing-remainder rule to two concrete leftovers.
fn trailing_cmp(r1: &str, r2: &str) -> (r: Ordering)
    ensures
        r == tail_rule(r1@, r2@),
{
    let e1 = r1.is_empty();
    let e2 = r2.is_empty();
    if e1 && e2 {
        return Ordering::Equal;
    }
    let a1 = !e1 && alpha_char(r1.get_char(0));
    let a2 = !e2 && alpha_char(r2.get_char(0));
    if (e1 && !a2) || a1 {
        Ordering::Less
    } else {
        Ordering::Greater
    }
}

/// Lexicographic comparison of two concrete strings by code point.
fn cmp_lex(x: &str, y: &str) -> (r: Ordering)
    ensures
        r == lex_cmp(x@, y@),
{
    let n1 = x.unicode_len();
    let n2 = y.unicode_len();
    proof {
        assert(x@.skip(0) =~= x@);
        assert(y@.skip(0) =~= y@);
    }
    let mut j: usize = 0;
    loop
        invariant
            j <= n1,
            j <= n2,
            n1 == x@.len(),
            n2 == y@.len(),
            lex_cmp(x@, y@) == lex_cmp(x@.skip(j as int), y@.skip(j as int)),
        ensures
            j <= n1,
            j <= n2,
            n1 == x@.len(),
            n2 == y@.len(),
            j == n1 || j == n2,
            lex_cmp(x@, y@) == lex_cmp(x@.skip(j as int), y@.skip(j as int)),
        decreases n1 - j,
    {
        if j == n1 || j == n2 {
            break;
        }
        let cx = x.get_char(j);
        let cy = y.get_char(j);
        if (cx as u32) < (cy as u32) {
            return Ordering::Less;
        }
        if (cx as u32) > (cy as u32) {
            return Ordering::Greater;
        }
        proof {
            assert(x@.skip(j as int).drop_first() =~= x@.skip(j + 1));
            assert(y@.skip(j as int).drop_first() =~= y@.skip(j + 1));
        }
        j += 1;
    }
    if n1 == n2 {
        Ordering::Equal
    } else if n1 < n2 {
        Ordering::Less
    } else {
        Ordering::Greater
    }
}

/// Compare two raw version segments with the run-splitting algorithm.
pub fn vercomp(a: &str, b: &str) -> (r: Ordering)
    ensures
        r == spec_vercomp(a@, b@),
{
    if str_eq(a, b) {
        proof {
            lemma_vercomp_reflexive(a@);
        }
        return Ordering::Equal;
    }
    let mut beg1: &str = a;
    let mut beg2: &str = b;
    loop
        invariant
            spec_vercomp(beg1@, beg2@) == spec_vercomp(a@, b@),
        decreases beg1@.len() + beg2@.len(),
    {
        if atend(beg1, beg2) {
            return trailing_cmp(beg1, beg2);
        }
        let (rem1, sym1) = take_noalnum(beg1);
        let (rem2, sym2) = take_noalnum(beg2);
        proof {
            lemma_run_len_props(beg1@, RunKind::Separator);
            lemma_run_len_props(beg2@, RunKind::Separator);
        }
        if atend(rem1, rem2) {
            return trailing_cmp(rem1, rem2);
        }
        let sk1 = sym1.unicode_len();
        let sk2 = sym2.unicode_len();
        if sk1 != sk2 {
            return if sk1 < sk2 {
                Ordering::Less
            } else {
                Ordering::Greater
            };
        }
        let is_num = digit_char(rem1.get_char(0));
        let (rem1b, chk1) = if is_num {
            take_digits(rem1)
        } else {
            take_alpha(rem1)
        };
        let (rem2b, chk2) = if is_num {
            take_digits(rem2)
        } else {
            take_alpha(rem2)
        };
        let ghost k = if is_num {
            RunKind::Digits
        } else {
            RunKind::Letters
        };
        proof {
            lemma_run_len_props(rem1@, k);
            lemma_run_len_props(rem2@, k);
        }
        if chk1.is_empty() || chk2.is_empty() {
            return if is_num {
                Ordering::Greater
            } else {
                Ordering::Less
            };
        }
        let c = if is_num {
            proof {
                assert forall|t: int| 0 <= t < chk1@.len() implies is_digit(chk1@[t]) by {
                    assert(chk1@[t] == rem1@[t]);
                }
                assert forall|t: int| 0 <= t < chk2@.len() implies is_digit(chk2@[t]) by {
                    assert(chk2@[t] == rem2@[t]);
                }
            }
            cmp_digit_runs(chk1, chk2)
        } else {
            cmp_lex(chk1, chk2)
        };
        match c {
            Ordering::Equal => {},
            v => {
                return v;
            },
        }
        beg1 = rem1b;
        beg2 = rem2b;
    }
}

} // verus!

