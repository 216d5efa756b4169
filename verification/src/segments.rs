//! Character classes and maximal character runs.
//!
//! The comparison algorithm walks two strings in lockstep, repeatedly
//! extracting the maximal leading run of one kind of character: separators
//! (anything that is not an ASCII letter or digit), ASCII digits, or ASCII
//! letters.  This module defines those classes, the length of a maximal
//! run, and executable functions that split a string at the end of a run.

use vstd::prelude::*;
use vstd::string::*;

verus! {

/// An ASCII decimal digit.
pub open spec fn is_digit(c: char) -> bool {
    48 <= c as u32 && c as u32 <= 57
}

/// An ASCII letter.
pub open spec fn is_alpha(c: char) -> bool {
    (65 <= c as u32 && c as u32 <= 90) || (97 <= c as u32 && c as u32 <= 122)
}

/// An ASCII letter or digit.
pub open spec fn is_alnum(c: char) -> bool {
    is_digit(c) || is_alpha(c)
}

/// The three kinds of character run the comparator extracts.
#[derive(Clone, Copy)]
pub enum RunKind {
    Separator,
    Digits,
    Letters,
}

/// Whether `c` belongs to the character class of kind `k`.
pub open spec fn kind_pred(k: RunKind, c: char) -> bool {
    match k {
        RunKind::Separator => !is_alnum(c),
        RunKind::Digits => is_digit(c),
        RunKind::Letters => is_alpha(c),
    }
}

/// Length of the maximal prefix of `s` made of characters of kind `k`.
pub open spec fn run_len(s: Seq<char>, k: RunKind) -> nat
    decreases s.len(),
{
    if s.len() == 0 || !kind_pred(k, s[0]) {
        0
    } else {
        1 + run_len(s.drop_first(), k)
    }
}

/// The maximal run is bounded by the string, all of its characters are of
/// kind `k`, and the character right after it (if any) is not.
pub proof fn lemma_run_len_props(s: Seq<char>, k: RunKind)
    ensures
        run_len(s, k) <= s.len(),
        forall|i: int| 0 <= i < run_len(s, k) ==> kind_pred(k, s[i]),
        run_len(s, k) < s.len() ==> !kind_pred(k, s[run_len(s, k) as int]),
    decreases s.len(),
{
    if s.len() == 0 || !kind_pred(k, s[0]) {
    } else {
        let t = s.drop_first();
        lemma_run_len_props(t, k);
        assert forall|i: int| 0 <= i < run_len(s, k) implies kind_pred(k, s[i]) by {
            if i > 0 {
                assert(t[i - 1] == s[i]);
            }
        }
        if run_len(s, k) < s.len() {
            assert(t[run_len(s, k) - 1] == s[run_len(s, k) as int]);
        }
    }
}

/// A position that ends a maximal run of kind `k` is exactly `run_len`.
pub proof fn lemma_run_len_is(s: Seq<char>, k: RunKind, n: int)
    requires
        0 <= n <= s.len(),
        forall|i: int| 0 <= i < n ==> kind_pred(k, s[i]),
        n < s.len() ==> !kind_pred(k, s[n]),
    ensures
        run_len(s, k) == n,
{
    lemma_run_len_props(s, k);
}

/// Decide `is_digit` on a concrete character.
pub fn digit_char(c: char) -> (r: bool)
    ensures
        r == is_digit(c),
{
    let u = c as u32;
    48 <= u && u <= 57
}

/// Decide `is_alpha` on a concrete character.
pub fn alpha_char(c: char) -> (r: bool)
    ensures
        r == is_alpha(c),
{
    let u = c as u32;
    (65 <= u && u <= 90) || (97 <= u && u <= 122)
}

/// Decide membership in the character class of kind `k`.
pub fn kind_char(k: RunKind, c: char) -> (r: bool)
    ensures
        r == kind_pred(k, c),
{
    match k {
        RunKind::Separator => !(digit_char(c) || alpha_char(c)),
        RunKind::Digits => digit_char(c),
        RunKind::Letters => alpha_char(c),
    }
}

/// Split `i` at the end of its maximal leading run of kind `k`, returning
/// the remainder first and the consumed run second.
pub fn take_run(i: &str, k: RunKind) -> (r: (&str, &str))
    ensures
        r.0@ == i@.skip(run_len(i@, k) as int),
        r.1@ == i@.take(run_len(i@, k) as int),
{
    let n = i.unicode_len();
    let mut j: usize = 0;
    loop
        invariant
            j <= n,
            n == i@.len(),
            forall|t: int| 0 <= t < j ==> kind_pred(k, i@[t]),
        ensures
            j <= n,
            n == i@.len(),
            forall|t: int| 0 <= t < j ==> kind_pred(k, i@[t]),
            j < n ==> !kind_pred(k, i@[j as int]),
        decreases n - j,
    {
        if j == n {
            break;
        }
        let c = i.get_char(j);
        if !kind_char(k, c) {
            break;
        }
        j += 1;
    }
    proof {
        lemma_run_len_is(i@, k, j as int);
    }
    let rest = i.substring_char(j, n);
    let run = i.substring_char(0, j);
    (rest, run)
}

/// Strip the maximal leading run of non-alphanumeric characters, returning
/// the remainder and the separator run.
pub fn take_noalnum(i: &str) -> (r: (&str, &str))
    ensures
        r.0@ == i@.skip(run_len(i@, RunKind::Separator) as int),
        r.1@ == i@.take(run_len(i@, RunKind::Separator) as int),
{
    take_run(i, RunKind::Separator)
}

/// Strip the maximal leading run of ASCII digits, returning the remainder
/// and the digit run (empty when `i` does not start with a digit).
pub fn take_digits(i: &str) -> (r: (&str, &str))
    ensures
        r.0@ == i@.skip(run_len(i@, RunKind::Digits) as int),
        r.1@ == i@.take(run_len(i@, RunKind::Digits) as int),
{
    take_run(i, RunKind::Digits)
}

/// Strip the maximal leading run of ASCII letters, returning the remainder
/// and the letter run (empty when `i` does not start with a letter).
pub fn take_alpha(i: &str) -> (r: (&str, &str))
    ensures
        r.0@ == i@.skip(run_len(i@, RunKind::Letters) as int),
        r.1@ == i@.take(run_len(i@, RunKind::Letters) as int),
{
    take_run(i, RunKind::Letters)
}

/// Whether either cursor has run off the end of its string.
pub fn atend(a: &str, b: &str) -> (r: bool)
    ensures
        r == (a@.len() == 0 || b@.len() == 0),
{
    a.is_empty() || b.is_empty()
}

/// Character-for-character equality of two strings.
pub fn str_eq(a: &str, b: &str) -> (r: bool)
    ensures
        r == (a@ == b@),
{
    let n = a.unicode_len();
    if n != b.unicode_len() {
        return false;
    }
    let mut j: usize = 0;
    loop
        invariant
            j <= n,
            n == a@.len(),
            n == b@.len(),
            forall|t: int| 0 <= t < j ==> a@[t] == b@[t],
        ensures
            n == a@.len(),
            n == b@.len(),
            j <= n,
            forall|t: int| 0 <= t < j ==> a@[t] == b@[t],
            j < n ==> a@[j as int] != b@[j as int],
        decreases n - j,
    {
        if j == n {
            break;
        }
        if a.get_char(j) as u32 != b.get_char(j) as u32 {
            break;
        }
        j += 1;
    }
    if j == n {
        proof {
            assert(a@ =~= b@);
        }
        true
    } else {
        false
    }
}

} // verus!
