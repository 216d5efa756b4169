//! Full version strings: `[epoch:]version[-release]`.
//!
//! A `Version` wraps raw, unvalidated text.  Decomposition never fails:
//! the epoch is a leading digit run followed by `:` (defaulting to `"0"`),
//! and the release is whatever follows the last `-` of the remainder.
//! The total comparison runs `vercomp` on the epochs, then on the version
//! parts, and on the releases only when both are present; a missing
//! release is excluded from comparison rather than compared as empty.

use vstd::prelude::*;
use vstd::string::*;
use core::cmp::Ordering;
use crate::segments::RunKind;
use crate::segments::lemma_run_len_props;
use crate::segments::run_len;
use crate::segments::str_eq;
use crate::segments::take_digits;
use crate::compare::flip;
use crate::compare::lemma_vercomp_antisymmetric;
use crate::compare::lemma_vercomp_reflexive;
use crate::compare::spec_vercomp;
use crate::compare::vercomp;

verus! {

/// The decomposition of a full version string, as mathematical values.
pub ghost struct ComponentsView {
    pub epoch: Seq<char>,
    pub version: Seq<char>,
    pub release: Option<Seq<char>>,
}

/// Whether `s` starts with a non-empty digit run followed by `:`.
pub open spec fn has_epoch(s: Seq<char>) -> bool {
    let d = run_len(s, RunKind::Digits);
    d > 0 && d < s.len() && s[d as int] as u32 == 58
}

/// The epoch component: the leading digit run when one is marked off by
/// `:`, and `"0"` otherwise.
pub open spec fn spec_epoch(s: Seq<char>) -> Seq<char> {
    if has_epoch(s) {
        s.take(run_len(s, RunKind::Digits) as int)
    } else {
        seq!['0']
    }
}

/// What remains once a leading `epoch:` prefix is removed.
pub open spec fn spec_version_release(s: Seq<char>) -> Seq<char> {
    if has_epoch(s) {
        s.skip(run_len(s, RunKind::Digits) as int + 1)
    } else {
        s
    }
}

/// Index of the last `-` in `s`, or -1 when there is none.
pub open spec fn last_dash(s: Seq<char>) -> int
    decreases s.len(),
{
    if s.len() == 0 {
        -1
    } else if s.last() as u32 == 45 {
        s.len() - 1
    } else {
        last_dash(s.drop_last())
    }
}

/// `last_dash` points at a `-` and nothing after it is a `-`.
pub proof fn lemma_last_dash_props(s: Seq<char>)
    ensures
        -1 <= last_dash(s) < s.len(),
        last_dash(s) >= 0 ==> s[last_dash(s)] as u32 == 45,
        forall|i: int| last_dash(s) < i < s.len() ==> s[i] as u32 != 45,
    decreases s.len(),
{
    if s.len() > 0 && s.last() as u32 != 45 {
        let d = s.drop_last();
        lemma_last_dash_props(d);
        assert forall|i: int| last_dash(s) < i < s.len() implies s[i] as u32 != 45 by {
            if i < s.len() - 1 {
                assert(d[i] == s[i]);
            }
        }
    }
}

/// The version component: what stands before the last `-` of the
/// epoch-stripped remainder, or all of it when no `-` exists.
pub open spec fn spec_version(s: Seq<char>) -> Seq<char> {
    let vr = spec_version_release(s);
    if last_dash(vr) >= 0 {
        vr.take(last_dash(vr))
    } else {
        vr
    }
}

/// The release component: what follows the last `-` of the
/// epoch-stripped remainder, if any.
pub open spec fn spec_release(s: Seq<char>) -> Option<Seq<char>> {
    let vr = spec_version_release(s);
    if last_dash(vr) >= 0 {
        Some(vr.skip(last_dash(vr) + 1))
    } else {
        None
    }
}

/// The decomposition of `s` into epoch, version and release.
pub open spec fn spec_components(s: Seq<char>) -> ComponentsView {
    ComponentsView {
        epoch: spec_epoch(s),
        version: spec_version(s),
        release: spec_release(s),
    }
}

/// Three-way comparison of two decompositions: epochs first, then
/// version parts, then releases, the latter only when both are present.
pub open spec fn spec_components_cmp(x: ComponentsView, y: ComponentsView) -> Ordering {
    let e = spec_vercomp(x.epoch, y.epoch);
    let r0 = if e != Ordering::Equal {
        e
    } else {
        spec_vercomp(x.version, y.version)
    };
    if r0 == Ordering::Equal && x.release is Some && y.release is Some {
        spec_vercomp(x.release->0, y.release->0)
    } else {
        r0
    }
}

/// Three-way comparison of two full version strings.
pub open spec fn spec_total_cmp(a: Seq<char>, b: Seq<char>) -> Ordering {
    spec_components_cmp(spec_components(a), spec_components(b))
}

/// Composition of a decomposition back into text: a missing release
/// becomes `"1"`, and an epoch of `"0"` is left implicit.
pub open spec fn spec_compose(c: ComponentsView) -> Seq<char> {
    let rel = match c.release {
        Some(r) => r,
        None => seq!['1'],
    };
    if c.epoch == seq!['0'] {
        c.version + seq!['-'] + rel
    } else {
        c.epoch + seq![':'] + c.version + seq!['-'] + rel
    }
}

/// A raw, unvalidated version string.
#[derive(Clone, Debug)]
pub struct Version(String);

impl View for Version {
    type V = Seq<char>;

    closed spec fn view(&self) -> Seq<char> {
        self.0@
    }
}

/// The decomposition of a `Version`, as owned text.
#[derive(Clone, Debug)]
pub struct VersionComponents {
    pub epoch: String,
    pub version: String,
    pub release: Option<String>,
}

impl View for VersionComponents {
    type V = ComponentsView;

    open spec fn view(&self) -> ComponentsView {
        ComponentsView {
            epoch: self.epoch@,
            version: self.version@,
            release: match self.release {
                Some(r) => Some(r@),
                None => None,
            },
        }
    }
}

impl Version {
    /// Wrap arbitrary text as a version; nothing is validated.
    pub fn new(s: String) -> (v: Self)
        ensures
            v@ == s@,
    {
        Version(s)
    }

    /// Decompose into `(epoch, version, release)`.
    pub fn as_components(&self) -> (c: VersionComponents)
        ensures
            c@ == spec_components(self@),
    {
        let evr: &str = self.0.as_str();
        let n = evr.unicode_len();
        let (_, epoch_run) = take_digits(evr);
        proof {
            lemma_run_len_props(evr@, RunKind::Digits);
        }
        let d = epoch_run.unicode_len();
        let has = d > 0 && d < n && evr.get_char(d) as u32 == 58;
        let (epoch_s, vr): (String, &str) = if has {
            (String::from_str(epoch_run), evr.substring_char(d + 1, n))
        } else {
            proof {
                reveal_strlit("0");
            }
            (String::from_str("0"), evr)
        };
        proof {
            assert("0"@ =~= seq!['0']) by {
                reveal_strlit("0");
            }
            assert(vr@ =~= spec_version_release(self@));
        }
        let m = vr.unicode_len();
        let mut j: usize = m;
        loop
            invariant
                j <= m,
                m == vr@.len(),
                forall|t: int| j <= t < m ==> vr@[t] as u32 != 45,
            ensures
                j <= m,
                m == vr@.len(),
                forall|t: int| j <= t < m ==> vr@[t] as u32 != 45,
                j > 0 ==> vr@[j - 1] as u32 == 45,
            decreases j,
        {
            if j == 0 {
                break;
            }
            if vr.get_char(j - 1) as u32 == 45 {
                break;
            }
            j -= 1;
        }
        proof {
            lemma_last_dash_props(vr@);
            if j > 0 {
                assert(last_dash(vr@) == j - 1);
            } else {
                assert(last_dash(vr@) == -1);
            }
        }
        if j > 0 {
            let version = vr.substring_char(0, j - 1);
            let release = vr.substring_char(j, m);
            VersionComponents {
                epoch: epoch_s,
                version: String::from_str(version),
                release: Some(String::from_str(release)),
            }
        } else {
            VersionComponents { epoch: epoch_s, version: String::from_str(vr), release: None }
        }
    }

    /// The raw text, unchanged.
    pub fn as_str(&self) -> (r: &str)
        ensures
            r@ == self@,
    {
        self.0.as_str()
    }

    /// Give the raw text back.
    pub fn into_string(self) -> (r: String)
        ensures
            r@ == self@,
    {
        self.0
    }

    /// Three-way comparison of two versions.
    pub fn cmp(&self, other: &Self) -> (r: Ordering)
        ensures
            r == spec_total_cmp(self@, other@),
    {
        self.as_components().cmp(&other.as_components())
    }
}

impl VersionComponents {
    /// Compose back into a version string, substituting `"1"` for a
    /// missing release and leaving an epoch of `"0"` implicit.
    pub fn to_version(&self) -> (v: Version)
        ensures
            v@ == spec_compose(self@),
    {
        proof {
            reveal_strlit("0");
            reveal_strlit("1");
            reveal_strlit(":");
            reveal_strlit("-");
            assert("0"@ =~= seq!['0']);
            assert("1"@ =~= seq!['1']);
            assert(":"@ =~= seq![':']);
            assert("-"@ =~= seq!['-']);
        }
        let rel: &str = match &self.release {
            Some(r) => r.as_str(),
            None => "1",
        };
        let mut out = String::new();
        if !str_eq(self.epoch.as_str(), "0") {
            out.append(self.epoch.as_str());
            out.append(":");
        }
        out.append(self.version.as_str());
        out.append("-");
        out.append(rel);
        proof {
            assert(out@ =~= spec_compose(self@));
        }
        Version::new(out)
    }

    /// Three-way comparison of two decompositions.
    pub fn cmp(&self, other: &Self) -> (r: Ordering)
        ensures
            r == spec_components_cmp(self@, other@),
    {
        let e = vercomp(self.epoch.as_str(), other.epoch.as_str());
        let r0 = if matches!(e, Ordering::Equal) {
            vercomp(self.version.as_str(), other.version.as_str())
        } else {
            e
        };
        match (&self.release, &other.release) {
            (Some(rel1), Some(rel2)) => {
                if matches!(r0, Ordering::Equal) {
                    vercomp(rel1.as_str(), rel2.as_str())
                } else {
                    r0
                }
            },
            _ => r0,
        }
    }
}

impl PartialEq for Version {
    /// Equality is derived from the comparison order, not from raw text.
    fn eq(&self, other: &Self) -> (r: bool) {
        matches!(self.cmp(other), Ordering::Equal)
    }
}

impl vstd::std_specs::cmp::PartialEqSpecImpl for Version {
    open spec fn obeys_eq_spec() -> bool {
        true
    }

    open spec fn eq_spec(&self, other: &Self) -> bool {
        spec_total_cmp(self@, other@) == Ordering::Equal
    }
}

impl Eq for Version {}

impl PartialOrd for Version {
    /// The order induced by the total comparison.
    fn partial_cmp(&self, other: &Self) -> (r: Option<Ordering>) {
        Some(self.cmp(other))
    }
}

impl vstd::std_specs::cmp::PartialOrdSpecImpl for Version {
    open spec fn obeys_partial_cmp_spec() -> bool {
        true
    }

    open spec fn partial_cmp_spec(&self, other: &Self) -> Option<Ordering> {
        Some(spec_total_cmp(self@, other@))
    }
}

impl From<String> for Version {
    /// Same as `Version::new`.
    fn from(s: String) -> (v: Self) {
        Version(s)
    }
}

impl vstd::std_specs::convert::FromSpecImpl<String> for Version {
    open spec fn obeys_from_spec() -> bool {
        true
    }

    closed spec fn from_spec(s: String) -> Self {
        Version(s)
    }
}

impl PartialEq for VersionComponents {
    /// Equality is derived from the comparison order, not from raw text.
    fn eq(&self, other: &Self) -> (r: bool) {
        matches!(self.cmp(other), Ordering::Equal)
    }
}

impl vstd::std_specs::cmp::PartialEqSpecImpl for VersionComponents {
    open spec fn obeys_eq_spec() -> bool {
        true
    }

    open spec fn eq_spec(&self, other: &Self) -> bool {
        spec_components_cmp(self@, other@) == Ordering::Equal
    }
}

impl Eq for VersionComponents {}

impl PartialOrd for VersionComponents {
    /// The order induced by the component-wise comparison.
    fn partial_cmp(&self, other: &Self) -> (r: Option<Ordering>) {
        Some(self.cmp(other))
    }
}

impl vstd::std_specs::cmp::PartialOrdSpecImpl for VersionComponents {
    open spec fn obeys_partial_cmp_spec() -> bool {
        true
    }

    open spec fn partial_cmp_spec(&self, other: &Self) -> Option<Ordering> {
        Some(spec_components_cmp(self@, other@))
    }
}

/// Comparing any decomposition with itself yields `Equal`.
pub proof fn lemma_components_cmp_reflexive(x: ComponentsView)
    ensures
        spec_components_cmp(x, x) == Ordering::Equal,
{
    lemma_vercomp_reflexive(x.epoch);
    lemma_vercomp_reflexive(x.version);
    if x.release is Some {
        lemma_vercomp_reflexive(x.release->0);
    }
}

/// Swapping the arguments of the decomposition comparison mirrors its
/// result.
pub proof fn lemma_components_cmp_antisymmetric(x: ComponentsView, y: ComponentsView)
    ensures
        spec_components_cmp(y, x) == flip(spec_components_cmp(x, y)),
{
    lemma_vercomp_antisymmetric(x.epoch, y.epoch);
    lemma_vercomp_antisymmetric(x.version, y.version);
    if x.release is Some && y.release is Some {
        lemma_vercomp_antisymmetric(x.release->0, y.release->0);
    }
}

/// Comparing any full version string with itself yields `Equal`.
pub proof fn lemma_total_cmp_reflexive(v: Seq<char>)
    ensures
        spec_total_cmp(v, v) == Ordering::Equal,
{
    lemma_components_cmp_reflexive(spec_components(v));
}

/// Swapping the arguments of the total comparison mirrors its result.
pub proof fn lemma_total_cmp_antisymmetric(a: Seq<char>, b: Seq<char>)
    ensures
        spec_total_cmp(b, a) == flip(spec_total_cmp(a, b)),
{
    lemma_components_cmp_antisymmetric(spec_components(a), spec_components(b));
}

} // verus!
