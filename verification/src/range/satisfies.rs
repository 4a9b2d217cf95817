//! Whether a version satisfies a constraint, and a range: inclusive lower
//! bounds, exclusive upper bounds, and a range is the disjunction of its set.

use vstd::prelude::*;

use crate::range::{Constraint, Range};
use crate::semver::compare::spec_cmp;
use crate::semver::Semver;

verus! {

/// `Any` accepts everything; `Single` accepts equal versions; `Contiguous`
/// accepts the lower bound and everything strictly between the bounds.
pub open spec fn constraint_satisfied(c: Constraint, v: Semver) -> bool {
    match c {
        Constraint::Any => true,
        Constraint::Single(x) => spec_cmp(x, v) == 0,
        Constraint::Contiguous(lo, hi) => spec_cmp(lo, v) == 0 || (spec_cmp(lo, v) < 0 && spec_cmp(
            hi,
            v,
        ) > 0),
    }
}

/// A version satisfies a range when it satisfies any constraint of the set.
pub open spec fn range_satisfied(cs: Seq<Constraint>, v: Semver) -> bool {
    exists|i: int| 0 <= i < cs.len() && constraint_satisfied(#[trigger] cs[i], v)
}

/// A range holding an unconstrained member accepts every version, whatever
/// else stands beside it.
pub proof fn lemma_any_satisfies(cs: Seq<Constraint>, v: Semver)
    requires
        exists|i: int| 0 <= i < cs.len() && #[trigger] cs[i] is Any,
    ensures
        range_satisfied(cs, v),
{
    let i = choose|i: int| 0 <= i < cs.len() && #[trigger] cs[i] is Any;
    assert(constraint_satisfied(cs[i], v));
}

impl Constraint {
    /// True when the version satisfies this constraint.
    pub fn satisfies(&self, semver: &Semver) -> (r: bool)
        ensures
            r == constraint_satisfied(*self, *semver),
    {
        match self {
            Constraint::Any => true,
            Constraint::Single(v) => v.eq(semver),
            Constraint::Contiguous(v1, v2) => v1.eq(semver) || (v1.lt(semver) && v2.gt(semver)),
        }
    }
}

impl Range {
    /// True when the version satisfies any constraint of this range.
    pub fn satisfies(&self, semver: &Semver) -> (r: bool)
        ensures
            r == range_satisfied(self.set@, *semver),
    {
        let mut i: usize = 0;
        while i < self.set.len()
            invariant
                i <= self.set@.len(),
                forall|k: int|
                    0 <= k < i ==> !constraint_satisfied(#[trigger] self.set@[k], *semver),
            decreases self.set@.len() - i,
        {
            if self.set[i].satisfies(semver) {
                return true;
            }
            i = i + 1;
        }
        false
    }
}

} // verus!
