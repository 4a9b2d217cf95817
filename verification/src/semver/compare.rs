//! The total order on versions: numeric components first (calendar versions
//! sorting below everything else), then prerelease identifiers (a prerelease
//! sorts below the same release without one), then build identifiers.

use core::cmp::Ordering;
use vstd::prelude::*;

use crate::order::{
    cmp_chars, cmp_ints, cmp_strs, lemma_cmp_chars_basics, lemma_cmp_chars_skip,
    lemma_cmp_ints_basics, lemma_cmp_ints_skip, lemma_cmp_ints_trans, lemma_cmp_strs_basics,
    lemma_cmp_strs_skip, lemma_cmp_strs_trans,
};
use crate::semver::Semver;

verus! {

/// The component view used for ordering: a version whose major looks like a
/// calendar year (and is not the infinity sentinel) is compared as if three
/// zero components were prepended.
pub open spec fn calver_comps(v: Semver) -> Seq<int> {
    if v.major < 1996 || v.major == usize::MAX {
        v.comps()
    } else {
        seq![0, 0, 0] + v.comps()
    }
}

/// Prerelease comparison: equal when both lists are empty; a version without
/// a prerelease outranks one with; otherwise component-wise.
pub open spec fn pre_cmp(ap: Seq<Seq<char>>, bp: Seq<Seq<char>>) -> int {
    if ap.len() == 0 && bp.len() > 0 {
        1
    } else if ap.len() > 0 && bp.len() == 0 {
        -1
    } else {
        cmp_strs(ap, bp)
    }
}

pub open spec fn cmp_parts(
    ac: Seq<int>,
    ap: Seq<Seq<char>>,
    ab: Seq<Seq<char>>,
    bc: Seq<int>,
    bp: Seq<Seq<char>>,
    bb: Seq<Seq<char>>,
) -> int {
    let c = cmp_ints(ac, bc);
    if c != 0 {
        c
    } else {
        let p = pre_cmp(ap, bp);
        if p != 0 {
            p
        } else {
            cmp_strs(ab, bb)
        }
    }
}

/// The three-way comparison of two versions: negative when `a` sorts below
/// `b`, zero when they are the same version, positive when above.
pub open spec fn spec_cmp(a: Semver, b: Semver) -> int {
    cmp_parts(calver_comps(a), a.pre(), a.bld(), calver_comps(b), b.pre(), b.bld())
}

pub open spec fn ord_of(c: int) -> Ordering {
    if c < 0 {
        Ordering::Less
    } else if c == 0 {
        Ordering::Equal
    } else {
        Ordering::Greater
    }
}

// ---------- the order laws ----------

proof fn lemma_pre_cmp_basics(ap: Seq<Seq<char>>, bp: Seq<Seq<char>>)
    ensures
        -1 <= pre_cmp(ap, bp) <= 1,
        pre_cmp(ap, bp) == 0 <==> ap == bp,
        pre_cmp(ap, bp) == -pre_cmp(bp, ap),
{
    lemma_cmp_strs_basics(ap, bp);
    lemma_cmp_strs_basics(bp, ap);
}

proof fn lemma_pre_cmp_trans(ap: Seq<Seq<char>>, bp: Seq<Seq<char>>, cp: Seq<Seq<char>>)
    requires
        pre_cmp(ap, bp) < 0,
        pre_cmp(bp, cp) < 0,
    ensures
        pre_cmp(ap, cp) < 0,
{
    lemma_cmp_strs_basics(ap, bp);
    lemma_cmp_strs_basics(bp, cp);
    assert(ap.len() > 0);
    assert(bp.len() > 0);
    if cp.len() > 0 {
        lemma_cmp_strs_trans(ap, bp, cp);
    }
}

/// Comparison of versions is a strict total order.  This lemma gives the
/// trichotomy: the comparison always yields -1, 0 or 1, is antisymmetric,
/// and yields 0 on a version compared with itself, so exactly one of
/// below / same / above holds of any pair.
pub proof fn lemma_order_trichotomy(a: Semver, b: Semver)
    ensures
        -1 <= spec_cmp(a, b) <= 1,
        spec_cmp(a, b) == -spec_cmp(b, a),
        spec_cmp(a, a) == 0,
{
    lemma_cmp_ints_basics(calver_comps(a), calver_comps(b));
    lemma_pre_cmp_basics(a.pre(), b.pre());
    lemma_cmp_strs_basics(a.bld(), b.bld());
    lemma_cmp_ints_basics(calver_comps(a), calver_comps(a));
    lemma_pre_cmp_basics(a.pre(), a.pre());
    lemma_cmp_strs_basics(a.bld(), a.bld());
}

/// A comparison of zero means the two versions have the same ordering view:
/// equal components (after the calendar normalisation), equal prerelease
/// lists, and equal build lists.
pub proof fn lemma_order_zero(a: Semver, b: Semver)
    ensures
        spec_cmp(a, b) == 0 <==> (calver_comps(a) == calver_comps(b) && a.pre() == b.pre()
            && a.bld() == b.bld()),
{
    lemma_cmp_ints_basics(calver_comps(a), calver_comps(b));
    lemma_pre_cmp_basics(a.pre(), b.pre());
    lemma_cmp_strs_basics(a.bld(), b.bld());
}

/// Comparison of versions is a strict total order.  This lemma gives the
/// transitivity, in strict and non-strict form, over any chain of three.
pub proof fn lemma_order_transitive(a: Semver, b: Semver, c: Semver)
    requires
        spec_cmp(a, b) <= 0,
        spec_cmp(b, c) <= 0,
    ensures
        spec_cmp(a, c) <= 0,
        spec_cmp(a, b) < 0 || spec_cmp(b, c) < 0 ==> spec_cmp(a, c) < 0,
{
    lemma_order_zero(a, b);
    lemma_order_zero(b, c);
    lemma_order_zero(a, c);
    if spec_cmp(a, b) == 0 {
    } else if spec_cmp(b, c) == 0 {
    } else {
        let c1ab = cmp_ints(calver_comps(a), calver_comps(b));
        let c1bc = cmp_ints(calver_comps(b), calver_comps(c));
        lemma_cmp_ints_basics(calver_comps(a), calver_comps(b));
        lemma_cmp_ints_basics(calver_comps(b), calver_comps(c));
        lemma_cmp_ints_basics(calver_comps(a), calver_comps(c));
        if c1ab < 0 && c1bc < 0 {
            lemma_cmp_ints_trans(calver_comps(a), calver_comps(b), calver_comps(c));
        } else if c1ab < 0 && c1bc == 0 {
        } else if c1ab == 0 && c1bc < 0 {
        } else {
            assert(c1ab == 0 && c1bc == 0);
            let pab = pre_cmp(a.pre(), b.pre());
            let pbc = pre_cmp(b.pre(), c.pre());
            lemma_pre_cmp_basics(a.pre(), b.pre());
            lemma_pre_cmp_basics(b.pre(), c.pre());
            lemma_pre_cmp_basics(a.pre(), c.pre());
            if pab < 0 && pbc < 0 {
                lemma_pre_cmp_trans(a.pre(), b.pre(), c.pre());
            } else if pab < 0 && pbc == 0 {
            } else if pab == 0 && pbc < 0 {
            } else {
                assert(pab == 0 && pbc == 0);
                lemma_cmp_strs_basics(a.bld(), b.bld());
                lemma_cmp_strs_basics(b.bld(), c.bld());
                lemma_cmp_strs_trans(a.bld(), b.bld(), c.bld());
            }
        }
    }
}

// ---------- executable comparison ----------

/// Lexicographic three-way comparison of two strings by code point.
fn str_cmp3(a: &String, b: &String) -> (o: Ordering)
    ensures
        o == ord_of(cmp_chars(a@, b@)),
{
    let av = crate::text::chars_of(a.as_str());
    let bv = crate::text::chars_of(b.as_str());
    let mut i: usize = 0;
    loop
        invariant
            i <= av@.len(),
            i <= bv@.len(),
            av@ == a@,
            bv@ == b@,
            forall|k: int| 0 <= k < i ==> a@[k] == b@[k],
        decreases av@.len() - i,
    {
        proof {
            lemma_cmp_chars_skip(a@, b@, i as int);
        }
        if i >= av.len() && i >= bv.len() {
            assert(a@.skip(i as int).len() == 0 && b@.skip(i as int).len() == 0);
            return Ordering::Equal;
        }
        if i >= av.len() {
            assert(a@.skip(i as int).len() == 0 && b@.skip(i as int).len() > 0);
            return Ordering::Less;
        }
        if i >= bv.len() {
            return Ordering::Greater;
        }
        let ca = av[i];
        let cb = bv[i];
        assert(a@.skip(i as int)[0] == a@[i as int]);
        assert(b@.skip(i as int)[0] == b@[i as int]);
        if ca < cb {
            return Ordering::Less;
        }
        if ca > cb {
            return Ordering::Greater;
        }
        assert(ca == cb);
        i = i + 1;
    }
}

/// Component-wise three-way comparison of two numeric vectors; a missing
/// entry loses.
fn nums_cmp3(a: &Vec<usize>, b: &Vec<usize>) -> (o: Ordering)
    ensures
        o == ord_of(
            cmp_ints(a@.map_values(|c: usize| c as int), b@.map_values(|c: usize| c as int)),
        ),
{
    let ghost ga = a@.map_values(|c: usize| c as int);
    let ghost gb = b@.map_values(|c: usize| c as int);
    let mut i: usize = 0;
    loop
        invariant
            i <= a@.len(),
            i <= b@.len(),
            ga == a@.map_values(|c: usize| c as int),
            gb == b@.map_values(|c: usize| c as int),
            forall|k: int| 0 <= k < i ==> ga[k] == gb[k],
        decreases a@.len() - i,
    {
        proof {
            lemma_cmp_ints_skip(ga, gb, i as int);
        }
        if i >= a.len() && i >= b.len() {
            return Ordering::Equal;
        }
        if i >= a.len() {
            return Ordering::Less;
        }
        if i >= b.len() {
            return Ordering::Greater;
        }
        assert(ga.skip(i as int)[0] == ga[i as int]);
        assert(gb.skip(i as int)[0] == gb[i as int]);
        if a[i] < b[i] {
            return Ordering::Less;
        }
        if a[i] > b[i] {
            return Ordering::Greater;
        }
        i = i + 1;
    }
}

/// Component-wise three-way comparison of two identifier vectors; a missing
/// identifier loses.
fn strs_cmp3(a: &Vec<String>, b: &Vec<String>) -> (o: Ordering)
    ensures
        o == ord_of(cmp_strs(a.deep_view(), b.deep_view())),
{
    let ghost ga = a.deep_view();
    let ghost gb = b.deep_view();
    let mut i: usize = 0;
    loop
        invariant
            i <= a@.len(),
            i <= b@.len(),
            ga == a.deep_view(),
            gb == b.deep_view(),
            ga.len() == a@.len(),
            gb.len() == b@.len(),
            forall|k: int| 0 <= k < i ==> ga[k] == gb[k],
        decreases a@.len() - i,
    {
        proof {
            lemma_cmp_strs_skip(ga, gb, i as int);
        }
        if i >= a.len() && i >= b.len() {
            return Ordering::Equal;
        }
        if i >= a.len() {
            return Ordering::Less;
        }
        if i >= b.len() {
            return Ordering::Greater;
        }
        assert(ga.skip(i as int)[0] == ga[i as int]);
        assert(gb.skip(i as int)[0] == gb[i as int]);
        assert(ga[i as int] == a@[i as int]@);
        assert(gb[i as int] == b@[i as int]@);
        let o = str_cmp3(&a[i], &b[i]);
        proof {
            lemma_cmp_chars_basics(a@[i as int]@, b@[i as int]@);
        }
        match o {
            Ordering::Equal => {
                i = i + 1;
            },
            _ => {
                return o;
            },
        }
    }
}

impl Semver {
    /// The components as compared, with three zeros prepended for a
    /// calendar-style version.
    fn calver_vec(&self) -> (v: Vec<usize>)
        ensures
            v@.map_values(|c: usize| c as int) == calver_comps(*self),
    {
        if self.major < 1996 || self.major == usize::MAX {
            let v = crate::text::copy_nums(&self.components);
            assert(v@.map_values(|c: usize| c as int) =~= calver_comps(*self));
            v
        } else {
            let mut v: Vec<usize> = Vec::new();
            v.push(0);
            v.push(0);
            v.push(0);
            let mut i: usize = 0;
            while i < self.components.len()
                invariant
                    i <= self.components@.len(),
                    v@ == seq![0usize, 0usize, 0usize] + self.components@.take(i as int),
                decreases self.components@.len() - i,
            {
                v.push(self.components[i]);
                assert(v@ =~= seq![0usize, 0usize, 0usize] + self.components@.take(i + 1));
                i = i + 1;
            }
            assert(self.components@.take(self.components@.len() as int) =~= self.components@);
            assert(v@.map_values(|c: usize| c as int) =~= calver_comps(*self));
            v
        }
    }

    /// The three-way comparison that the ordering predicates share.
    pub fn compare(&self, other: &Semver) -> (o: Ordering)
        ensures
            o == ord_of(spec_cmp(*self, *other)),
    {
        let ac = self.calver_vec();
        let bc = other.calver_vec();
        let first = nums_cmp3(&ac, &bc);
        match first {
            Ordering::Equal => {},
            _ => {
                return first;
            },
        }
        if self.prerelease.len() == 0 && other.prerelease.len() > 0 {
            assert(self.pre().len() == 0 && other.pre().len() > 0);
            return Ordering::Greater;
        }
        if self.prerelease.len() > 0 && other.prerelease.len() == 0 {
            assert(self.pre().len() > 0 && other.pre().len() == 0);
            return Ordering::Less;
        }
        let second = strs_cmp3(&self.prerelease, &other.prerelease);
        match second {
            Ordering::Equal => {},
            _ => {
                return second;
            },
        }
        strs_cmp3(&self.build, &other.build)
    }

    /// True when the two versions are the same version.
    pub fn eq(&self, other: &Semver) -> (r: bool)
        ensures
            r == (spec_cmp(*self, *other) == 0),
    {
        match self.compare(other) {
            Ordering::Equal => true,
            _ => false,
        }
    }

    /// True when the two versions differ.
    pub fn neq(&self, other: &Semver) -> (r: bool)
        ensures
            r == (spec_cmp(*self, *other) != 0),
    {
        match self.compare(other) {
            Ordering::Equal => false,
            _ => true,
        }
    }

    /// True when this version sorts strictly above `other`.
    pub fn gt(&self, other: &Semver) -> (r: bool)
        ensures
            r == (spec_cmp(*self, *other) > 0),
    {
        match self.compare(other) {
            Ordering::Greater => true,
            _ => false,
        }
    }

    /// True when this version sorts strictly below `other`.
    pub fn lt(&self, other: &Semver) -> (r: bool)
        ensures
            r == (spec_cmp(*self, *other) < 0),
    {
        match self.compare(other) {
            Ordering::Less => true,
            _ => false,
        }
    }
}

impl PartialEq for Semver {
    fn eq(&self, other: &Semver) -> (r: bool) {
        Semver::eq(self, other)
    }
}

impl vstd::std_specs::cmp::PartialEqSpecImpl for Semver {
    open spec fn obeys_eq_spec() -> bool {
        true
    }

    open spec fn eq_spec(&self, other: &Semver) -> bool {
        spec_cmp(*self, *other) == 0
    }
}

impl PartialOrd for Semver {
    fn partial_cmp(&self, other: &Semver) -> (r: Option<Ordering>) {
        Some(Semver::compare(self, other))
    }
}

impl vstd::std_specs::cmp::PartialOrdSpecImpl for Semver {
    open spec fn obeys_partial_cmp_spec() -> bool {
        true
    }

    open spec fn partial_cmp_spec(&self, other: &Semver) -> Option<Ordering> {
        Some(ord_of(spec_cmp(*self, *other)))
    }
}

} // verus!
