//! The intersection of two ranges: every constraint of one against every
//! constraint of the other, overlaps kept and duplicates dropped; an
//! unconstrained side yields the other side re-read from its own text.

use vstd::prelude::*;

use crate::error::SemverError;
use crate::range::parse::{parse_post, range_ok, range_parse_of, stripped};
use crate::range::satisfies::constraint_satisfied;
use crate::range::{set_raw_chars, Constraint, Range};
use crate::semver::compare::spec_cmp;
use crate::semver::Semver;

verus! {

/// An unconstrained side hands the other side back verbatim.  When either
/// input of `intersect` holds the `*` constraint, its contract says the
/// result is the other side re-read from its own text; this law adds that
/// whenever that text is its own stripped form and parses as a range — true
/// of every range this library's parser or constructors return — the re-read
/// succeeds and carries exactly that text.
pub proof fn lemma_intersect_any_raw(r: Result<Range, SemverError>, t: Seq<char>)
    requires
        parse_post(r, t),
        stripped(t) == t,
        range_ok(t),
    ensures
        r matches Ok(rg) && rg.raw@ == t,
{
    match r {
        Ok(rg) => {
            assert(range_parse_of(rg, stripped(t)));
        },
        Err(e) => {
            assert(!range_ok(stripped(t)));
        },
    }
}

/// The same constraint in all observable fields.
pub open spec fn c_same(x: Constraint, y: Constraint) -> bool {
    match (x, y) {
        (Constraint::Any, Constraint::Any) => true,
        (Constraint::Single(a), Constraint::Single(b)) => a.same(b),
        (Constraint::Contiguous(a1, a2), Constraint::Contiguous(b1, b2)) => a1.same(b1)
            && a2.same(b2),
        _ => false,
    }
}

pub open spec fn cs_same(xs: Seq<Constraint>, ys: Seq<Constraint>) -> bool {
    &&& xs.len() == ys.len()
    &&& forall|i: int| 0 <= i < xs.len() ==> c_same(#[trigger] xs[i], ys[i])
}

/// Equal constraints, as the set's deduplication sees them: the same shape
/// over versions that compare equal.
pub open spec fn c_eq(x: Constraint, y: Constraint) -> bool {
    match (x, y) {
        (Constraint::Any, Constraint::Any) => true,
        (Constraint::Single(a), Constraint::Single(b)) => spec_cmp(a, b) == 0,
        (Constraint::Contiguous(a1, a2), Constraint::Contiguous(b1, b2)) => spec_cmp(a1, b1) == 0
            && spec_cmp(a2, b2) == 0,
        _ => false,
    }
}

pub open spec fn holds_eq(cs: Seq<Constraint>, c: Constraint) -> bool {
    exists|k: int| 0 <= k < cs.len() && c_eq(#[trigger] cs[k], c)
}

/// What one pair of non-`Any` constraints contributes: equal singles stay, a
/// single inside an interval stays, overlapping intervals yield the tighter
/// interval.
pub open spec fn spec_pair(aa: Constraint, bb: Constraint) -> Option<Constraint> {
    match (aa, bb) {
        (Constraint::Single(x), Constraint::Single(y)) => if spec_cmp(x, y) == 0 {
            Some(aa)
        } else {
            None
        },
        (Constraint::Single(x), Constraint::Contiguous(l, h)) => if constraint_satisfied(bb, x) {
            Some(aa)
        } else {
            None
        },
        (Constraint::Contiguous(l, h), Constraint::Single(y)) => if constraint_satisfied(aa, y) {
            Some(bb)
        } else {
            None
        },
        (Constraint::Contiguous(a1, a2), Constraint::Contiguous(b1, b2)) => if spec_cmp(a1, b2)
            < 0 && spec_cmp(b1, a2) < 0 {
            Some(
                Constraint::Contiguous(
                    if spec_cmp(a1, b1) > 0 {
                        a1
                    } else {
                        b1
                    },
                    if spec_cmp(a2, b2) < 0 {
                        a2
                    } else {
                        b2
                    },
                ),
            )
        } else {
            None
        },
        _ => None,
    }
}

/// One pair folded into the accumulated set, duplicates dropped.
pub open spec fn add_pair(acc: Seq<Constraint>, aa: Constraint, bb: Constraint) -> Seq<
    Constraint,
> {
    match spec_pair(aa, bb) {
        Some(c) => if holds_eq(acc, c) {
            acc
        } else {
            acc.push(c)
        },
        None => acc,
    }
}

/// One left-hand constraint folded against a whole right-hand list.
pub open spec fn inter_row(acc: Seq<Constraint>, aa: Constraint, bs: Seq<Constraint>) -> Seq<
    Constraint,
>
    decreases bs.len(),
{
    if bs.len() == 0 {
        acc
    } else {
        inter_row(add_pair(acc, aa, bs[0]), aa, bs.skip(1))
    }
}

/// Every pair of the two lists folded in order.
pub open spec fn inter_all(acc: Seq<Constraint>, az: Seq<Constraint>, bs: Seq<Constraint>) -> Seq<
    Constraint,
>
    decreases az.len(),
{
    if az.len() == 0 {
        acc
    } else {
        inter_all(inter_row(acc, az[0], bs), az.skip(1), bs)
    }
}

proof fn lemma_inter_row_push(acc: Seq<Constraint>, aa: Constraint, bs: Seq<Constraint>, b: Constraint)
    ensures
        inter_row(acc, aa, bs.push(b)) == add_pair(inter_row(acc, aa, bs), aa, b),
    decreases bs.len(),
{
    reveal_with_fuel(inter_row, 3);
    let w = bs.push(b);
    if bs.len() == 0 {
        assert(w[0] == b);
        assert(w.skip(1) =~= Seq::<Constraint>::empty());
    } else {
        assert(w[0] == bs[0]);
        assert(w.skip(1) =~= bs.skip(1).push(b));
        lemma_inter_row_push(add_pair(acc, aa, bs[0]), aa, bs.skip(1), b);
    }
}

proof fn lemma_inter_all_push(acc: Seq<Constraint>, az: Seq<Constraint>, a: Constraint, bs: Seq<Constraint>)
    ensures
        inter_all(acc, az.push(a), bs) == inter_row(inter_all(acc, az, bs), a, bs),
    decreases az.len(),
{
    reveal_with_fuel(inter_all, 3);
    let w = az.push(a);
    if az.len() == 0 {
        assert(w[0] == a);
        assert(w.skip(1) =~= Seq::<Constraint>::empty());
    } else {
        assert(w[0] == az[0]);
        assert(w.skip(1) =~= az.skip(1).push(a));
        lemma_inter_all_push(inter_row(acc, az[0], bs), az.skip(1), a, bs);
    }
}

// ---------- sameness respects everything the set's text and order need ----------

/// Versions with the same fields compare alike against anything.
proof fn lemma_same_cmp(x: Semver, y: Semver, z: Semver)
    requires
        x.same(y),
    ensures
        spec_cmp(x, z) == spec_cmp(y, z),
        spec_cmp(z, x) == spec_cmp(z, y),
{
    assert(x.comps() =~= y.comps());
    assert(crate::semver::compare::calver_comps(x) == crate::semver::compare::calver_comps(y));
}

proof fn lemma_c_same_eq(x1: Constraint, x2: Constraint, y1: Constraint, y2: Constraint)
    requires
        c_same(x1, x2),
        c_same(y1, y2),
    ensures
        c_eq(x1, y1) == c_eq(x2, y2),
{
    match (x1, x2) {
        (Constraint::Single(a), Constraint::Single(b)) => {
            match (y1, y2) {
                (Constraint::Single(c), Constraint::Single(d)) => {
                    lemma_same_cmp(a, b, c);
                    lemma_same_cmp(c, d, b);
                },
                _ => {},
            }
        },
        (Constraint::Contiguous(a1, a2), Constraint::Contiguous(b1, b2)) => {
            match (y1, y2) {
                (Constraint::Contiguous(c1, c2), Constraint::Contiguous(d1, d2)) => {
                    lemma_same_cmp(a1, b1, c1);
                    lemma_same_cmp(c1, d1, b1);
                    lemma_same_cmp(a2, b2, c2);
                    lemma_same_cmp(c2, d2, b2);
                },
                _ => {},
            }
        },
        _ => {},
    }
}

/// Sets with the same constraints render to the same plain text.
proof fn lemma_cs_same_raw(xs: Seq<Constraint>, ys: Seq<Constraint>)
    requires
        cs_same(xs, ys),
    ensures
        set_raw_chars(xs) == set_raw_chars(ys),
{
    let mx = xs.map_values(|c: Constraint| crate::range::raw_chars(c));
    let my = ys.map_values(|c: Constraint| crate::range::raw_chars(c));
    assert forall|i: int| 0 <= i < xs.len() implies #[trigger] mx[i] == my[i] by {
        assert(c_same(xs[i], ys[i]));
        assert(mx[i] == crate::range::raw_chars(xs[i]));
        assert(my[i] == crate::range::raw_chars(ys[i]));
    }
    assert(mx =~= my);
}

// ---------- executable intersection ----------

fn c_eq_exec(x: &Constraint, y: &Constraint) -> (r: bool)
    ensures
        r == c_eq(*x, *y),
{
    match (x, y) {
        (Constraint::Any, Constraint::Any) => true,
        (Constraint::Single(a), Constraint::Single(b)) => a.eq(b),
        (Constraint::Contiguous(a1, a2), Constraint::Contiguous(b1, b2)) => a1.eq(b1) && a2.eq(
            b2,
        ),
        _ => false,
    }
}

fn holds_eq_exec(cs: &Vec<Constraint>, c: &Constraint) -> (r: bool)
    ensures
        r == holds_eq(cs@, *c),
{
    let mut k: usize = 0;
    while k < cs.len()
        invariant
            k <= cs@.len(),
            forall|j: int| 0 <= j < k ==> !c_eq(#[trigger] cs@[j], *c),
        decreases cs@.len() - k,
    {
        if c_eq_exec(&cs[k], c) {
            return true;
        }
        k = k + 1;
    }
    false
}

/// What one pair of non-`Any` constraints contributes.
fn pair_inter(aa: &Constraint, bb: &Constraint) -> (r: Option<Constraint>)
    requires
        !(aa is Any),
        !(bb is Any),
        aa.wf(),
        bb.wf(),
    ensures
        ({
            let sp = spec_pair(*aa, *bb);
            &&& (r is Some <==> sp is Some)
            &&& (r matches Some(c1) ==> c_same(c1, sp->Some_0) && c1.wf())
        }),
{
    match (aa, bb) {
        (Constraint::Single(x), Constraint::Single(y)) => {
            if x.eq(y) {
                Some(Constraint::Single(x.duplicate()))
            } else {
                None
            }
        },
        (Constraint::Single(x), Constraint::Contiguous(l, h)) => {
            if bb.satisfies(x) {
                Some(Constraint::Single(x.duplicate()))
            } else {
                None
            }
        },
        (Constraint::Contiguous(l, h), Constraint::Single(y)) => {
            if aa.satisfies(y) {
                Some(Constraint::Single(y.duplicate()))
            } else {
                None
            }
        },
        (Constraint::Contiguous(a1, a2), Constraint::Contiguous(b1, b2)) => {
            if a1.lt(b2) && b1.lt(a2) {
                let lo = if a1.gt(b1) {
                    a1.duplicate()
                } else {
                    b1.duplicate()
                };
                let hi = if a2.lt(b2) {
                    a2.duplicate()
                } else {
                    b2.duplicate()
                };
                Some(Constraint::Contiguous(lo, hi))
            } else {
                None
            }
        },
        _ => {
            assert(false);
            None
        },
    }
}

impl Range {
    /// The intersection: each side's constraints pairwise against the
    /// other's, overlaps kept, duplicates dropped, and the result's text
    /// rendered from the kept constraints.  An unconstrained side returns
    /// the other side re-read from its own text; an empty result is no
    /// intersection at all.
    #[verifier::rlimit(60)]
    pub fn intersect(&self, range: &Range) -> (r: Result<Range, SemverError>)
        requires
            self.wf(),
            range.wf(),
        ensures
            ({
                let az = self.set@;
                let bs = range.set@;
                if az[0] is Any {
                    parse_post(r, range.raw@)
                } else if exists|j: int| 0 <= j < bs.len() && #[trigger] bs[j] is Any {
                    parse_post(r, self.raw@)
                } else if exists|i: int| 0 <= i < az.len() && #[trigger] az[i] is Any {
                    parse_post(r, range.raw@)
                } else {
                    let lst = inter_all(Seq::empty(), az, bs);
                    if lst.len() == 0 {
                        r matches Err(e) && e == SemverError::NoIntersection
                    } else {
                        r matches Ok(rg) && {
                            &&& cs_same(rg.set@, lst)
                            &&& rg.raw@ == set_raw_chars(lst)
                            &&& rg.wf()
                        }
                    }
                }
            }),
    {
        let az = &self.set;
        let bs = &range.set;
        let first_any: bool = match &az[0] {
            Constraint::Any => true,
            _ => false,
        };
        if first_any {
            return Range::parse(range.raw.as_str());
        }
        let mut j: usize = 0;
        let mut b_any = false;
        while j < bs.len()
            invariant
                j <= bs@.len(),
                b_any == exists|k: int| 0 <= k < j && #[trigger] bs@[k] is Any,
            decreases bs@.len() - j,
        {
            let here: bool = match &bs[j] {
                Constraint::Any => true,
                _ => false,
            };
            if here {
                b_any = true;
            }
            j = j + 1;
        }
        if b_any {
            return Range::parse(self.raw.as_str());
        }
        let mut i0: usize = 0;
        let mut a_any = false;
        while i0 < az.len()
            invariant
                i0 <= az@.len(),
                a_any == exists|k: int| 0 <= k < i0 && #[trigger] az@[k] is Any,
            decreases az@.len() - i0,
        {
            let here: bool = match &az[i0] {
                Constraint::Any => true,
                _ => false,
            };
            if here {
                a_any = true;
            }
            i0 = i0 + 1;
        }
        if a_any {
            return Range::parse(range.raw.as_str());
        }
        assert(forall|k: int| 0 <= k < az@.len() ==> !(#[trigger] az@[k] is Any));
        assert(forall|k: int| 0 <= k < bs@.len() ==> !(#[trigger] bs@[k] is Any));

        let ghost lst = inter_all(Seq::empty(), az@, bs@);
        let mut set: Vec<Constraint> = Vec::new();
        let mut i: usize = 0;
        while i < az.len()
            invariant
                i <= az@.len(),
                az@ == self.set@,
                bs@ == range.set@,
                self.wf(),
                range.wf(),
                forall|k: int| 0 <= k < az@.len() ==> !(#[trigger] az@[k] is Any),
                forall|k: int| 0 <= k < bs@.len() ==> !(#[trigger] bs@[k] is Any),
                cs_same(set@, inter_all(Seq::empty(), az@.take(i as int), bs@)),
                forall|k: int| 0 <= k < set@.len() ==> (#[trigger] set@[k]).wf(),
            decreases az@.len() - i,
        {
            let ghost acc_i = inter_all(Seq::empty(), az@.take(i as int), bs@);
            let mut jj: usize = 0;
            while jj < bs.len()
                invariant
                    jj <= bs@.len(),
                    i < az@.len(),
                    az@ == self.set@,
                    bs@ == range.set@,
                    self.wf(),
                    range.wf(),
                    forall|k: int| 0 <= k < az@.len() ==> !(#[trigger] az@[k] is Any),
                    forall|k: int| 0 <= k < bs@.len() ==> !(#[trigger] bs@[k] is Any),
                    acc_i == inter_all(Seq::empty(), az@.take(i as int), bs@),
                    cs_same(set@, inter_row(acc_i, az@[i as int], bs@.take(jj as int))),
                    forall|k: int| 0 <= k < set@.len() ==> (#[trigger] set@[k]).wf(),
                decreases bs@.len() - jj,
            {
                let ghost before = inter_row(acc_i, az@[i as int], bs@.take(jj as int));
                proof {
                    lemma_inter_row_push(acc_i, az@[i as int], bs@.take(jj as int), bs@[jj as int]);
                    assert(bs@.take(jj as int).push(bs@[jj as int]) =~= bs@.take(jj + 1));
                }
                let p = pair_inter(&az[i], &bs[jj]);
                let ghost sp = spec_pair(az@[i as int], bs@[jj as int]);
                match p {
                    Some(c1) => {
                        let ghost c2 = sp->Some_0;
                        let dup = holds_eq_exec(&set, &c1);
                        proof {
                            assert(holds_eq(set@, c1) == holds_eq(before, c2)) by {
                                if holds_eq(set@, c1) {
                                    let k = choose|k: int|
                                        0 <= k < set@.len() && c_eq(#[trigger] set@[k], c1);
                                    lemma_c_same_eq(set@[k], before[k], c1, c2);
                                    assert(c_eq(before[k], c2));
                                }
                                if holds_eq(before, c2) {
                                    let k = choose|k: int|
                                        0 <= k < before.len() && c_eq(#[trigger] before[k], c2);
                                    lemma_c_same_eq(set@[k], before[k], c1, c2);
                                    assert(c_eq(set@[k], c1));
                                }
                            }
                        }
                        if !dup {
                            set.push(c1);
                            proof {
                                assert(cs_same(set@, before.push(c2))) by {
                                    assert forall|k: int| 0 <= k < set@.len() implies c_same(
                                        #[trigger] set@[k],
                                        before.push(c2)[k],
                                    ) by {
                                        if k < set@.len() - 1 {
                                            assert(set@[k] == set@.subrange(
                                                0,
                                                set@.len() - 1,
                                            )[k]);
                                        }
                                    }
                                }
                            }
                        }
                    },
                    None => {},
                }
                jj = jj + 1;
            }
            proof {
                assert(bs@.take(bs@.len() as int) =~= bs@);
                lemma_inter_all_push(Seq::empty(), az@.take(i as int), az@[i as int], bs@);
                assert(az@.take(i as int).push(az@[i as int]) =~= az@.take(i + 1));
            }
            i = i + 1;
        }
        proof {
            assert(az@.take(az@.len() as int) =~= az@);
            assert(cs_same(set@, lst));
        }
        if set.len() == 0 {
            return Err(SemverError::NoIntersection);
        }
        let mut rg = Range { raw: String::new(), set };
        let t = rg.raw();
        proof {
            lemma_cs_same_raw(rg.set@, lst);
        }
        rg.raw = t;
        Ok(rg)
    }
}

} // verus!
