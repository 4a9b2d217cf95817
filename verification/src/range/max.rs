//! The best satisfying candidate: filter by the range, fold with "keep the
//! greater", seeded with the zero version; a result indistinguishable from
//! the zero seed counts as no candidate at all.

use vstd::prelude::*;

use crate::range::satisfies::range_satisfied;
use crate::range::{Constraint, Range};
use crate::semver::compare::{lemma_order_trichotomy, spec_cmp};
use crate::semver::parse::{is_parse_of, semver_ok, trim_v};
use crate::semver::Semver;
use crate::text::dec_str;

verus! {

/// A value of the zero seed: the single component `0`, canonical text
/// `0.0.0`, nothing else.
pub open spec fn zero_seed(z: Semver) -> bool {
    &&& z.components@ == seq![0usize]
    &&& z.major == 0
    &&& z.minor == 0
    &&& z.patch == 0
    &&& z.pre() == Seq::<Seq<char>>::empty()
    &&& z.bld() == Seq::<Seq<char>>::empty()
    &&& z.raw@ == dec_str(0) + seq!['.'] + dec_str(0) + seq!['.'] + dec_str(0)
}

/// The fold: walk the candidates in order; a candidate that satisfies the
/// range replaces the accumulator unless the accumulator is strictly
/// greater.
pub open spec fn fold_max(cs: Seq<Constraint>, cands: Seq<Semver>, acc: Semver) -> Semver
    decreases cands.len(),
{
    if cands.len() == 0 {
        acc
    } else {
        let acc2 = if range_satisfied(cs, cands[0]) && !(spec_cmp(acc, cands[0]) > 0) {
            cands[0]
        } else {
            acc
        };
        fold_max(cs, cands.skip(1), acc2)
    }
}

/// Processing one more candidate at the end of the list is one more step of
/// the fold.
proof fn lemma_fold_push(cs: Seq<Constraint>, cands: Seq<Semver>, c: Semver, acc: Semver)
    ensures
        fold_max(cs, cands.push(c), acc) == ({
            let m = fold_max(cs, cands, acc);
            if range_satisfied(cs, c) && !(spec_cmp(m, c) > 0) {
                c
            } else {
                m
            }
        }),
    decreases cands.len(),
{
    reveal_with_fuel(fold_max, 3);
    let w = cands.push(c);
    if cands.len() == 0 {
        assert(w[0] == c);
        assert(w.skip(1) =~= Seq::<Semver>::empty());
    } else {
        assert(w[0] == cands[0]);
        assert(w.skip(1) =~= cands.skip(1).push(c));
        let acc2 = if range_satisfied(cs, cands[0]) && !(spec_cmp(acc, cands[0]) > 0) {
            cands[0]
        } else {
            acc
        };
        lemma_fold_push(cs, cands.skip(1), c, acc2);
    }
}

/// The zero seed: the version that `0` parses to.
fn zero_version() -> (z: Semver)
    ensures
        zero_seed(z),
        z.wf(),
{
    let mut cs: Vec<usize> = Vec::new();
    cs.push(0);
    assert(cs@ =~= seq![0usize]);
    let ghost vals = cs@.map_values(|c: usize| c as int);
    proof {
        assert(vals =~= seq![0int]);
        crate::semver::parse::lemma_nums_text(vals);
    }
    let z = crate::semver::parse::from_comps(cs);
    proof {
        assert(z.pre() =~= Seq::<Seq<char>>::empty());
        assert(z.bld() =~= Seq::<Seq<char>>::empty());
    }
    z
}

impl Range {
    /// The greatest candidate that satisfies this range, re-parsed from its
    /// canonical text; no candidate, or none distinguishable from the zero
    /// seed, yields nothing.
    pub fn max(&self, semvers: &Vec<Semver>) -> (r: Option<Semver>)
        requires
            forall|i: int|
                0 <= i < semvers@.len() ==> semver_ok(trim_v((#[trigger] semvers@[i]).raw@)),
        ensures
            exists|z: Semver|
                {
                    &&& #[trigger] zero_seed(z)
                    &&& {
                        let m = fold_max(self.set@, semvers@, z);
                        match r {
                            None => spec_cmp(m, z) == 0,
                            Some(x) => {
                                &&& spec_cmp(m, z) != 0
                                &&& semver_ok(trim_v(m.raw@))
                                &&& is_parse_of(x, trim_v(m.raw@))
                            },
                        }
                    }
                },
    {
        let zero = zero_version();
        let ghost z = zero;
        let mut best: Option<usize> = None;
        let mut i: usize = 0;
        while i < semvers.len()
            invariant
                i <= semvers@.len(),
                zero == z,
                match best {
                    None => fold_max(self.set@, semvers@.take(i as int), z) == z,
                    Some(b) => b < i && fold_max(self.set@, semvers@.take(i as int), z)
                        == semvers@[b as int],
                },
            decreases semvers@.len() - i,
        {
            proof {
                lemma_fold_push(self.set@, semvers@.take(i as int), semvers@[i as int], z);
                assert(semvers@.take(i as int).push(semvers@[i as int]) =~= semvers@.take(i + 1));
            }
            if self.satisfies(&semvers[i]) {
                match best {
                    None => {
                        if !zero.gt(&semvers[i]) {
                            best = Some(i);
                        }
                    },
                    Some(b) => {
                        if !semvers[b].gt(&semvers[i]) {
                            best = Some(i);
                        }
                    },
                }
            }
            i = i + 1;
        }
        proof {
            assert(semvers@.take(semvers@.len() as int) =~= semvers@);
        }
        match best {
            None => {
                proof {
                    lemma_order_trichotomy(z, z);
                }
                None
            },
            Some(b) => {
                let m = &semvers[b];
                if m.eq(&zero) {
                    None
                } else {
                    match Semver::parse(m.raw.as_str()) {
                        Ok(x) => Some(x),
                        Err(_) => {
                            proof {
                                assert(semver_ok(trim_v(semvers@[b as int].raw@)));
                                assert(false);
                            }
                            None
                        },
                    }
                }
            },
        }
    }
}

} // verus!
