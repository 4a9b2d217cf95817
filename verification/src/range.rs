//! Ranges of acceptable versions: an ordered set of constraints, any one of
//! which a version may satisfy, with the text the range was read from and a
//! canonical shorthand rendering.

use vstd::prelude::*;

use crate::semver::compare::spec_cmp;
use crate::semver::{display_chars, spec_at, Semver};
use crate::text::chomp_chars;

pub mod intersect;
pub mod max;
pub mod parse;
pub mod satisfies;

verus! {

/// One atomic predicate over versions.
#[derive(Debug, Clone)]
pub enum Constraint {
    /// Matches every version.
    Any,
    /// Matches versions equal to the given one.
    Single(Semver),
    /// Matches versions at least the first bound and strictly below the
    /// second.
    Contiguous(Semver, Semver),
}

#[derive(Debug, Clone)]
pub struct Range {
    /// The textual form the range was read from, or was rendered to.
    pub raw: String,
    /// The constraints; a version satisfying any one satisfies the range.
    pub set: Vec<Constraint>,
}

impl Constraint {
    pub open spec fn wf(self) -> bool {
        match self {
            Constraint::Any => true,
            Constraint::Single(v) => v.wf(),
            Constraint::Contiguous(lo, hi) => lo.wf() && hi.wf(),
        }
    }
}

impl Range {
    pub open spec fn wf(self) -> bool {
        &&& self.set@.len() > 0
        &&& forall|i: int| 0 <= i < self.set@.len() ==> (#[trigger] self.set@[i]).wf()
    }
}

// ---------- the plain text of a constraint ----------

/// The plain text of a constraint, from the bounds' canonical texts.
pub open spec fn raw_chars(c: Constraint) -> Seq<char> {
    match c {
        Constraint::Any => seq!['*'],
        Constraint::Single(v) => seq!['='] + v.raw@,
        Constraint::Contiguous(lo, hi) => seq!['>', '='] + lo.raw@ + seq!['<'] + hi.raw@,
    }
}

/// Texts joined with single commas between them.
pub open spec fn join_commas(parts: Seq<Seq<char>>) -> Seq<char>
    decreases parts.len(),
{
    if parts.len() == 0 {
        Seq::empty()
    } else if parts.len() == 1 {
        parts[0]
    } else {
        parts[0] + seq![','] + join_commas(parts.skip(1))
    }
}

pub proof fn lemma_join_commas_push(parts: Seq<Seq<char>>, p: Seq<char>)
    requires
        parts.len() >= 1,
    ensures
        join_commas(parts.push(p)) == join_commas(parts) + seq![','] + p,
    decreases parts.len(),
{
    let w = parts.push(p);
    if parts.len() == 1 {
        assert(w.len() == 2);
        assert(w.skip(1) =~= seq![p]);
        assert(join_commas(seq![p]) == seq![p][0]);
        assert(w[0] == parts[0]);
        assert(join_commas(w) == parts[0] + seq![','] + p);
    } else {
        assert(w.skip(1) =~= parts.skip(1).push(p));
        lemma_join_commas_push(parts.skip(1), p);
        assert(join_commas(w) == parts[0] + seq![','] + (join_commas(parts.skip(1)) + seq![',']
            + p));
        assert(parts[0] + seq![','] + (join_commas(parts.skip(1)) + seq![','] + p) =~= (parts[0]
            + seq![','] + join_commas(parts.skip(1))) + seq![','] + p);
    }
}

/// The plain text of a whole constraint list.
pub open spec fn set_raw_chars(cs: Seq<Constraint>) -> Seq<char> {
    join_commas(cs.map_values(|c: Constraint| raw_chars(c)))
}

impl Constraint {
    /// The plain text of this constraint, built from the bounds' canonical
    /// texts.
    pub fn raw(&self) -> (r: String)
        ensures
            r@ == raw_chars(*self),
    {
        let mut s = String::new();
        match self {
            Constraint::Any => {
                s.push('*');
                assert(s@ =~= raw_chars(*self));
            },
            Constraint::Single(v) => {
                s.push('=');
                s.append(v.raw.as_str());
                assert(s@ =~= raw_chars(*self));
            },
            Constraint::Contiguous(lo, hi) => {
                s.push('>');
                s.push('=');
                s.append(lo.raw.as_str());
                s.push('<');
                s.append(hi.raw.as_str());
                assert(s@ =~= raw_chars(*self));
            },
        }
        s
    }
}

impl Range {
    /// The plain text of the whole set, the constraints joined with commas.
    pub fn raw(&self) -> (r: String)
        ensures
            r@ == set_raw_chars(self.set@),
    {
        let ghost parts = self.set@.map_values(|c: Constraint| raw_chars(c));
        let mut s = String::new();
        if self.set.len() == 0 {
            assert(s@ =~= join_commas(parts));
            return s;
        }
        let first = self.set[0].raw();
        s.append(first.as_str());
        proof {
            assert(parts.take(1) =~= seq![parts[0]]);
            assert(s@ =~= join_commas(parts.take(1)));
        }
        let mut i: usize = 1;
        while i < self.set.len()
            invariant
                1 <= i <= self.set@.len(),
                parts == self.set@.map_values(|c: Constraint| raw_chars(c)),
                parts.len() == self.set@.len(),
                s@ == join_commas(parts.take(i as int)),
            decreases self.set@.len() - i,
        {
            s.push(',');
            let piece = self.set[i].raw();
            s.append(piece.as_str());
            proof {
                lemma_join_commas_push(parts.take(i as int), parts[i as int]);
                assert(parts.take(i as int).push(parts[i as int]) =~= parts.take(i + 1));
                assert(s@ =~= join_commas(parts.take(i as int)) + seq![','] + parts[i as int]);
            }
            i = i + 1;
        }
        assert(parts.take(parts.len() as int) =~= parts);
        s
    }
}

// ---------- the canonical shorthand rendering ----------

/// The canonical shorthand of one constraint: `*`, `=`, caret, tilde, an
/// open upper bound, `@` for a successor-at-precision interval, or the
/// explicit interval, tried in that order.
pub open spec fn render_constraint(c: Constraint) -> Seq<char> {
    match c {
        Constraint::Any => seq!['*'],
        Constraint::Single(v) => seq!['='] + display_chars(v),
        Constraint::Contiguous(lo, hi) => {
            if hi.major == lo.major + 1 && hi.minor == 0 && hi.patch == 0 {
                if lo.major == 0 {
                    if lo.components@.len() == 1 {
                        seq!['^', '0']
                    } else {
                        seq!['>', '='] + chomp_chars(lo.raw@) + seq!['<', '1']
                    }
                } else {
                    seq!['^'] + chomp_chars(lo.raw@)
                }
            } else if hi.major == lo.major && hi.minor == lo.minor + 1 && hi.patch == 0 {
                seq!['~'] + chomp_chars(lo.raw@)
            } else if hi.major == usize::MAX {
                seq!['>', '='] + chomp_chars(lo.raw@)
            } else if spec_at(lo.comps(), hi.comps()) {
                seq!['@'] + display_chars(lo)
            } else {
                seq!['>', '='] + chomp_chars(lo.raw@) + seq!['<'] + chomp_chars(hi.raw@)
            }
        },
    }
}

pub open spec fn render_range(cs: Seq<Constraint>) -> Seq<char> {
    join_commas(cs.map_values(|c: Constraint| render_constraint(c)))
}

/// The canonical text with trailing `.0` groups stripped.
fn chomp_plain(v: &Semver) -> (r: String)
    ensures
        r@ == chomp_chars(v.raw@),
{
    let cs = crate::text::chars_of(v.raw.as_str());
    let e = crate::semver::chomp_end(&cs);
    crate::text::string_range(&cs, 0, e)
}

impl Constraint {
    /// This constraint rendered to its most specific shorthand.
    pub fn render(&self) -> (r: String)
        requires
            self.wf(),
        ensures
            r@ == render_constraint(*self),
    {
        match self {
            Constraint::Any => {
                let mut s = String::new();
                s.push('*');
                assert(s@ =~= render_constraint(*self));
                s
            },
            Constraint::Single(v) => {
                let mut s = String::new();
                s.push('=');
                let d = v.render();
                s.append(d.as_str());
                assert(s@ =~= render_constraint(*self));
                s
            },
            Constraint::Contiguous(lo, hi) => {
                let mut s = String::new();
                if lo.major < usize::MAX && hi.major == lo.major + 1 && hi.minor == 0 && hi.patch
                    == 0 {
                    if lo.major == 0 {
                        if lo.components.len() == 1 {
                            s.push('^');
                            s.push('0');
                            assert(s@ =~= render_constraint(*self));
                        } else {
                            s.push('>');
                            s.push('=');
                            let c = chomp_plain(lo);
                            s.append(c.as_str());
                            s.push('<');
                            s.push('1');
                            assert(s@ =~= render_constraint(*self));
                        }
                    } else {
                        s.push('^');
                        let c = chomp_plain(lo);
                        s.append(c.as_str());
                        assert(s@ =~= render_constraint(*self));
                    }
                } else if hi.major == lo.major && lo.minor < usize::MAX && hi.minor == lo.minor + 1
                    && hi.patch == 0 {
                    s.push('~');
                    let c = chomp_plain(lo);
                    s.append(c.as_str());
                    assert(s@ =~= render_constraint(*self));
                } else if hi.major == usize::MAX {
                    s.push('>');
                    s.push('=');
                    let c = chomp_plain(lo);
                    s.append(c.as_str());
                    assert(s@ =~= render_constraint(*self));
                } else if lo.at(hi) {
                    s.push('@');
                    let d = lo.render();
                    s.append(d.as_str());
                    assert(s@ =~= render_constraint(*self));
                } else {
                    s.push('>');
                    s.push('=');
                    let c1 = chomp_plain(lo);
                    s.append(c1.as_str());
                    s.push('<');
                    let c2 = chomp_plain(hi);
                    s.append(c2.as_str());
                    assert(s@ =~= render_constraint(*self));
                }
                s
            },
        }
    }
}

impl Range {
    /// The whole range rendered to canonical shorthand, the constraints
    /// joined with commas.
    pub fn render(&self) -> (r: String)
        requires
            self.wf(),
        ensures
            r@ == render_range(self.set@),
    {
        let ghost parts = self.set@.map_values(|c: Constraint| render_constraint(c));
        let mut s = String::new();
        let first = self.set[0].render();
        s.append(first.as_str());
        proof {
            assert(parts.take(1) =~= seq![parts[0]]);
            assert(s@ =~= join_commas(parts.take(1)));
        }
        let mut i: usize = 1;
        while i < self.set.len()
            invariant
                1 <= i <= self.set@.len(),
                self.wf(),
                parts == self.set@.map_values(|c: Constraint| render_constraint(c)),
                parts.len() == self.set@.len(),
                s@ == join_commas(parts.take(i as int)),
            decreases self.set@.len() - i,
        {
            s.push(',');
            let piece = self.set[i].render();
            s.append(piece.as_str());
            proof {
                lemma_join_commas_push(parts.take(i as int), parts[i as int]);
                assert(parts.take(i as int).push(parts[i as int]) =~= parts.take(i + 1));
                assert(s@ =~= join_commas(parts.take(i as int)) + seq![','] + parts[i as int]);
            }
            i = i + 1;
        }
        assert(parts.take(parts.len() as int) =~= parts);
        s
    }
}

} // verus!
