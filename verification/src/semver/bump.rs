//! Bumping a version: raising one of the first three components and zeroing
//! the ones below it, yielding a fresh canonical three-component version.

use vstd::prelude::*;

use crate::error::SemverError;
use crate::semver::parse::nums_text;
use crate::semver::Semver;

verus! {

#[derive(Debug, Clone, Copy, PartialEq, Eq, Structural)]
pub enum SemverComponent {
    Major,
    Minor,
    Patch,
    Keep,
}

/// `v` is the plain three-component version `a.b.c`.
pub open spec fn is_triple(v: Semver, a: usize, b: usize, c: usize) -> bool {
    &&& v.components@ == seq![a, b, c]
    &&& v.major == a
    &&& v.minor == b
    &&& v.patch == c
    &&& v.pre() == Seq::<Seq<char>>::empty()
    &&& v.bld() == Seq::<Seq<char>>::empty()
    &&& v.raw@ == nums_text(seq![a as int, b as int, c as int])
}

impl Semver {
    /// The next version in the given direction: `Major` yields
    /// `major+1.0.0`, `Minor` yields `major.minor+1.0`, `Patch` yields
    /// `major.minor.patch+1`, and `Keep` yields this version unchanged.
    pub fn bump(&self, which: &SemverComponent) -> (r: Result<Semver, SemverError>)
        requires
            *which == SemverComponent::Major ==> self.major < usize::MAX,
            *which == SemverComponent::Minor ==> self.minor < usize::MAX,
            *which == SemverComponent::Patch ==> self.patch < usize::MAX,
        ensures
            match *which {
                SemverComponent::Major => r matches Ok(v) && is_triple(
                    v,
                    (self.major + 1) as usize,
                    0,
                    0,
                ),
                SemverComponent::Minor => r matches Ok(v) && is_triple(
                    v,
                    self.major,
                    (self.minor + 1) as usize,
                    0,
                ),
                SemverComponent::Patch => r matches Ok(v) && is_triple(
                    v,
                    self.major,
                    self.minor,
                    (self.patch + 1) as usize,
                ),
                SemverComponent::Keep => r matches Ok(v) && v.same(*self),
            },
    {
        match which {
            SemverComponent::Major => Self::from((self.major + 1, 0, 0)),
            SemverComponent::Minor => Self::from((self.major, self.minor + 1, 0)),
            SemverComponent::Patch => Self::from((self.major, self.minor, self.patch + 1)),
            SemverComponent::Keep => Ok(self.duplicate()),
        }
    }
}

impl SemverComponent {
    /// Reads a bump keyword: `major`, `minor` or `patch`.
    pub fn parse(s: &str) -> (r: Result<SemverComponent, SemverError>)
        ensures
            r == (if s@ == "major"@ {
                Ok::<SemverComponent, SemverError>(SemverComponent::Major)
            } else if s@ == "minor"@ {
                Ok::<SemverComponent, SemverError>(SemverComponent::Minor)
            } else if s@ == "patch"@ {
                Ok::<SemverComponent, SemverError>(SemverComponent::Patch)
            } else {
                Err::<SemverComponent, SemverError>(SemverError::Parse)
            }),
    {
        if crate::text::str_eq(s, "major") {
            Ok(SemverComponent::Major)
        } else if crate::text::str_eq(s, "minor") {
            Ok(SemverComponent::Minor)
        } else if crate::text::str_eq(s, "patch") {
            Ok(SemverComponent::Patch)
        } else {
            Err(SemverError::Parse)
        }
    }
}

impl<'a> From<&'a str> for SemverComponent {
    /// An unrecognised keyword falls back to `Keep` rather than failing.
    fn from(s: &'a str) -> (r: SemverComponent) {
        match SemverComponent::parse(s) {
            Ok(c) => c,
            Err(_) => SemverComponent::Keep,
        }
    }
}

impl<'a> vstd::std_specs::convert::FromSpecImpl<&'a str> for SemverComponent {
    open spec fn obeys_from_spec() -> bool {
        true
    }

    open spec fn from_spec(s: &'a str) -> SemverComponent {
        if s@ == "major"@ {
            SemverComponent::Major
        } else if s@ == "minor"@ {
            SemverComponent::Minor
        } else if s@ == "patch"@ {
            SemverComponent::Patch
        } else {
            SemverComponent::Keep
        }
    }
}

} // verus!
