//! The version data model: an ordered sequence of numeric components with
//! optional prerelease and build identifiers, and the canonical text it was
//! read from.

use vstd::prelude::*;

use crate::text::chomp_chars;

pub mod bump;
pub mod compare;
pub mod parse;

verus! {

#[derive(Debug, Clone)]
pub struct Semver {
    /// The dot-separated numeric components, a trailing letter included.
    pub components: Vec<usize>,
    /// The first numeric component of the digit-only prefix.
    pub major: usize,
    /// The second numeric component of the digit-only prefix, 0 if absent.
    pub minor: usize,
    /// The third numeric component of the digit-only prefix, 0 if absent.
    pub patch: usize,
    /// The dot-separated identifiers after a `-`.
    pub prerelease: Vec<String>,
    /// The dot-separated identifiers after a `+`.
    pub build: Vec<String>,
    /// The canonical text form.
    pub raw: String,
}

impl Semver {
    /// The numeric components as mathematical integers.
    pub open spec fn comps(self) -> Seq<int> {
        self.components@.map_values(|c: usize| c as int)
    }

    pub open spec fn pre(self) -> Seq<Seq<char>> {
        self.prerelease.deep_view()
    }

    pub open spec fn bld(self) -> Seq<Seq<char>> {
        self.build.deep_view()
    }

    /// All observable fields agree.
    pub open spec fn same(self, other: Semver) -> bool {
        &&& self.components@ == other.components@
        &&& self.major == other.major
        &&& self.minor == other.minor
        &&& self.patch == other.patch
        &&& self.pre() == other.pre()
        &&& self.bld() == other.bld()
        &&& self.raw@ == other.raw@
    }

    /// A version always carries at least its major component.
    pub open spec fn wf(self) -> bool {
        self.components@.len() >= 1
    }

    /// The open upper bound: every component is the maximum machine word.
    pub open spec fn is_infinity(self) -> bool {
        &&& self.components@ == seq![usize::MAX, usize::MAX, usize::MAX]
        &&& self.major == usize::MAX
        &&& self.minor == usize::MAX
        &&& self.patch == usize::MAX
        &&& self.pre() == Seq::<Seq<char>>::empty()
        &&& self.bld() == Seq::<Seq<char>>::empty()
        &&& self.raw@ == "Infinity.Infinity.Infinity"@
    }

    /// The distinguished infinity value, used as an open upper bound.
    pub fn infinty() -> (v: Semver)
        ensures
            v.is_infinity(),
            v.wf(),
    {
        let mut components: Vec<usize> = Vec::new();
        components.push(usize::MAX);
        components.push(usize::MAX);
        components.push(usize::MAX);
        assert(components@ =~= seq![usize::MAX, usize::MAX, usize::MAX]);
        let v = Semver {
            components,
            major: usize::MAX,
            minor: usize::MAX,
            patch: usize::MAX,
            prerelease: Vec::new(),
            build: Vec::new(),
            raw: "Infinity.Infinity.Infinity".to_owned(),
        };
        assert(v.pre() =~= Seq::<Seq<char>>::empty());
        assert(v.bld() =~= Seq::<Seq<char>>::empty());
        v
    }

    /// An exact copy of this version.
    pub fn duplicate(&self) -> (v: Semver)
        ensures
            v.same(*self),
    {
        let mut components: Vec<usize> = Vec::new();
        let mut i: usize = 0;
        while i < self.components.len()
            invariant
                i <= self.components@.len(),
                components@ == self.components@.take(i as int),
            decreases self.components@.len() - i,
        {
            components.push(self.components[i]);
            assert(components@ =~= self.components@.take(i + 1));
            i = i + 1;
        }
        assert(self.components@.take(self.components@.len() as int) =~= self.components@);
        let v = Semver {
            components,
            major: self.major,
            minor: self.minor,
            patch: self.patch,
            prerelease: clone_strings(&self.prerelease),
            build: clone_strings(&self.build),
            raw: clone_string(&self.raw),
        };
        v
    }

    /// The canonical text with trailing `.0` groups stripped; an emptied text
    /// becomes `0`.
    pub fn chomp(&self) -> (r: String)
        ensures
            r@ == chomped(self.raw@),
    {
        let cs = crate::text::chars_of(self.raw.as_str());
        let e = chomp_end(&cs);
        if e == 0 {
            let mut z = String::new();
            z.push('0');
            assert(z@ =~= seq!['0']);
            z
        } else {
            crate::text::string_range(&cs, 0, e)
        }
    }
}

/// The displayed form of a version: the components joined with dots, then
/// the prerelease and build sections when present.
pub open spec fn display_chars(v: Semver) -> Seq<char> {
    crate::semver::parse::nums_text(v.comps()) + (if v.pre().len() > 0 {
        seq!['-'] + crate::text::join_dots(v.pre())
    } else {
        Seq::<char>::empty()
    }) + (if v.bld().len() > 0 {
        seq!['+'] + crate::text::join_dots(v.bld())
    } else {
        Seq::<char>::empty()
    })
}

impl Semver {
    /// The displayed form: components joined with dots, with the prerelease
    /// and build sections reattached.
    pub fn render(&self) -> (s: String)
        ensures
            s@ == display_chars(*self),
    {
        let mut s = String::new();
        crate::text::push_nums(&mut s, &self.components);
        assert(s@ == crate::semver::parse::nums_text(self.comps()));
        let ghost base = s@;
        if self.prerelease.len() > 0 {
            s.push('-');
            crate::text::push_join(&mut s, &self.prerelease);
            assert(s@ =~= base + (seq!['-'] + crate::text::join_dots(self.pre())));
        }
        let ghost base2 = s@;
        if self.build.len() > 0 {
            s.push('+');
            crate::text::push_join(&mut s, &self.build);
            assert(s@ =~= base2 + (seq!['+'] + crate::text::join_dots(self.bld())));
        }
        proof {
            assert(self.pre().len() == self.prerelease@.len());
            assert(self.bld().len() == self.build@.len());
            assert(s@ =~= display_chars(*self));
        }
        s
    }
}

/// `chomp_chars` with the empty result replaced by `0`.
pub open spec fn chomped(s: Seq<char>) -> Seq<char> {
    if chomp_chars(s).len() == 0 {
        seq!['0']
    } else {
        chomp_chars(s)
    }
}

/// The length that remains after stripping trailing `.0` groups.
pub fn chomp_end(cs: &Vec<char>) -> (e: usize)
    ensures
        e <= cs@.len(),
        cs@.subrange(0, e as int) == chomp_chars(cs@),
{
    let mut e: usize = cs.len();
    assert(cs@.take(e as int) =~= cs@);
    while e >= 2 && cs[e - 2] == '.' && cs[e - 1] == '0'
        invariant
            e <= cs@.len(),
            chomp_chars(cs@.take(e as int)) == chomp_chars(cs@),
        decreases e,
    {
        assert(cs@.take(e as int).len() == e);
        assert(cs@.take(e as int)[e - 2] == '.');
        assert(cs@.take(e as int)[e - 1] == '0');
        assert(cs@.take(e as int).take(e - 2) =~= cs@.take(e - 2));
        e = e - 2;
    }
    assert(chomp_chars(cs@.take(e as int)) == cs@.take(e as int));
    e
}

/// An exact copy of a string.
pub fn clone_string(s: &String) -> (r: String)
    ensures
        r@ == s@,
{
    s.clone()
}

/// An exact copy of a list of strings.
pub fn clone_strings(v: &Vec<String>) -> (r: Vec<String>)
    ensures
        r.deep_view() == v.deep_view(),
{
    let mut r: Vec<String> = Vec::new();
    let mut i: usize = 0;
    while i < v.len()
        invariant
            i <= v@.len(),
            r@.len() == i,
            forall|k: int| 0 <= k < i ==> #[trigger] r@[k]@ == v@[k]@,
        decreases v@.len() - i,
    {
        let s = clone_string(&v[i]);
        r.push(s);
        i = i + 1;
    }
    assert forall|k: int| 0 <= k < v@.len() implies r.deep_view()[k] == v.deep_view()[k] by {
        assert(r.deep_view()[k] == r@[k]@);
        assert(v.deep_view()[k] == v@[k]@);
    }
    assert(r.deep_view() =~= v.deep_view());
    r
}

// ---------- the successor-at-precision predicate ----------

/// `b` equals `a` padded with zeros, except in its final entry, which is
/// exactly one greater.
pub open spec fn spec_at(a: Seq<int>, b: Seq<int>) -> bool {
    &&& a.len() <= b.len()
    &&& b.len() > 0
    &&& {
        let pa = a + Seq::new((b.len() - a.len()) as nat, |i: int| 0);
        &&& pa[b.len() - 1] + 1 == b[b.len() - 1]
        &&& forall|i: int| 0 <= i < b.len() - 1 ==> pa[i] == b[i]
    }
}

impl Semver {
    /// True when `other` is the immediate successor of this version at this
    /// version's precision.
    pub fn at(&self, other: &Semver) -> (r: bool)
        requires
            self.wf(),
            other.wf(),
        ensures
            r == spec_at(self.comps(), other.comps()),
    {
        let a = &self.components;
        let b = &other.components;
        proof {
            assert(self.comps().len() == self.components@.len());
            assert(other.comps().len() == other.components@.len());
        }
        if a.len() > b.len() {
            return false;
        }
        let ghost pa = self.comps() + Seq::new(
            (other.comps().len() - self.comps().len()) as nat,
            |i: int| 0,
        );
        proof {
            assert(pa.len() == other.comps().len());
        }
        let last_a: usize = if a.len() == b.len() {
            a[a.len() - 1]
        } else {
            0
        };
        proof {
            if self.components@.len() == other.components@.len() {
                assert(pa[b@.len() - 1] == self.comps()[b@.len() - 1]);
            } else {
                assert(pa[b@.len() - 1] == 0int);
            }
        }
        let last_b: usize = b[b.len() - 1];
        if !(last_b > 0 && last_a == last_b - 1) {
            return false;
        }
        let mut i: usize = 0;
        while i < b.len() - 1
            invariant
                i <= b@.len() - 1,
                a@.len() <= b@.len(),
                b@.len() > 0,
                a@ == self.components@,
                b@ == other.components@,
                pa.len() == other.comps().len(),
                other.comps().len() == b@.len(),
                self.comps().len() == a@.len(),
                pa == self.comps() + Seq::new(
                    (other.comps().len() - self.comps().len()) as nat,
                    |k: int| 0,
                ),
                forall|k: int| 0 <= k < i ==> pa[k] == other.comps()[k],
            decreases b@.len() - 1 - i,
        {
            let ai: usize = if i < a.len() {
                a[i]
            } else {
                0
            };
            proof {
                if (i as int) < a@.len() {
                    assert(pa[i as int] == self.comps()[i as int]);
                } else {
                    assert(pa[i as int] == 0int);
                }
            }
            if ai != b[i] {
                assert(pa[i as int] != other.comps()[i as int]);
                return false;
            }
            i = i + 1;
        }
        true
    }
}

} // verus!
