use semverator::error::SemverError;
use semverator::range::Range;
use semverator::semver::bump::SemverComponent;
use semverator::semver::Semver;

#[test]
fn mod_test_parse() {
    let a = Range::parse(">=11<15");
    let b = Range::parse("^16");
    let c = Range::parse("~16");
    let d = Range::parse("=16");
    let e = Range::parse("<16");
    let f = Range::parse(">=11<15||^16||~16||=16||<16");
    let g = Range::parse("*");
    let h = Range::parse("<=11>15");
    let i = Range::parse("Your mom");

    assert!(a.is_ok());
    assert!(b.is_ok());
    assert!(c.is_ok());
    assert!(d.is_ok());
    assert!(e.is_ok());
    assert!(f.is_ok());
    assert!(g.is_ok());
    assert!(h.is_err());
    assert!(i.is_err());

    assert_eq!(f.unwrap().set.len(), 5);
}

#[test]
fn test_parse_rejects_words() {
    let a = Semver::parse("1.2.3");
    let b = Semver::parse("1.2.4");
    let c = Semver::parse("1.2.four");

    assert!(a.is_ok());
    assert!(b.is_ok());
    assert!(c.is_err());

    assert_eq!(a.unwrap().raw, "1.2.3");
    assert_eq!(b.unwrap().raw, "1.2.4");
}

// Re-parsing a canonical text gives the canonical text back unchanged.
#[test]
fn test_raw_idempotent() {
    let inputs = [
        "1.2.3",
        "v1.2",
        "17",
        "3.3a",
        "1.2-alpha",
        "1.2.3-alpha.1+build.1",
        "1+build",
        "2023.03.04",
        "1.2.3.4.5.6",
    ];
    let mut i: usize = 0;
    while i < inputs.len() {
        let first = Semver::parse(inputs[i]).unwrap();
        let again = Semver::parse(&first.raw).unwrap();
        assert_eq!(again.raw, first.raw);
        i += 1;
    }
}

// Exactly one of less, equal, greater holds of any pair, and order chains.
#[test]
fn test_order_laws() {
    let texts = ["1.2.3", "1.2.4", "1.1.1q", "2023.03.04", "1.2.3-alpha", "1.2.3-alpha.1", "1.2"];
    let mut i: usize = 0;
    while i < texts.len() {
        let a = Semver::parse(texts[i]).unwrap();
        let mut j: usize = 0;
        while j < texts.len() {
            let b = Semver::parse(texts[j]).unwrap();
            let mut count: usize = 0;
            if a.lt(&b) {
                count += 1;
            }
            if a.eq(&b) {
                count += 1;
            }
            if a.gt(&b) {
                count += 1;
            }
            assert_eq!(count, 1);
            j += 1;
        }
        i += 1;
    }
    let lo = Semver::parse("1.1.1q").unwrap();
    let mid = Semver::parse("1.2.3-alpha").unwrap();
    let hi = Semver::parse("1.2.3").unwrap();
    assert!(lo.lt(&mid) && mid.lt(&hi) && lo.lt(&hi));
    let cal = Semver::parse("2023.03.04").unwrap();
    assert!(cal.lt(&lo) && cal.lt(&hi));
}

// A `*` range accepts every parseable version.
#[test]
fn test_any_satisfies_everything() {
    let star = Range::parse("*").unwrap();
    let texts = ["0", "0.0.0", "1.2.3-alpha", "2023.03.04", "9e", "1.2.3+build"];
    let mut i: usize = 0;
    while i < texts.len() {
        let v = Semver::parse(texts[i]).unwrap();
        assert!(star.satisfies(&v));
        i += 1;
    }
}

#[test]
fn test_error_kinds() {
    assert_eq!(Semver::parse("nonsense").unwrap_err(), SemverError::Parse);
    assert_eq!(Semver::parse("1..2").unwrap_err(), SemverError::Parse);
    assert_eq!(Semver::parse("").unwrap_err(), SemverError::Parse);
    assert_eq!(Range::parse("").unwrap_err(), SemverError::EmptyRange);
    assert_eq!(Range::parse(">=15<12").unwrap_err(), SemverError::InvertedInterval);
    assert_eq!(Range::parse(">=2<2").unwrap_err(), SemverError::InvertedInterval);
    assert_eq!(Range::parse("Your mom").unwrap_err(), SemverError::InvalidConstraint);
    assert_eq!(Range::parse(">16").unwrap_err(), SemverError::InvalidConstraint);
    assert_eq!(
        Range::parse("=99999999999999999999999999").unwrap_err(),
        SemverError::Parse
    );
    let a = Range::parse("~3.7").unwrap();
    let b = Range::parse("~3.8").unwrap();
    assert_eq!(a.intersect(&b).unwrap_err(), SemverError::NoIntersection);
    assert_eq!(
        Range::contiguous("2.0.0", "1.2.3").unwrap_err(),
        SemverError::InvertedInterval
    );
    assert_eq!(
        Range::contiguous("1.2.3", "1.2.3").unwrap_err(),
        SemverError::InvertedInterval
    );
    assert_eq!(Range::contiguous("1.2.3", "junk").unwrap_err(), SemverError::Parse);
}

#[test]
fn test_chomp() {
    assert_eq!(Semver::parse("1.0.0").unwrap().chomp(), "1");
    assert_eq!(Semver::parse("1.2.0").unwrap().chomp(), "1.2");
    assert_eq!(Semver::parse("1.2.3").unwrap().chomp(), "1.2.3");
    assert_eq!(Semver::parse("10").unwrap().chomp(), "10");
}

#[test]
fn test_at_predicate() {
    let a = Semver::parse("1.2").unwrap();
    let b = Semver::parse("1.2.1").unwrap();
    let c = Semver::parse("1.3").unwrap();
    assert!(a.at(&b));
    assert!(a.at(&c));
    assert!(!b.at(&a));
    assert!(!a.at(&a));
}

#[test]
fn test_bump_from_tuple() {
    let v = Semver::from((1, 2, 3)).unwrap();
    assert_eq!(v.raw, "1.2.3");
    let major = v.bump(&SemverComponent::Major).unwrap();
    assert!(major.eq(&Semver::parse("2.0.0").unwrap()));
    let minor = v.bump(&SemverComponent::Minor).unwrap();
    assert!(minor.eq(&Semver::parse("1.3.0").unwrap()));
    let patch = v.bump(&SemverComponent::Patch).unwrap();
    assert!(patch.eq(&Semver::parse("1.2.4").unwrap()));
    let kept = v.bump(&SemverComponent::Keep).unwrap();
    assert!(kept.eq(&v));
}

// The rendering round trip keeps a shorthand that has no tighter form.
#[test]
fn test_render_round_trip() {
    assert_eq!(Range::parse(">=1.1.1<1.1.3").unwrap().render(), ">=1.1.1<1.1.3");
    assert_eq!(Range::parse(">=1.1.0<1.1.1").unwrap().render(), "@1.1.0");
    assert_eq!(Range::parse(">=0<1").unwrap().render(), "^0");
}

// Whitespace is accepted around delimiters and inside a `>=A<B` atom.
#[test]
fn test_whitespace_forms() {
    let a = Range::parse(">=11 <15").unwrap();
    assert!(a.satisfies(&Semver::parse("12").unwrap()));
    let b = Range::parse("^16 , ^17").unwrap();
    assert_eq!(b.set.len(), 2);
    let c = Range::parse("^16 || ^17").unwrap();
    assert_eq!(c.set.len(), 2);
    let d = Range::parse("^16\u{a0},\u{a0}^17").unwrap();
    assert_eq!(d.set.len(), 2);
    let e = Range::parse(">=11\u{2009}<15").unwrap();
    assert!(e.satisfies(&Semver::parse("12").unwrap()));
}

// Intersection drops a duplicated overlap.
#[test]
fn test_intersect_dedup() {
    let a = Range::parse("^3.7,^3.7").unwrap();
    let b = Range::parse("^3.9").unwrap();
    let r = a.intersect(&b).unwrap();
    assert_eq!(r.set.len(), 1);
    assert_eq!(r.raw, ">=3.9.0<4.0.0");
}
