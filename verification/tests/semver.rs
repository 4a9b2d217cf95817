use semverator::semver::bump::SemverComponent;
use semverator::semver::Semver;

#[test]
fn semver_test_parse() {
    assert_eq!(Semver::parse("1.2.3.4.5.6").unwrap().raw, "1.2.3.4.5.6");
    assert_eq!(Semver::parse("1.2.3.4.5").unwrap().raw, "1.2.3.4.5");
    assert_eq!(Semver::parse("1.2.3.4").unwrap().raw, "1.2.3.4");
    assert_eq!(Semver::parse("1.2.3").unwrap().raw, "1.2.3");
    assert_eq!(Semver::parse("v1.2.3").unwrap().raw, "1.2.3");
    assert_eq!(Semver::parse("1.2").unwrap().raw, "1.2.0");
    assert_eq!(Semver::parse("v1.2").unwrap().raw, "1.2.0");
    assert_eq!(Semver::parse("1").unwrap().raw, "1.0.0");
    assert_eq!(Semver::parse("v1").unwrap().raw, "1.0.0");

    assert_eq!(Semver::parse("9e").unwrap().raw, "9e");
    assert_eq!(Semver::parse("9e").unwrap().components, [9, 5]);
    assert_eq!(Semver::parse("3.3a").unwrap().raw, "3.3a");
    assert_eq!(Semver::parse("3.3a").unwrap().components, [3, 3, 1]);
    assert_eq!(Semver::parse("1.1.1q").unwrap().raw, "1.1.1q");
    assert_eq!(Semver::parse("1.1.1q").unwrap().components, [1, 1, 1, 17]);

    assert_eq!(Semver::parse("1.2.3-alpha").unwrap().raw, "1.2.3-alpha");
    assert_eq!(Semver::parse("1.2-alpha").unwrap().raw, "1.2.0-alpha");
    assert_eq!(Semver::parse("1-alpha").unwrap().raw, "1.0.0-alpha");
    assert_eq!(Semver::parse("1.2.3-alpha.1").unwrap().raw, "1.2.3-alpha.1");

    assert_eq!(Semver::parse("1.2.3+build").unwrap().raw, "1.2.3+build");
    assert_eq!(Semver::parse("1.2+build").unwrap().raw, "1.2.0+build");
    assert_eq!(Semver::parse("1+build").unwrap().raw, "1.0.0+build");
    assert_eq!(Semver::parse("1.2.3+build.1").unwrap().raw, "1.2.3+build.1");

    assert_eq!(
        Semver::parse("1.2.3-alpha+build").unwrap().raw,
        "1.2.3-alpha+build"
    );
    assert_eq!(
        Semver::parse("1.2-alpha+build").unwrap().raw,
        "1.2.0-alpha+build"
    );
    assert_eq!(
        Semver::parse("1-alpha+build").unwrap().raw,
        "1.0.0-alpha+build"
    );
    assert_eq!(
        Semver::parse("1.2.3-alpha.1+build.1").unwrap().raw,
        "1.2.3-alpha.1+build.1"
    );
}

#[test]
fn semver_test_compare() {
    let a = Semver::parse("1.2.3").unwrap();
    let b = Semver::parse("1.2.4").unwrap();

    assert!(a.eq(&a));
    assert!(!a.eq(&b));

    assert!(!a.neq(&a));
    assert!(a.neq(&b));

    assert!(!a.gt(&b));
    assert!(b.gt(&a));

    assert!(a.lt(&b));
    assert!(!b.lt(&a));

    let c = Semver::parse("1.1.1q").unwrap();
    let d = Semver::parse("1.1.1s").unwrap();

    assert!(c.eq(&c));
    assert!(!c.eq(&d));

    assert!(!c.neq(&c));
    assert!(c.neq(&d));

    assert!(!c.gt(&d));
    assert!(d.gt(&c));

    assert!(c.lt(&d));
    assert!(!d.lt(&c));

    let e = Semver::parse("1.2.3-alpha").unwrap();
    let f = Semver::parse("1.2.3-alpha.1").unwrap();
    let g = Semver::parse("1.2.3-alpha.2").unwrap();
    let h = Semver::parse("1.2.3-beta.1").unwrap();
    let i = Semver::parse("1.2.3-alpha.1+8ec0834").unwrap();
    let j = Semver::parse("1.2.3-alpha.1+7ec0834").unwrap();
    let k = Semver::parse("1.2.3-alpha.2+7ec0834").unwrap();

    assert!(e.lt(&f)); // 1.2.3-alpha < 1.2.3-alpha.1
    assert!(f.eq(&f)); // 1.2.3-alpha.1 == 1.2.3-alpha.1
    assert!(f.lt(&a)); // 1.2.3-alpha.1 < 1.2.3
    assert!(a.gt(&f)); // 1.2.3 > 1.2.3-alpha.1
    assert!(f.lt(&g)); // 1.2.3-alpha.1 < 1.2.3-alpha.2
    assert!(g.gt(&f)); // 1.2.3-alpha.2 > 1.2.3-alpha.1
    assert!(g.lt(&h)); // 1.2.3-alpha.2 < 1.2.3-beta.1
    assert!(f.lt(&i)); // 1.2.3-alpha.1 < 1.2.3-alpha.1+8ec0834
    assert!(i.gt(&f)); // 1.2.3-alpha.1+8ec0834 > 1.2.3-alpha.1
    assert!(i.eq(&i)); // 1.2.3-alpha.1+8ec0834 == 1.2.3-alpha.1+8ec0834
    assert!(i.gt(&j)); // 1.2.3-alpha.1+8ec0834 > 1.2.3-alpha.1+7ec0834
    assert!(j.lt(&i)); // 1.2.3-alpha.1+7ec0834 < 1.2.3-alpha.1+8ec0834
    assert!(i.lt(&k)); // 1.2.3-alpha.1+8ec0834 < 1.2.3-alpha.2+7ec0834
    assert!(j.lt(&k)); // 1.2.3-alpha.1+7ec0834 < 1.2.3-alpha.2+7ec0834
}

#[test]
fn test_sort() {
    let a = Semver::parse("1.2.3").unwrap();
    let b = Semver::parse("10.3.4").unwrap();
    let c = Semver::parse("1.2.4").unwrap();
    let d = Semver::parse("1.2.3.1").unwrap();
    let e = Semver::parse("2.3.4").unwrap();
    let mut s1 = vec![a.clone(), b.clone(), c.clone(), d.clone(), e.clone()];
    s1.sort_by(|x, y| x.partial_cmp(y).unwrap());

    let s2 = vec![a, d, c, e, b];

    assert_eq!(s1, s2);
}

#[test]
fn test_calver_sort() {
    let a = Semver::parse("1.2.3").unwrap();
    let b = Semver::parse("2.3.4").unwrap();
    let c = Semver::parse("2023.03.04").unwrap();
    let d = Semver::parse("1.2.3.1").unwrap();
    let e = Semver::parse("3.4.5").unwrap();
    let mut s1 = vec![a.clone(), b.clone(), c.clone(), d.clone(), e.clone()];
    s1.sort_by(|x, y| x.partial_cmp(y).unwrap());

    let s2 = vec![c, a, d, b, e];

    assert_eq!(s1, s2);
}

#[test]
fn semver_test_bump() {
    let a = Semver::parse("1.2.3").unwrap();
    let b = Semver::parse("1.2.4").unwrap();
    let c = Semver::parse("1.3.0").unwrap();
    let d = Semver::parse("2.0.0").unwrap();

    assert_eq!(a.bump(&SemverComponent::Major).unwrap(), d);
    assert_eq!(a.bump(&SemverComponent::Minor).unwrap(), c);
    assert_eq!(a.bump(&SemverComponent::Patch).unwrap(), b);
    assert_eq!(a.bump(&SemverComponent::Keep).unwrap(), a);

    assert_eq!(SemverComponent::from("major"), SemverComponent::Major);
    assert_eq!(SemverComponent::from("minor"), SemverComponent::Minor);
    assert_eq!(SemverComponent::from("patch"), SemverComponent::Patch);
    assert_eq!(SemverComponent::from("gibberish"), SemverComponent::Keep);
}

#[test]
fn semver_test_infinty() {
    let inf = Semver::infinty();

    assert_eq!(inf.components, [usize::MAX, usize::MAX, usize::MAX]);
    assert_eq!(inf.raw, "Infinity.Infinity.Infinity");
}

#[test]
fn semver_test_display() {
    let a = Semver::parse("1.2.3").unwrap();
    let b = Semver::parse("1.2.3-alpha").unwrap();
    let c = Semver::parse("1.2.0").unwrap();
    let d = Semver::parse("1.0.0").unwrap();
    let e = Semver::parse("1.2.3-alpha.1+b40").unwrap();
    let f = Semver::parse("1.2.3-alpha.1+build.40").unwrap();
    let g = Semver::parse("1").unwrap();

    assert_eq!(a.render(), "1.2.3");
    assert_eq!(b.render(), "1.2.3-alpha");
    assert_eq!(c.render(), "1.2.0");
    assert_eq!(d.render(), "1.0.0");
    assert_eq!(e.render(), "1.2.3-alpha.1+b40");
    assert_eq!(f.render(), "1.2.3-alpha.1+build.40");
    assert_eq!(g.render(), "1");
}
