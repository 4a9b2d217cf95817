use semverator::range::Range;
use semverator::semver::Semver;

#[test]
fn range_test_parse() {
    let a = Range::parse(">=11<15");
    let b = Range::parse("^16");
    let c = Range::parse("~16");
    let d = Range::parse("=16");
    let e = Range::parse("<16");
    let f = Range::parse(">=11<15||^16.5||~16||=16||<16");
    let g = Range::parse("*");
    let h = Range::parse(">=15<12");
    let i = Range::parse("<=11>15");
    let j = Range::parse("Your mom");
    let k = Range::parse("");
    let l = Range::parse(">=12");
    let m = Range::parse("@1");
    let n = Range::parse("@1.1");
    let o = Range::parse("@1.1.1");
    let p = Range::parse("@1.1.1.1");

    assert!(a.is_ok());
    assert!(b.is_ok());
    assert!(c.is_ok());
    assert!(d.is_ok());
    assert!(e.is_ok());
    assert!(f.is_ok());
    assert!(g.is_ok());
    assert!(h.is_err());
    assert!(i.is_err());
    assert!(j.is_err());
    assert!(k.is_err());
    assert!(l.is_ok());
    assert!(m.is_ok());
    assert!(n.is_ok());
    assert!(o.is_ok());
    assert!(p.is_ok());

    assert_eq!(f.unwrap().set.len(), 5);
}

#[test]
fn range_test_raw() {
    let ra = Range::parse("*").unwrap();

    assert_eq!(ra.raw(), "*");
}

#[test]
fn range_test_satisfies() {
    let ra = Range::parse(">=11<14").unwrap();

    let sa = Semver::parse("10.5").unwrap();
    let sb = Semver::parse("11.5").unwrap();
    let sc = Semver::parse("13.5").unwrap();
    let sd = Semver::parse("15.5").unwrap();

    assert!(!ra.satisfies(&sa));
    assert!(ra.satisfies(&sb));
    assert!(ra.satisfies(&sc));
    assert!(!ra.satisfies(&sd));

    let rb = Range::parse("^11").unwrap();

    assert!(!rb.satisfies(&sa));
    assert!(rb.satisfies(&sb));
    assert!(!rb.satisfies(&sc));
    assert!(!rb.satisfies(&sd));

    let rc = Range::parse("^11.6").unwrap();

    assert!(!rc.satisfies(&sb));

    let rd = Range::parse("=11.5").unwrap();

    assert!(!rd.satisfies(&sa));
    assert!(rd.satisfies(&sb));

    let re = Range::parse("^0.1.0").unwrap();

    let se = Semver::parse("0.1.1").unwrap();
    let sf = Semver::parse("0.2.1").unwrap();

    assert!(re.satisfies(&se));
    assert!(!re.satisfies(&sf));

    let rg = Range::parse("^0.0.5").unwrap();

    let sg = Semver::parse("0.0.5").unwrap();
    let sh = Semver::parse("0.0.6").unwrap();

    assert!(rg.satisfies(&sg));
    assert!(!rg.satisfies(&sh));

    let ri = Range::parse("^0").unwrap();

    let si = Semver::parse("0.0.5").unwrap();
    let sj = Semver::parse("0.21.1").unwrap();
    let sk = Semver::parse("1.0.0").unwrap();

    assert!(ri.satisfies(&si));
    assert!(ri.satisfies(&sj));
    assert!(!ri.satisfies(&sk));
}

#[test]
fn range_test_max() {
    let ra = Range::parse("*").unwrap();
    let rb = Range::parse(">=11<15").unwrap();
    let rc = Range::parse("^16.5").unwrap();
    let rd = Range::parse("^3").unwrap();

    let sa = vec![
        Semver::parse("10.5").unwrap(),
        Semver::parse("11.5").unwrap(),
        Semver::parse("12.5").unwrap(),
        Semver::parse("13.5").unwrap(),
        Semver::parse("14.5").unwrap(),
        Semver::parse("15.5").unwrap(),
        Semver::parse("16.3").unwrap(),
        Semver::parse("16.5").unwrap(),
        Semver::parse("16.8").unwrap(),
        Semver::parse("17.8").unwrap(),
        Semver::parse("4.8").unwrap(),
    ];

    assert_eq!(ra.max(&sa).unwrap().raw, "17.8.0");
    assert_eq!(rb.max(&sa).unwrap().raw, "14.5.0");
    assert_eq!(rc.max(&sa).unwrap().raw, "16.8.0");
    assert!(rd.max(&sa).is_none());
}

#[test]
fn range_test_intersect() {
    let ra = Range::parse("^3.7").unwrap();
    let rb = Range::parse("=3.11").unwrap();

    let ia = ra.intersect(&rb);
    assert!(ia.is_ok());
    assert_eq!(ia.unwrap().raw, "=3.11.0");

    let rc = Range::parse("^3.9").unwrap();

    let ib = ra.intersect(&rc);
    assert!(ib.is_ok());
    assert_eq!(ib.unwrap().raw, ">=3.9.0<4.0.0");

    let rd = Range::parse("*").unwrap();

    let ic = ra.intersect(&rd);
    assert!(ic.is_ok());
    assert_eq!(ic.unwrap().raw, "^3.7");

    let re = Range::parse("~3.7").unwrap();
    let rf = Range::parse("~3.8").unwrap();

    let id = re.intersect(&rf);
    assert!(id.is_err());

    let rg = Range::parse("=3.8.0").unwrap();

    let ie = ra.intersect(&rg);
    assert!(ie.is_ok());
    assert_eq!(ie.unwrap().raw, rg.raw);

    let rh = Range::parse("^11,^12").unwrap();
    let ri = Range::parse("^11.3").unwrap();

    let i_f = rh.intersect(&ri);
    assert!(i_f.is_ok());
    assert_eq!(i_f.unwrap().raw, ">=11.3.0<12.0.0");

    let rj = Range::parse("^11.3,^12.2").unwrap();

    let ig = rh.intersect(&rj);
    assert!(ig.is_ok());
    assert_eq!(ig.unwrap().raw, ">=11.3.0<12.0.0,>=12.2.0<13.0.0");

    let rk = Range::parse("*").unwrap();

    let ih = rk.intersect(&ra);
    assert!(ih.is_ok());
    assert_eq!(ih.unwrap().raw, ra.raw);

    let ii = ra.intersect(&rk);
    assert!(ii.is_ok());
    assert_eq!(ii.unwrap().raw, ra.raw);

    let rl = Range::parse("=3.8.0").unwrap();
    let rm = Range::parse("=3.9.0").unwrap();

    let ij = rg.intersect(&rl);
    let ik = rg.intersect(&rm);

    assert!(ij.is_ok());
    assert!(ik.is_err());
    assert_eq!(ij.unwrap().raw, rl.raw);

    let il = rg.intersect(&ra);
    assert!(il.is_ok());
    assert_eq!(il.unwrap().raw, rg.raw);

    // an internally-generated open upper bound round-trips through text
    let rn = Range::any();
    let ro = Range::parse(">=5.0.0<Infinity.Infinity.Infinity").unwrap();

    let im = rn.intersect(&ro);
    assert!(im.is_ok());
    assert_eq!(im.unwrap().raw, ro.raw);

    let i_n = ro.intersect(&rn);
    assert!(i_n.is_ok());
    assert_eq!(i_n.unwrap().raw, ro.raw);
}

#[test]
fn test_at() {
    let ra = Range::parse(">=1.0<1.1").unwrap();
    let rb = Range::parse("=1.1").unwrap();

    assert_eq!(ra.render(), "~1");
    assert_eq!(rb.render(), "=1.1");

    let rc = Range::parse(">=1.1.0<1.1.1").unwrap();
    let rd = Range::parse("=1.1.1").unwrap();

    assert_eq!(rc.render(), "@1.1.0");
    assert_eq!(rd.render(), "=1.1.1");

    let re = Range::parse(">=1.1.1.0<1.1.1.1").unwrap();
    let rf = Range::parse("=1.1.1.0").unwrap();

    assert_eq!(re.render(), "@1.1.1.0");
    assert_eq!(rf.render(), "=1.1.1.0");

    let rg = Range::parse(">=1.1<1.1.1.1.1").unwrap();
    let rh = Range::parse(">=1.1.1<1.1.3").unwrap();
    let ri = Range::parse(">=1.1.1<1.2.2").unwrap();

    assert_eq!(rg.render(), ">=1.1<1.1.1.1.1");
    assert_eq!(rh.render(), ">=1.1.1<1.1.3");
    assert_eq!(ri.render(), ">=1.1.1<1.2.2");

    let rj = Range::parse("@1").unwrap();
    let rk = Range::parse("@1.1").unwrap();
    let rl = Range::parse("@1.1.1").unwrap();
    let rm = Range::parse("@1.1.1.1").unwrap();

    assert_eq!(rj.render(), "^1");
    assert_eq!(rk.render(), "~1.1");
    assert_eq!(rl.render(), "@1.1.1");
    assert_eq!(rm.render(), "@1.1.1.1");
}

#[test]
fn range_test_display() {
    let ra = Range::parse("^3.7").unwrap();
    let rb = Range::parse("=3.11").unwrap();
    let rc = Range::parse("^3.9").unwrap();
    let rd = Range::parse("*").unwrap();
    let re = Range::parse(">=0<1").unwrap();
    let rf = Range::parse(">=0.1<1").unwrap();
    let rg = Range::parse(">=0.1<0.2").unwrap();
    let rh = Range::parse(">=0.1.1<0.2").unwrap();
    let ri = Range::parse(">=0.1.1").unwrap();
    let rj = Range::parse(">=0.1.1<3").unwrap();

    assert_eq!(ra.render(), "^3.7");
    assert_eq!(rb.render(), "=3.11");
    assert_eq!(rc.render(), "^3.9");
    assert_eq!(rd.render(), "*");
    assert_eq!(re.render(), "^0");
    assert_eq!(rf.render(), ">=0.1<1");
    assert_eq!(rg.render(), "~0.1");
    assert_eq!(rh.render(), "~0.1.1");
    assert_eq!(ri.render(), ">=0.1.1");
    assert_eq!(rj.render(), ">=0.1.1<3");

    // an internally-generated open upper bound round-trips through text
    let rk = Range::parse(">=5.0.0<Infinity.Infinity.Infinity").unwrap();
    assert_eq!(rk.render(), ">=5");
}

#[test]
fn test_constructors() {
    let ra = Range::parse("*").unwrap();
    let rb = Range::any();

    assert_eq!(ra.raw, rb.raw);

    let rc = Range::parse("=1.2.3").unwrap();
    let rd = Range::single("1.2.3").unwrap();

    assert_eq!(rc.raw, rd.raw);

    let re = Range::parse(">=1.2.3<2.0.0").unwrap();
    let rf = Range::contiguous("1.2.3", "2.0.0").unwrap();

    assert_eq!(re.raw, rf.raw);

    let rg = Range::parse("^1.2.3").unwrap();
    let rh = Range::caret("1.2.3").unwrap();

    assert_eq!(rg.raw, rh.raw);

    let ri = Range::parse("~1.2.3").unwrap();
    let rj = Range::tilde("1.2.3").unwrap();

    assert_eq!(ri.raw, rj.raw);

    let sa = Semver::parse("1.2.3").unwrap();
    let rk = Range::from_semver(&sa).unwrap();

    assert_eq!(rd.raw, rk.raw);
}
