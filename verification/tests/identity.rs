use updates_core::cache::{Evr, NevraId, ParseError};
use updates_core::nevra::Nevra;

#[test]
fn nevra_parse_with_epoch() {
    let n = Nevra::parse("foo-1:2-3.x86_64").unwrap();
    assert_eq!(n.name, "foo");
    assert_eq!(n.epoch.as_deref(), Some("1"));
    assert_eq!(n.version, "2");
    assert_eq!(n.release, "3");
    assert_eq!(n.arch, "x86_64");
}

#[test]
fn nevra_parse_without_epoch() {
    let n = Nevra::parse("my-pkg-2.0-1.el8.noarch").unwrap();
    assert_eq!(n.name, "my-pkg");
    assert_eq!(n.epoch, None);
    assert_eq!(n.version, "2.0");
    assert_eq!(n.release, "1.el8");
    assert_eq!(n.arch, "noarch");
}

#[test]
fn nevra_parse_greedy_name() {
    // the name swallows every hyphen up to the second-to-last one
    let n = Nevra::parse("a-b-c-1-2.x86_64").unwrap();
    assert_eq!(n.name, "a-b-c");
    assert_eq!(n.version, "1");
    assert_eq!(n.release, "2");
}

#[test]
fn nevra_parse_rejects_bad_shapes() {
    assert!(Nevra::parse("foo").is_none());
    assert!(Nevra::parse("a-b.x").is_none());
    assert!(Nevra::parse("a-1-2.X86").is_none());
    assert!(Nevra::parse("a--2.x").is_none());
    assert!(Nevra::parse("a-1-2.").is_none());
    assert!(Nevra::parse("a-1-2").is_none());
}

#[test]
fn nevra_parse_epoch_needs_digits_and_version() {
    // "12a:3" has no digit-colon prefix, so everything is the version
    let n = Nevra::parse("p-12a:3-1.x86_64").unwrap();
    assert_eq!(n.epoch, None);
    assert_eq!(n.version, "12a:3");
    // "123:" with nothing after the colon keeps the colon in the version
    let n2 = Nevra::parse("p-123:-1.x86_64").unwrap();
    assert_eq!(n2.epoch, None);
    assert_eq!(n2.version, "123:");
}

#[test]
fn nevra_to_string_round_trip() {
    for s in ["foo-1:2-3.x86_64", "my-pkg-2.0-1.el8.noarch", "a-b-c-1-2.x86_64"] {
        let n = Nevra::parse(s).unwrap();
        assert_eq!(n.to_string(), s);
    }
}

#[test]
fn nevra_evr_reads_epoch() {
    let n = Nevra::parse("foo-3:2-1.x86_64").unwrap();
    let e = n.evr();
    assert_eq!(e.0, 3);
    assert_eq!(e.1, "2");
    assert_eq!(e.2, "1");
    let n2 = Nevra::parse("foo-2-1.x86_64").unwrap();
    assert_eq!(n2.evr().0, 0);
}

#[test]
fn nevra_from_name_evr_arch_always_has_epoch() {
    let n = Nevra::from_name_evr_arch(
        String::from("foo"),
        Evr(7, String::from("1.2"), String::from("9")),
        String::from("x86_64"),
    );
    assert_eq!(n.to_string(), "foo-7:1.2-9.x86_64");
}

#[test]
fn evr_parse_exact() {
    let e = Evr::parse("1:2:3").unwrap();
    assert_eq!(e.0, 1);
    assert_eq!(e.1, "2");
    assert_eq!(e.2, "3");
    let e2 = Evr::parse("0:1.2:3.el9").unwrap();
    assert_eq!(e2.0, 0);
    assert_eq!(e2.1, "1.2");
    assert_eq!(e2.2, "3.el9");
}

#[test]
fn evr_parse_takes_last_three_fields() {
    let e = Evr::parse("junk:4:v:r").unwrap();
    assert_eq!(e.0, 4);
    assert_eq!(e.1, "v");
    assert_eq!(e.2, "r");
}

#[test]
fn evr_parse_errors() {
    assert_eq!(Evr::parse("1:2").unwrap_err(), ParseError::TooFewFields);
    assert_eq!(Evr::parse("").unwrap_err(), ParseError::TooFewFields);
    assert_eq!(Evr::parse("x:2:3").unwrap_err(), ParseError::BadNumber);
    assert_eq!(Evr::parse("::3").unwrap_err(), ParseError::BadNumber);
}

#[test]
fn nevra_id_parse_exact() {
    assert_eq!(NevraId::parse("1:2:3").unwrap(), NevraId(1, 2, 3));
    assert_eq!(NevraId::parse("0:0:0").unwrap(), NevraId(0, 0, 0));
}

#[test]
fn nevra_id_parse_errors() {
    assert_eq!(NevraId::parse("1:2").unwrap_err(), ParseError::TooFewFields);
    assert_eq!(NevraId::parse("a:2:3").unwrap_err(), ParseError::BadNumber);
    assert_eq!(NevraId::parse("1:b:3").unwrap_err(), ParseError::BadNumber);
    assert_eq!(NevraId::parse("1:2:c").unwrap_err(), ParseError::BadNumber);
}
