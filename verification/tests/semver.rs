use registry_manager::reconcile::version_verdict;
use registry_manager::semver::{Identifier, SemVer};

fn read(text: &str) -> SemVer {
    SemVer::parse_or(text, SemVer::new(99, 99, 99))
}

fn outranks(a: SemVer, b: SemVer) -> bool {
    version_verdict(&Some(b), &a) == Ok(true)
}

fn newer(a: &str, b: &str) -> bool {
    outranks(read(a), read(b))
}

#[test]
fn parse_reads_the_three_numbers() {
    let v = read("1.22.333");
    assert_eq!((v.major, v.minor, v.patch), (1, 22, 333));
    assert!(v.pre_release.is_empty());
}

#[test]
fn parse_reads_the_pre_release_parts() {
    let v = read("2.0.1-alpha.7+build.5");
    assert_eq!((v.major, v.minor, v.patch), (2, 0, 1));
    assert_eq!(v.pre_release.len(), 2);
    assert!(matches!(&v.pre_release[0], Identifier::AlphaNumeric(s) if s == "alpha"));
    assert!(matches!(&v.pre_release[1], Identifier::Numeric(7)));
}

#[test]
fn parse_falls_back_where_the_text_is_no_version() {
    for text in ["", "1", "1.2", "one.two.three", "1.2.x", "1.2.3.4.5 6"] {
        let v = read(text);
        assert_eq!((v.major, v.minor, v.patch), (99, 99, 99), "text: {:?}", text);
    }
}

#[test]
fn parse_accepts_a_leading_v() {
    let v = read("v3.4.5");
    assert_eq!((v.major, v.minor, v.patch), (3, 4, 5));
}

#[test]
fn new_has_no_pre_release() {
    let v = SemVer::new(0, 9, 0);
    assert_eq!((v.major, v.minor, v.patch), (0, 9, 0));
    assert!(v.pre_release.is_empty());
    assert!(!outranks(SemVer::new(0, 9, 0), read("0.9.0")));
    assert!(!outranks(read("0.9.0"), v));
}

#[test]
fn numbers_rank_from_major_to_patch() {
    assert!(newer("2.0.0", "1.9.9"));
    assert!(newer("1.10.0", "1.9.9"));
    assert!(newer("1.9.10", "1.9.9"));
    assert!(!newer("1.9.9", "2.0.0"));
    assert!(!newer("1.9.9", "1.10.0"));
    assert!(!newer("1.9.9", "1.9.10"));
}

#[test]
fn no_version_is_newer_than_itself() {
    for text in ["0.0.0", "1.2.3", "1.2.3-rc.1", "1.2.3-alpha"] {
        assert!(!newer(text, text), "text: {}", text);
    }
}

#[test]
fn build_metadata_does_not_rank() {
    assert!(!newer("1.0.0+b", "1.0.0+a"));
    assert!(!newer("1.0.0+a", "1.0.0+b"));
}

#[test]
fn a_release_ranks_above_its_pre_releases() {
    assert!(newer("1.0.0", "1.0.0-rc.1"));
    assert!(!newer("1.0.0-rc.1", "1.0.0"));
    assert!(newer("1.0.1-alpha", "1.0.0"));
}

#[test]
fn pre_release_parts_rank_in_turn() {
    assert!(newer("1.0.0-alpha.1", "1.0.0-alpha"));
    assert!(!newer("1.0.0-alpha", "1.0.0-alpha.1"));
    assert!(newer("1.0.0-alpha.beta", "1.0.0-alpha.1"));
    assert!(newer("1.0.0-beta", "1.0.0-alpha.beta"));
    assert!(newer("1.0.0-beta.11", "1.0.0-beta.2"));
    assert!(newer("1.0.0-rc.1", "1.0.0-beta.11"));
    assert!(!newer("1.0.0-beta.2", "1.0.0-beta.11"));
}

#[test]
fn numeric_parts_rank_below_text_parts() {
    assert!(newer("1.0.0-a", "1.0.0-999"));
    assert!(!newer("1.0.0-999", "1.0.0-a"));
}

#[test]
fn text_parts_rank_in_byte_order() {
    assert!(newer("1.0.0-b", "1.0.0-a"));
    assert!(newer("1.0.0-a", "1.0.0-B"));
    assert!(newer("1.0.0-ab", "1.0.0-a"));
    assert!(!newer("1.0.0-a", "1.0.0-ab"));
}

#[test]
fn versions_built_by_hand_rank_like_those_that_were_read() {
    let tagged = |parts: Vec<Identifier>| SemVer { major: 1, minor: 0, patch: 0, pre_release: parts };
    let one = || Identifier::Numeric(1);
    let two = || Identifier::Numeric(2);
    let a = || Identifier::AlphaNumeric(String::from("a"));
    let b = || Identifier::AlphaNumeric(String::from("b"));
    assert!(outranks(tagged(vec![two()]), tagged(vec![one()])));
    assert!(!outranks(tagged(vec![one()]), tagged(vec![two()])));
    assert!(!outranks(tagged(vec![one()]), tagged(vec![one()])));
    assert!(outranks(tagged(vec![a()]), tagged(vec![two()])));
    assert!(!outranks(tagged(vec![two()]), tagged(vec![a()])));
    assert!(outranks(tagged(vec![b()]), tagged(vec![a()])));
    assert!(!outranks(tagged(vec![a()]), tagged(vec![a()])));
    assert!(outranks(tagged(vec![a(), one()]), tagged(vec![a()])));
    assert!(outranks(tagged(vec![]), tagged(vec![b(), two()])));
    assert!(!outranks(tagged(vec![b(), two()]), tagged(vec![])));
    assert!(outranks(SemVer::new(1, 0, 1), tagged(vec![])));
}
