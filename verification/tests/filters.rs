use ltools::crstrip::CrStripper;
use ltools::entry::{Entry, EntryTokenWriter, EntryVec};
use ltools::filter::{is_match, AttributeDescription, Filter, FilterType, GlobPart};
use ltools::lexer::Lexer;
use ltools::loc::WriteLocWrapper;
use ltools::unfold::Unfolder;

fn read_entries(ldif: &[u8]) -> Vec<Entry> {
    let token_writer = EntryTokenWriter::new(EntryVec::new());
    let lexer = Lexer::new(token_writer);
    let unfolder = Unfolder::new(lexer);
    let crstripper = CrStripper::new(unfolder);
    let mut wrapper = WriteLocWrapper::new(crstripper);
    wrapper.write(ldif).unwrap();
    wrapper.flush().unwrap();
    wrapper
        .into_inner()
        .into_inner()
        .into_inner()
        .into_inner()
        .into_inner()
        .into_inner()
}

#[test]
fn test_1() {
    let entries = read_entries(b"\ndn: cn=foo\ncn: foo\n");

    let filter = Filter::parse("(cn=FOO)").unwrap();
    assert!(filter.is_match(&entries[0]));

    let filter = Filter::parse("(cn=f*)").unwrap();
    assert!(filter.is_match(&entries[0]));

    let filter = Filter::parse("(cn=foo*)").unwrap();
    assert!(filter.is_match(&entries[0]));
}

#[test]
fn test_2() {
    let entries = read_entries(b"\ndn: cn=MyDriver,cn=driverset1,o=system\nDirXML-ConfigValues:: c3JjUm9vdAo=\n");
    let filter = Filter::parse("(DirXML-ConfigValues=*srcRoot*)").unwrap();
    assert!(filter.is_match(&entries[0]));
}

#[test]
fn test_simple_filter() {
    let f = Filter::parse("(ou=sa)").unwrap();
    match f {
        Filter::Simple(a, t, v) => {
            assert_eq!(a.attribute_type, b"ou".to_vec());
            assert_eq!(t, FilterType::Equal);
            assert_eq!(v, b"sa".to_vec());
        }
        _ => panic!("expected a simple filter"),
    }
}

#[test]
fn test_present_filter() {
    let f = Filter::parse("(ou=*)").unwrap();
    match f {
        Filter::Present(a) => assert_eq!(a.attribute_type, b"ou".to_vec()),
        _ => panic!("expected a present filter"),
    }
}

#[test]
fn test_not_filter() {
    let f = Filter::parse("(!(ou=*))").unwrap();
    match f {
        Filter::Not(inner) => match *inner {
            Filter::Present(a) => assert_eq!(a.attribute_type, b"ou".to_vec()),
            _ => panic!("expected a present filter inside"),
        },
        _ => panic!("expected a negation"),
    }
}

#[test]
fn test_and_filter() {
    let f = Filter::parse("(&(f=*)(o>=o))").unwrap();
    match f {
        Filter::And(subs) => {
            assert_eq!(subs.len(), 2);
            assert!(matches!(subs[0], Filter::Present(_)));
            match &subs[1] {
                Filter::Simple(a, t, v) => {
                    assert_eq!(a.attribute_type, b"o".to_vec());
                    assert_eq!(*t, FilterType::GreaterOrEqual);
                    assert_eq!(*v, b"o".to_vec());
                }
                _ => panic!("expected a simple filter"),
            }
        }
        _ => panic!("expected a conjunction"),
    }
}

#[test]
fn parse_rejects_trailing_text() {
    assert!(Filter::parse("(cn=a)x").is_err());
    assert!(Filter::parse("(cn=a").is_err());
    assert!(Filter::parse("").is_err());
}

#[test]
fn glob_case_insensitive_consecutive_wildcards() {
    // *SrCr**T* with lowercased literals, as the parser builds it
    let glob = vec![
        GlobPart::Wildcard,
        GlobPart::Literal(b's'),
        GlobPart::Literal(b'r'),
        GlobPart::Literal(b'c'),
        GlobPart::Literal(b'r'),
        GlobPart::Wildcard,
        GlobPart::Wildcard,
        GlobPart::Literal(b't'),
        GlobPart::Wildcard,
    ];
    assert!(is_match(&glob, b"DirXML-srcRoot"));
    // the same value with its final letter gone no longer matches
    assert!(!is_match(&glob, b"DirXML-srcRoo"));
}

#[test]
fn glob_wildcard_matches_empty_run() {
    let glob = vec![
        GlobPart::Literal(b'a'),
        GlobPart::Wildcard,
        GlobPart::Literal(b'b'),
    ];
    assert!(is_match(&glob, b"ab"));
    assert!(is_match(&glob, b"axyzb"));
    assert!(!is_match(&glob, b"a"));
}

#[test]
fn glob_monotonicity_scenario() {
    // adding a wildcard never removes a match
    let glob = vec![GlobPart::Literal(b'a'), GlobPart::Literal(b'b')];
    let mut wider = glob.clone();
    wider.insert(1, GlobPart::Wildcard);
    for value in [&b"ab"[..], &b"Ab"[..], &b"AB"[..]] {
        if is_match(&glob, value) {
            assert!(is_match(&wider, value));
        }
    }
    assert!(is_match(&wider, b"axb"));
}

#[test]
fn filter_and_not_scenario() {
    let entries = read_entries(b"dn: cn=foo\ncn: foo\n\ndn: cn=foo2\ncn: foo\nsn: x\n");
    let filter = Filter::parse("(&(cn=FOO)(!(sn=*)))").unwrap();
    assert!(filter.is_match(&entries[0]));
    assert!(!filter.is_match(&entries[1]));
}

#[test]
fn ordering_comparators_accept_nothing() {
    let entries = read_entries(b"dn: cn=foo\ncn: foo\n");
    let ge = Filter::Simple(
        AttributeDescription {
            attribute_type: b"cn".to_vec(),
        },
        FilterType::GreaterOrEqual,
        b"a".to_vec(),
    );
    assert!(!ge.is_match(&entries[0]));
}

#[test]
fn or_filter_matches_either() {
    let entries = read_entries(b"dn: cn=foo\ncn: foo\n");
    let filter = Filter::parse("(|(cn=nope)(cn=foo))").unwrap();
    assert!(filter.is_match(&entries[0]));
    let filter = Filter::parse("(|(cn=nope)(cn=zilch))").unwrap();
    assert!(!filter.is_match(&entries[0]));
}

#[test]
fn filter_hex_escapes() {
    let f = Filter::parse("(cn=\\41\\42)").unwrap();
    match f {
        Filter::Simple(_, _, v) => assert_eq!(v, b"ab".to_vec()),
        _ => panic!("expected a simple filter"),
    }
}
