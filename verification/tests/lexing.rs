use ltools::entry::{EntryTokenWriter, EntryVec};
use ltools::lexer::{Lexer, TokenKind, TokenVec};
use ltools::loc::{Loc, LocWrite};

#[test]
fn it_works() {
    let mut lexer = Lexer::new(TokenVec::new());
    lexer
        .loc_write(
            Loc::default(),
            b"# comment 1\n\
              dn:cn=admin,ou=sa,o=system\n\
              # comment 2\n\
              # comment 3\n\
              cn: admin\n\
              # comment 4\n\
              sn:: MO4Z2VzdMO4bA==\n\
              \n\
              dn: cn=uaadmin,ou=sa,o=data\n",
        )
        .expect("success");
    let tokens = lexer.into_inner().into_inner();
    let tuples: Vec<(TokenKind, String)> = tokens
        .into_iter()
        .map(|t| (t.kind, String::from_utf8(t.segment).unwrap()))
        .collect();
    assert_eq!(tuples[0], (TokenKind::AttributeType, String::from("dn")));
    assert_eq!(
        tuples[1],
        (TokenKind::ValueText, String::from("cn=admin,ou=sa,o=system"))
    );
    assert_eq!(tuples[2], (TokenKind::ValueFinish, String::from("")));

    assert_eq!(tuples[3], (TokenKind::AttributeType, String::from("cn")));
    assert_eq!(tuples[4], (TokenKind::ValueText, String::from("admin")));
    assert_eq!(tuples[5], (TokenKind::ValueFinish, String::from("")));

    assert_eq!(tuples[6], (TokenKind::AttributeType, String::from("sn")));
    assert_eq!(
        tuples[7],
        (TokenKind::ValueBase64, String::from("MO4Z2VzdMO4bA=="))
    );
    assert_eq!(tuples[8], (TokenKind::ValueFinish, String::from("")));

    assert_eq!(tuples[9], (TokenKind::EmptyLine, String::from("")));

    assert_eq!(tuples[10], (TokenKind::AttributeType, String::from("dn")));
    assert_eq!(
        tuples[11],
        (TokenKind::ValueText, String::from("cn=uaadmin,ou=sa,o=data"))
    );
    assert_eq!(tuples[12], (TokenKind::ValueFinish, String::from("")));
    assert_eq!(tuples.len(), 13);
}

#[test]
fn lexer_smoke_record_boundaries() {
    let mut lexer = Lexer::new(TokenVec::new());
    lexer
        .loc_write(
            Loc::default(),
            b"# c\ndn:cn=admin,ou=sa,o=system\ncn: admin\nsn:: bmljZQ==\n\ndn: cn=bob\n",
        )
        .unwrap();
    lexer.loc_flush(Loc::default()).unwrap();
    let tokens = lexer.into_inner().into_inner();
    let kinds: Vec<TokenKind> = tokens.iter().map(|t| t.kind).collect();
    assert_eq!(
        kinds,
        vec![
            TokenKind::AttributeType,
            TokenKind::ValueText,
            TokenKind::ValueFinish,
            TokenKind::AttributeType,
            TokenKind::ValueText,
            TokenKind::ValueFinish,
            TokenKind::AttributeType,
            TokenKind::ValueBase64,
            TokenKind::ValueFinish,
            TokenKind::EmptyLine,
            TokenKind::AttributeType,
            TokenKind::ValueText,
            TokenKind::ValueFinish,
            TokenKind::EmptyLine,
        ]
    );
    assert_eq!(tokens[1].segment, b"cn=admin,ou=sa,o=system".to_vec());
    assert_eq!(tokens[7].segment, b"bmljZQ==".to_vec());
    assert_eq!(tokens[11].segment, b"cn=bob".to_vec());
}

#[test]
fn lexer_rejects_digit_start() {
    let mut lexer = Lexer::new(TokenVec::new());
    assert!(lexer.loc_write(Loc::default(), b"2.5.4.3: x\n").is_err());
}

#[test]
fn lexer_rejects_options() {
    let mut lexer = Lexer::new(TokenVec::new());
    assert!(lexer.loc_write(Loc::default(), b"cn;lang-en: x\n").is_err());
}

#[test]
fn lexer_rejects_url_values() {
    let mut lexer = Lexer::new(TokenVec::new());
    assert!(lexer.loc_write(Loc::default(), b"cn:< file:///x\n").is_err());
}

#[test]
fn lexer_rejects_non_ascii() {
    let mut lexer = Lexer::new(TokenVec::new());
    assert!(lexer.loc_write(Loc::default(), b"cn: a\xc3\xb8\n").is_err());
}

#[test]
fn entry_token_writer_test_a() {
    let ldif = b"\nversion: 1\ndn: cn=foo\ncn: foo\n\nsearch: 2\n\ndn: cn=bar\nCN: bar\n";
    let mut token_writer =
        EntryTokenWriter::new_for_attributes(vec![b"dn".to_vec(), b"cn".to_vec()], EntryVec::new());
    token_writer.set_ignore_entries_without_dn(true);
    let mut lexer = Lexer::new(token_writer);

    lexer.loc_write(Loc::default(), ldif).unwrap();
    lexer.loc_flush(Loc::default()).unwrap();

    let entries = lexer.into_inner().into_inner().into_inner();

    assert_eq!(
        entries[0].get_one_str("dn"),
        Some(String::from("cn=foo"))
    );
    assert_eq!(entries[0].get_one_str("cn"), Some(String::from("foo")));

    // no residue from the previous entry
    assert_eq!(
        entries[1].get_one_str("dn"),
        Some(String::from("cn=bar"))
    );
    assert_eq!(entries[1].get_one_str("cn"), Some(String::from("bar")));

    // 'search: 2' does not start with a dn, so it is not an entry
    assert_eq!(entries.len(), 2);
}

#[test]
fn assembler_decodes_base64_values() {
    let ldif = b"dn: cn=a\nsn:: SGVsbG8gd29ybGQ=\n";
    let token_writer = EntryTokenWriter::new(EntryVec::new());
    let mut lexer = Lexer::new(token_writer);
    lexer.loc_write(Loc::default(), ldif).unwrap();
    lexer.loc_flush(Loc::default()).unwrap();
    let entries = lexer.into_inner().into_inner().into_inner();
    assert_eq!(entries.len(), 1);
    let sn = entries[0].get_one(b"sn").unwrap();
    assert_eq!(sn, b"Hello world".to_vec());
}

#[test]
fn assembler_is_case_insensitive() {
    let ldif = b"dn: cn=a\nTelephoneNumber: 1\ntelephonenumber: 2\n";
    let token_writer = EntryTokenWriter::new(EntryVec::new());
    let mut lexer = Lexer::new(token_writer);
    lexer.loc_write(Loc::default(), ldif).unwrap();
    lexer.loc_flush(Loc::default()).unwrap();
    let entries = lexer.into_inner().into_inner().into_inner();
    let vals = entries[0].get(b"TELEPHONENUMBER");
    assert_eq!(vals, vec![b"1".to_vec(), b"2".to_vec()]);
    let attrs = entries[0].attributes();
    assert!(attrs
        .iter()
        .any(|a| a.name == b"TelephoneNumber".to_vec() && a.lowercase == b"telephonenumber".to_vec()));
}
