use ltools::attrspec::AttrSpec;
use ltools::compare::{
    compare_entries, dn_compare, CompareParams, DnOrder, ModifyChangeRecord, ModifyOpType,
    SortedEntries,
};
use ltools::csv::CsvEntryWriter;
use ltools::entry::{
    is_ldif_safe_string, write_attrval, write_entry_normally, Entry, WriteEntry,
};
use ltools::escape::{LEscaper, LUnescaper};
use ltools::json::{write_json_string, JsonEntryWriter};
use ltools::loc::LocWrite;
use ltools::tsv::TsvEntryWriter;

fn entry_from(pairs: &[(&str, &[u8])]) -> Entry {
    let mut e = Entry::new();
    for (attr, value) in pairs {
        e.add_value(attr.as_bytes(), value.to_vec());
    }
    e
}

#[test]
fn csv_test_a() {
    let attrspecs = vec![AttrSpec::parse("DN").unwrap(), AttrSpec::parse("xmldata").unwrap()];
    let mut csv_entry_writer = CsvEntryWriter::new(attrspecs, Vec::new());
    csv_entry_writer
        .write_entry(&entry_from(&[
            ("dn", b"cn=foo,dc=example,dc=com".as_slice()),
            ("xmldata", b"<?xml version=\"1.0\"?><xml/>".as_slice()),
        ]))
        .unwrap();
    let expected = b"DN,xmldata\r\n\"cn=foo,dc=example,dc=com\",\"<?xml version=\"\"1.0\"\"?><xml/>\"\r\n";
    assert_eq!(
        String::from_utf8_lossy(csv_entry_writer.get_ref().as_slice()),
        String::from_utf8_lossy(expected)
    );
}

#[test]
fn test_case_difference() {
    let attrspecs = vec![AttrSpec::parse("dn").unwrap(), AttrSpec::parse("CN").unwrap()];
    let mut tsv_entry_writer = TsvEntryWriter::new(attrspecs, Vec::new());
    tsv_entry_writer
        .write_entry(&entry_from(&[
            ("cn", b"foo".as_slice()),
            ("dn", b"cn=foo".as_slice()),
        ]))
        .unwrap();
    assert_eq!(
        tsv_entry_writer.get_ref().as_slice(),
        b"cn=foo\tfoo\n"
    );
}

#[test]
fn tsv_cartesian_rows() {
    let attrspecs = vec![AttrSpec::parse("cn").unwrap(), AttrSpec::parse("sn").unwrap()];
    let mut w = TsvEntryWriter::new(attrspecs, Vec::new());
    let mut e = Entry::new();
    e.add_value(b"cn", b"a".to_vec());
    e.add_value(b"cn", b"b".to_vec());
    e.add_value(b"sn", b"x".to_vec());
    w.write_entry(&e).unwrap();
    assert_eq!(w.get_ref().as_slice(), b"a\tx\nb\tx\n");
}

#[test]
fn write_json_string_test_a() {
    let mut buf = Vec::new();
    write_json_string(&mut buf, b"foo\nbar");
    assert_eq!(String::from_utf8_lossy(&buf), r#""foo\nbar""#);
}

#[test]
fn write_json_string_test_b() {
    let mut buf = Vec::new();
    write_json_string(&mut buf, b"\n");
    assert_eq!(String::from_utf8_lossy(&buf), r#""\n""#);
}

#[test]
fn write_json_string_test_c() {
    let mut buf = Vec::new();
    write_json_string(&mut buf, b"foo\tbar\0baz\r\n");
    assert_eq!(String::from_utf8_lossy(&buf), r#""foo\tbar\u0000baz\r\n""#);
}

#[test]
fn write_json_string_escapes_non_ascii() {
    let mut buf = Vec::new();
    write_json_string(&mut buf, b"caf\xc3\xa9");
    assert_eq!(String::from_utf8_lossy(&buf), r#""caf\u00c3\u00a9""#);
}

#[test]
fn json_entry_rows() {
    let attrspecs = vec![AttrSpec::parse("cn").unwrap()];
    let mut w = JsonEntryWriter::new(attrspecs, Vec::new());
    w.write_entry(&entry_from(&[("dn", b"cn=a".as_slice()), ("cn", b"a".as_slice())]))
        .unwrap();
    assert_eq!(w.get_ref().as_slice(), b"{\"cn\":[\"a\"]}\n");
}

#[test]
fn attrval_safe_and_unsafe() {
    let mut w = Vec::new();
    write_attrval(&mut w, b"cn", b"admin").unwrap();
    assert_eq!(w, b"cn: admin\n".to_vec());
    let mut w = Vec::new();
    write_attrval(&mut w, b"sn", b"Hello world").unwrap();
    // the space makes the value unsafe, so it is base64-encoded
    assert_eq!(w, b"sn::SGVsbG8gd29ybGQ=\n".to_vec());
    assert!(is_ldif_safe_string(b"admin"));
    assert!(!is_ldif_safe_string(b"Hello world"));
    assert!(!is_ldif_safe_string(b":colon-first"));
}

#[test]
fn entry_written_normally_parses_back() {
    // one record through write and a fresh parse: the values survive
    let e = entry_from(&[
        ("dn", b"cn=foo".as_slice()),
        ("cn", b"foo".as_slice()),
        ("sn", b"Hello world".as_slice()),
    ]);
    let mut w = Vec::new();
    write_entry_normally(&mut w, &e).unwrap();
    let token_writer = ltools::entry::EntryTokenWriter::new(ltools::entry::EntryVec::new());
    let mut lexer = ltools::lexer::Lexer::new(token_writer);
    lexer.loc_write(ltools::loc::Loc::default(), w.as_slice()).unwrap();
    lexer.loc_flush(ltools::loc::Loc::default()).unwrap();
    let back = lexer.into_inner().into_inner().into_inner();
    assert_eq!(back.len(), 1);
    assert_eq!(back[0].get_one(b"dn").unwrap(), b"cn=foo".to_vec());
    assert_eq!(back[0].get_one(b"cn").unwrap(), b"foo".to_vec());
    assert_eq!(back[0].get_one(b"sn").unwrap(), b"Hello world".to_vec());
}

#[test]
fn lescape_round_trip() {
    let mut esc = LEscaper::new(Vec::new());
    esc.write(b"cn=a*b(c)").unwrap();
    let escaped = esc.into_inner();
    assert_eq!(escaped, b"cn=a\\2ab\\28c\\29".to_vec());
    let mut unesc = LUnescaper::new(Vec::new());
    unesc.write(escaped.as_slice()).unwrap();
    assert_eq!(unesc.into_inner(), b"cn=a*b(c)".to_vec());
}

#[test]
fn lunescape_rejects_bad_digit() {
    let mut unesc = LUnescaper::new(Vec::new());
    assert!(unesc.write(b"a\\zz").is_err());
}

#[test]
fn diff_replace_single_value() {
    let old_e = entry_from(&[("dn", b"cn=x".as_slice()), ("cn", b"foo".as_slice())]);
    let mut new_e = Entry::new();
    new_e.add_value(b"dn", b"cn=x".to_vec());
    new_e.add_value(b"cn", b"bar".to_vec());
    let rec = ModifyChangeRecord::new(Some(&old_e), &new_e, &Vec::new(), true).unwrap();
    assert_eq!(rec.ops.len(), 1);
    assert_eq!(rec.ops[0].typ, ModifyOpType::Replace);
    assert_eq!(rec.ops[0].attr, b"cn".to_vec());
    assert_eq!(rec.ops[0].values, vec![b"bar".to_vec()]);
}

#[test]
fn diff_delete_then_add() {
    let old_e = entry_from(&[
        ("dn", b"cn=x".as_slice()),
        ("cn", b"a".as_slice()),
        ("cn", b"b".as_slice()),
    ]);
    let new_e = entry_from(&[
        ("dn", b"cn=x".as_slice()),
        ("cn", b"a".as_slice()),
        ("cn", b"c".as_slice()),
    ]);
    let rec = ModifyChangeRecord::new(Some(&old_e), &new_e, &Vec::new(), true).unwrap();
    assert_eq!(rec.ops.len(), 2);
    assert_eq!(rec.ops[0].typ, ModifyOpType::Delete);
    assert_eq!(rec.ops[0].values, vec![b"b".to_vec()]);
    assert_eq!(rec.ops[1].typ, ModifyOpType::Add);
    assert_eq!(rec.ops[1].values, vec![b"c".to_vec()]);
}

#[test]
fn dn_order_shorter_first() {
    assert_eq!(dn_compare(b"o=a", b"ou=b,o=a"), DnOrder::Less);
    assert_eq!(dn_compare(b"o=a", b"o=b"), DnOrder::Less);
    assert_eq!(dn_compare(b"o=b", b"o=a"), DnOrder::Greater);
    assert_eq!(dn_compare(b"o=a", b"o=a"), DnOrder::Equal);
}

#[test]
fn compare_emits_adds_and_withholds_deletes() {
    let mut old_es = SortedEntries::new();
    old_es
        .write_entry(&entry_from(&[("dn", b"cn=gone".as_slice()), ("cn", b"gone".as_slice())]))
        .unwrap();
    let mut new_es = SortedEntries::new();
    new_es
        .write_entry(&entry_from(&[("dn", b"cn=new".as_slice()), ("cn", b"new".as_slice())]))
        .unwrap();
    let params = CompareParams {
        attrs: Vec::new(),
        invert: true,
        force: false,
        defer_attrs: Vec::new(),
    };
    let outcome = compare_entries(&old_es, &new_es, &params);
    let text = String::from_utf8_lossy(outcome.output.as_slice()).to_string();
    assert!(text.contains("changetype: add"));
    assert!(!text.contains("changetype: delete"));
    assert_eq!(outcome.skipped_deletes, vec![b"cn=gone".to_vec()]);

    let params = CompareParams {
        attrs: Vec::new(),
        invert: true,
        force: true,
        defer_attrs: Vec::new(),
    };
    let outcome = compare_entries(&old_es, &new_es, &params);
    let text = String::from_utf8_lossy(outcome.output.as_slice()).to_string();
    assert!(text.contains("changetype: delete"));
}

#[test]
fn compare_modify_record_text() {
    let mut old_es = SortedEntries::new();
    old_es
        .write_entry(&entry_from(&[("dn", b"cn=x".as_slice()), ("cn", b"foo".as_slice())]))
        .unwrap();
    let mut new_es = SortedEntries::new();
    new_es
        .write_entry(&entry_from(&[("dn", b"cn=x".as_slice()), ("cn", b"bar".as_slice())]))
        .unwrap();
    let params = CompareParams {
        attrs: Vec::new(),
        invert: true,
        force: false,
        defer_attrs: Vec::new(),
    };
    let outcome = compare_entries(&old_es, &new_es, &params);
    let text = String::from_utf8_lossy(outcome.output.as_slice()).to_string();
    assert_eq!(
        text,
        "dn: cn=x\nchangetype: modify\nreplace: cn\ncn: bar\n-\n\n"
    );
}

#[test]
fn compare_defers_attribute_changes() {
    // a change to a deferred attribute comes after the ordinary records
    let mut old_es = SortedEntries::new();
    old_es
        .write_entry(&entry_from(&[
            ("dn", b"cn=x".as_slice()),
            ("cn", b"x".as_slice()),
            ("member", b"cn=a".as_slice()),
        ]))
        .unwrap();
    let mut new_es = SortedEntries::new();
    new_es
        .write_entry(&entry_from(&[
            ("dn", b"cn=x".as_slice()),
            ("cn", b"y".as_slice()),
            ("member", b"cn=b".as_slice()),
        ]))
        .unwrap();
    let params = CompareParams {
        attrs: vec![b"member".to_vec()],
        invert: true,
        force: false,
        defer_attrs: vec![b"member".to_vec()],
    };
    let outcome = compare_entries(&old_es, &new_es, &params);
    let text = String::from_utf8_lossy(outcome.output.as_slice()).to_string();
    let cn_at = text.find("replace: cn").unwrap();
    let member_at = text.find("replace: member").unwrap();
    assert!(cn_at < member_at);
}
