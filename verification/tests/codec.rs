use ltools::attrspec::{AttrSpec, ValueFilter};
use ltools::base64::{DecodeWriter, EncodeWriter};
use ltools::cartesian::cartesian_product;
use ltools::loc::StreamError;

#[test]
fn test1() {
    let mut decoder = DecodeWriter::new(Vec::new());
    decoder.write(b"SGVsbG8gd29ybGQ=").unwrap();
    decoder.flush().unwrap();
    assert_eq!(decoder.get_ptr().as_slice(), b"Hello world");
}

#[test]
fn test2() {
    let mut decoder = DecodeWriter::new(Vec::new());
    decoder.write(b"SGVsbG8gd29ybGQh").unwrap();
    decoder.flush().unwrap();
    assert_eq!(decoder.get_ptr().as_slice(), b"Hello world!");
}

#[test]
fn test3() {
    let mut decoder = DecodeWriter::new(Vec::new());
    decoder.write(b"SGVsbG93b3JsZA==").unwrap();
    decoder.flush().unwrap();
    assert_eq!(decoder.get_ptr().as_slice(), b"Helloworld");
}

#[test]
fn test_invalid_data() {
    let mut decoder = DecodeWriter::new(Vec::new());
    let result = decoder.write(b"\r");
    if let Err(error) = result {
        assert_eq!(error, StreamError::Base64Char(0x0D));
    } else {
        panic!("expected error");
    }
}

#[test]
fn test_encode_a() {
    let mut encoder = EncodeWriter::new(Vec::new());
    encoder.write(b"abcd").unwrap();
    encoder.flush().unwrap();
    assert_eq!(encoder.get_ref().as_slice(), b"YWJjZA==");
}

#[test]
fn test_encode_b() {
    let mut encoder = EncodeWriter::new(Vec::new());
    encoder.write(b"12345678").unwrap();
    encoder.flush().unwrap();
    assert_eq!(encoder.get_ref().as_slice(), b"MTIzNDU2Nzg=");
}

#[test]
fn decode_across_splits() {
    let mut decoder = DecodeWriter::new(Vec::new());
    decoder.write(b"SGVs").unwrap();
    decoder.write(b"bG8g").unwrap();
    decoder.write(b"d29ybGQ=").unwrap();
    decoder.flush().unwrap();
    assert_eq!(decoder.get_ptr().as_slice(), b"Hello world");
}

#[test]
fn decode_state_resumes() {
    // one base64 group split between two writer lifetimes
    let mut decoder = DecodeWriter::new(Vec::new());
    decoder.write(b"SG").unwrap();
    let state = decoder.get_state();
    let partial = decoder.into_inner();
    let mut decoder = DecodeWriter::new_with_state(partial, state);
    decoder.write(b"Vs").unwrap();
    decoder.flush().unwrap();
    assert_eq!(decoder.get_ptr().as_slice(), b"Hel");
}

#[test]
fn encode_then_decode_round_trip() {
    let mut encoder = EncodeWriter::new(Vec::new());
    encoder.write(b"any carnal pleasure.").unwrap();
    encoder.flush().unwrap();
    let mut decoder = DecodeWriter::new(Vec::new());
    decoder.write(encoder.get_ref().as_slice()).unwrap();
    decoder.flush().unwrap();
    assert_eq!(decoder.get_ptr().as_slice(), b"any carnal pleasure.");
}

#[test]
fn flush_mid_group_fails() {
    let mut decoder = DecodeWriter::new(Vec::new());
    decoder.write(b"SG").unwrap();
    assert_eq!(decoder.flush(), Err(StreamError::Base64Eof));
}

fn rows(v: &Vec<Vec<i32>>) -> Vec<Vec<i32>> {
    let mut prod = cartesian_product(v);
    let mut out = Vec::new();
    while let Some(ixs) = prod.next() {
        let mut row = Vec::new();
        for (k, ix) in ixs.iter().enumerate() {
            row.push(v[k][*ix]);
        }
        out.push(row);
    }
    out
}

#[test]
fn cartesian_test_a() {
    let v = vec![vec![1, 2, 3], vec![4, 5]];
    assert_eq!(
        rows(&v),
        vec![
            vec![1, 4],
            vec![1, 5],
            vec![2, 4],
            vec![2, 5],
            vec![3, 4],
            vec![3, 5]
        ]
    );
}

#[test]
fn cartesian_test_b() {
    let v = vec![vec![1], vec![], vec![2]];
    let mut prod = cartesian_product(&v);
    assert_eq!(prod.next(), None);
}

#[test]
fn cartesian_test_c() {
    let v = vec![vec![1, 2], vec![3, 4], vec![5, 6]];
    assert_eq!(
        rows(&v),
        vec![
            vec![1, 3, 5],
            vec![1, 3, 6],
            vec![1, 4, 5],
            vec![1, 4, 6],
            vec![2, 3, 5],
            vec![2, 3, 6],
            vec![2, 4, 5],
            vec![2, 4, 6]
        ]
    );
}

#[test]
fn cartesian_test_d() {
    let v: Vec<Vec<i32>> = Vec::new();
    let mut prod = cartesian_product(&v);
    assert_eq!(prod.next(), None);
}

#[test]
fn test_invalid_input() {
    let result = AttrSpec::parse("#");
    assert!(result.is_err());
}

#[test]
fn attrspec_hex_filter() {
    let spec = AttrSpec::parse("guid.hex").unwrap();
    assert_eq!(spec.attribute, b"guid".to_vec());
    let out = spec.filter_values(vec![vec![0x00, 0xab, 0x5f]]);
    assert_eq!(out, vec![b"00ab5f".to_vec()]);
}

#[test]
fn attrspec_base64_filter() {
    let spec = AttrSpec::parse("cn.base64").unwrap();
    let out = spec.filter_values(vec![b"abcd".to_vec()]);
    assert_eq!(out, vec![b"YWJjZA==".to_vec()]);
}

#[test]
fn attrspec_default_value() {
    let spec = AttrSpec::parse("cn:-none").unwrap();
    assert_eq!(spec.attribute_lowercase, b"cn".to_vec());
    let out = spec.filter_values(Vec::new());
    assert_eq!(out, vec![b"none".to_vec()]);
    let kept = spec.filter_values(vec![b"x".to_vec()]);
    assert_eq!(kept, vec![b"x".to_vec()]);
}

#[test]
fn attrspec_case_kept() {
    let spec = AttrSpec::parse("DirXML-State").unwrap();
    assert_eq!(spec.attribute, b"DirXML-State".to_vec());
    assert_eq!(spec.attribute_lowercase, b"dirxml-state".to_vec());
    assert!(matches!(
        AttrSpec::parse("cn.base64"),
        Ok(AttrSpec {
            value_filters: _,
            ..
        })
    ));
    assert!(matches!(
        ValueFilter::Base64,
        ValueFilter::Base64
    ));
}

#[test]
fn attrspec_grammar_rejections() {
    // a filter chain must be exactly .base64 / .hex, optionally ended by :-
    assert!(AttrSpec::parse("cn.b64").is_err());
    assert!(AttrSpec::parse("cn.hexx").is_err());
    assert!(AttrSpec::parse("cn:x").is_err());
    assert!(AttrSpec::parse("cn ").is_err());
    assert!(AttrSpec::parse("2.5.4.3.hex").is_ok());
    assert!(AttrSpec::parse("cn.base64.hex:-d").is_ok());
}
