use ltools::crstrip::CrStripper;
use ltools::loc::{Loc, LocEvents, LocWrite, LocWriteWrapper, WriteLocWrapper};
use ltools::skip::Skipper;
use ltools::unfold::Unfolder;

fn strip(chunks: &[&[u8]]) -> Vec<u8> {
    let mut cs = CrStripper::new(LocWriteWrapper::new(Vec::new()));
    for c in chunks {
        cs.loc_write(Loc::default(), c).unwrap();
    }
    cs.into_inner().into_inner()
}

fn unfold(chunks: &[&[u8]]) -> Vec<u8> {
    let mut uf = Unfolder::new(LocWriteWrapper::new(Vec::new()));
    for c in chunks {
        uf.loc_write(Loc::default(), c).unwrap();
    }
    uf.into_inner().into_inner()
}

#[test]
fn skip_test_a() {
    let mut writes = LocEvents::new();
    let buf: &[u8] = b"abcd";
    let mut skipper = Skipper::new(Loc::new(), buf);
    skipper.shift(&mut writes, buf).unwrap();
    skipper.begin_skip().unwrap();
    skipper.shift(&mut writes, buf).unwrap();
    skipper.end_skip(&mut writes, buf).unwrap();
    skipper.shift(&mut writes, buf).unwrap();
    skipper.shift(&mut writes, buf).unwrap();
    assert_eq!(skipper.lookahead(buf), None);
    let events = writes.into_inner();
    assert_eq!(events.len(), 2);
    assert_eq!(events[0].1, b"a".to_vec());
    assert_eq!(events[1].1, b"cd".to_vec());
}

#[test]
fn skip_test_b() {
    let mut writes = LocEvents::new();
    let buf: &[u8] = b"a\n";
    let mut skipper = Skipper::new(Loc::new(), buf);
    skipper.shift(&mut writes, buf).unwrap();
    skipper.begin_skip().unwrap();
    skipper.shift(&mut writes, buf).unwrap();
    assert_eq!(skipper.lookahead(buf), None);
    let saved_state = skipper.save_state(buf);
    let mut loc = Loc::new();
    for c in buf {
        loc = loc.after(*c);
    }
    let buf2: &[u8] = b" d";
    let mut skipper = Skipper::new_with_state(loc, buf2, saved_state);
    skipper.shift(&mut writes, buf2).unwrap();
    skipper.end_skip(&mut writes, buf2).unwrap();
    skipper.shift(&mut writes, buf2).unwrap();
    assert_eq!(skipper.lookahead(buf2), None);
    let events = writes.into_inner();
    assert_eq!(events.len(), 2);
    assert_eq!(events[0].1, b"a".to_vec());
    assert_eq!(
        events[0].0,
        Loc {
            offset: 0,
            line: 1,
            column: 1
        }
    );
    assert_eq!(events[1].1, b"d".to_vec());
    assert_eq!(
        events[1].0,
        Loc {
            offset: 3,
            line: 2,
            column: 2
        }
    );
}

#[test]
fn skip_test_c() {
    let mut writes = LocEvents::new();
    let buf: &[u8] = b"abc";
    let mut skipper = Skipper::new(Loc::new(), buf);
    skipper.shift(&mut writes, buf).unwrap();
    skipper.begin_skip().unwrap();
    skipper.shift(&mut writes, buf).unwrap();
    skipper.cancel_skip(&mut writes, buf).unwrap();
    skipper.shift(&mut writes, buf).unwrap();
    assert_eq!(skipper.lookahead(buf), None);
    let events = writes.into_inner();
    assert_eq!(events.len(), 1);
    assert_eq!(events[0].1, b"abc".to_vec());
    assert_eq!(
        events[0].0,
        Loc {
            offset: 0,
            line: 1,
            column: 1
        }
    );
}

#[test]
fn skip_test_d() {
    let mut writes = LocEvents::new();
    let buf: &[u8] = b"ab";
    let mut skipper = Skipper::new(Loc::new(), buf);
    skipper.shift(&mut writes, buf).unwrap();
    skipper.begin_skip().unwrap();
    skipper.shift(&mut writes, buf).unwrap();
    assert_eq!(skipper.lookahead(buf), None);
    let saved_state = skipper.save_state(buf);
    let mut loc = Loc::new();
    for c in buf {
        loc = loc.after(*c);
    }
    let buf2: &[u8] = b"cd";
    let mut skipper = Skipper::new_with_state(loc, buf2, saved_state);
    skipper.shift(&mut writes, buf2).unwrap();
    skipper.cancel_skip(&mut writes, buf2).unwrap();
    skipper.shift(&mut writes, buf2).unwrap();
    assert_eq!(skipper.lookahead(buf2), None);
    let events = writes.into_inner();
    assert_eq!(events.len(), 3);
    assert_eq!(events[0].1, b"a".to_vec());
    assert_eq!(
        events[0].0,
        Loc {
            offset: 0,
            line: 1,
            column: 1
        }
    );
    assert_eq!(events[1].1, b"b".to_vec());
    assert_eq!(
        events[1].0,
        Loc {
            offset: 1,
            line: 1,
            column: 2
        }
    );
    assert_eq!(events[2].1, b"cd".to_vec());
    assert_eq!(
        events[2].0,
        Loc {
            offset: 2,
            line: 1,
            column: 3
        }
    );
}

#[test]
fn crstrip_test_a() {
    assert_eq!(strip(&[b"foo\r\nbar"]), b"foo\nbar".to_vec());
}

#[test]
fn crstrip_test_b() {
    assert_eq!(strip(&[b"foo\r", b"\nbar"]), b"foo\nbar".to_vec());
}

#[test]
fn crstrip_test_c() {
    assert_eq!(strip(&[b"foo\r\r\nbar"]), b"foo\r\nbar".to_vec());
}

#[test]
fn crstrip_test_d() {
    assert_eq!(strip(&[b"foo\r\rbar"]), b"foo\r\rbar".to_vec());
}

#[test]
fn crstrip_test_e() {
    assert_eq!(strip(&[b"a\r", b"", b"\nb"]), b"a\nb".to_vec());
}

#[test]
fn unfold_test_a() {
    assert_eq!(unfold(&[b"foo\n bar"]), b"foobar".to_vec());
}

#[test]
fn unfold_test_b() {
    assert_eq!(unfold(&[b"foo\n ", b"bar"]), b"foobar".to_vec());
}

#[test]
fn unfold_test_c() {
    assert_eq!(unfold(&[b"foo\n", b" bar"]), b"foobar".to_vec());
}

#[test]
fn unfold_test_d() {
    assert_eq!(unfold(&[b"foo", b"\n bar"]), b"foobar".to_vec());
}

#[test]
fn unfold_test_e() {
    assert_eq!(unfold(&[b"foo\n", b"bar"]), b"foo\nbar".to_vec());
}

#[test]
fn test_f() {
    assert_eq!(unfold(&[b"foo\n", b"\nbar"]), b"foo\n\nbar".to_vec());
}

#[test]
fn test_g() {
    assert_eq!(unfold(&[b"a\n b\n", b" c"]), b"abc".to_vec());
}

#[test]
fn test_h() {
    assert_eq!(unfold(&[b"a\n", b"", b" b"]), b"ab".to_vec());
}

#[test]
fn test_i() {
    assert_eq!(unfold(&[b"\n foo"]), b"foo".to_vec());
}

#[test]
fn test_loc() {
    let mut unfolder = Unfolder::new(LocEvents::new());
    unfolder.loc_write(Loc::default(), b"a\n b").unwrap();
    let events = unfolder.into_inner().into_inner();
    assert_eq!(events[0].1, b"a".to_vec());
    assert_eq!(
        events[0].0,
        Loc {
            line: 1,
            column: 1,
            offset: 0
        }
    );
    assert_eq!(events[1].1, b"b".to_vec());
    assert_eq!(
        events[1].0,
        Loc {
            line: 2,
            column: 2,
            offset: 3
        }
    );
}

#[test]
fn test_flush() {
    let unfolder = Unfolder::new(LocWriteWrapper::new(Vec::new()));
    let mut writer = WriteLocWrapper::new(unfolder);
    writer.write(b"foo\n").unwrap();
    writer.flush().unwrap();
    let buf = writer.into_inner().into_inner().into_inner();
    assert_eq!(buf, b"foo\n".to_vec());
}

#[test]
fn unfold_then_strip_scenario() {
    // a CR LF fold across the two stages: the continuation space vanishes
    // and the second byte keeps its original position
    let unfolder = Unfolder::new(LocEvents::new());
    let mut cs = CrStripper::new(unfolder);
    let mut writer = WriteLocWrapper::new(cs);
    writer.write(b"a\r\n b\r\n\r\nc").unwrap();
    cs = writer.into_inner();
    let events = cs.into_inner().into_inner().into_inner();
    let mut bytes = Vec::new();
    for (_, chunk) in &events {
        bytes.extend_from_slice(chunk);
    }
    assert_eq!(bytes, b"ab\n\nc".to_vec());
    let b_event = events
        .iter()
        .find(|(_, chunk)| chunk.starts_with(b"b"))
        .unwrap();
    assert_eq!(b_event.0.line, 2);
    assert_eq!(b_event.0.column, 2);
}

#[test]
fn unfold_rejects_space_after_blank_line() {
    // a continuation space where no line is open is an error
    let mut uf = Unfolder::new(LocWriteWrapper::new(Vec::new()));
    assert!(uf.loc_write(Loc::default(), b"a\n\n x").is_err());
}

#[test]
fn loc_advances_per_byte() {
    let l = Loc::new();
    let l = l.after(b'a');
    assert_eq!(l, Loc { line: 1, column: 2, offset: 1 });
    let l = l.after(b'\n');
    assert_eq!(l, Loc { line: 2, column: 1, offset: 2 });
}
