use vstd::prelude::*;

use crate::attrspec::hex_digit;
use crate::loc::StreamError;

verus! {

/// Must this byte be escaped in an LDAP distinguished-name component?
pub open spec fn needs_escape(c: u8) -> bool {
    c >= 0x80u8 || c == 0x5cu8 || c == 0x2au8 || c == 0x28u8 || c == 0x29u8 || c == 0x3au8 || c
        == 0x00u8
}

/// The escaped form of one byte: a backslash and two lowercase hex digits,
/// or the byte itself.
pub open spec fn escape_byte(c: u8) -> Seq<u8> {
    if needs_escape(c) {
        seq![0x5cu8, hex_digit(c / 16), hex_digit((c % 16) as u8)]
    } else {
        seq![c]
    }
}

/// The whole input escaped.
pub open spec fn escape_bytes(s: Seq<u8>) -> Seq<u8>
    decreases s.len(),
{
    if s.len() == 0 {
        Seq::empty()
    } else {
        escape_byte(s[0]) + escape_bytes(s.drop_first())
    }
}

/// Appends the input with every special or non-ASCII byte replaced by a
/// backslash escape of two lowercase hex digits.
pub fn lescape(dest: &mut Vec<u8>, buf: &[u8]) -> (r: Result<usize, StreamError>)
    ensures
        r == Ok::<usize, StreamError>(buf@.len() as usize),
        final(dest)@ == old(dest)@ + escape_bytes(buf@),
{
    let mut i: usize = 0;
    proof {
        assert(buf@.skip(0) =~= buf@);
        assert(dest@ + escape_bytes(buf@.skip(0)) =~= old(dest)@ + escape_bytes(buf@));
    }
    while i < buf.len()
        invariant
            i <= buf@.len(),
            dest@ + escape_bytes(buf@.skip(i as int)) == old(dest)@ + escape_bytes(buf@),
        decreases buf@.len() - i,
    {
        let c = buf[i];
        let ghost pre = dest@;
        let ghost sfx = buf@.skip(i as int);
        proof {
            assert(sfx[0] == buf@[i as int]);
            assert(sfx.drop_first() =~= buf@.skip(i as int + 1));
        }
        if c >= 0x80u8 || c == 0x5cu8 || c == 0x2au8 || c == 0x28u8 || c == 0x29u8 || c == 0x3au8
            || c == 0x00u8 {
            let hi = c / 16;
            let lo = c % 16;
            dest.push(0x5c);
            dest.push(
                if hi < 10 {
                    0x30u8 + hi
                } else {
                    0x61u8 + (hi - 10)
                },
            );
            dest.push(
                if lo < 10 {
                    0x30u8 + lo
                } else {
                    0x61u8 + (lo - 10)
                },
            );
        } else {
            dest.push(c);
        }
        proof {
            assert(dest@ + escape_bytes(buf@.skip(i as int + 1)) =~= pre + escape_bytes(sfx));
        }
        i = i + 1;
    }
    proof {
        assert(buf@.skip(buf@.len() as int) =~= Seq::<u8>::empty());
        assert(escape_bytes(buf@.skip(buf@.len() as int)) =~= Seq::<u8>::empty());
        assert(dest@ =~= old(dest)@ + escape_bytes(buf@));
    }
    Ok(buf.len())
}

/// Escapes a byte stream into an owned buffer.
pub struct LEscaper {
    pub dest: Vec<u8>,
}

impl LEscaper {
    pub fn new(dest: Vec<u8>) -> (r: LEscaper)
        ensures
            r.dest@ == dest@,
    {
        LEscaper { dest }
    }

    pub fn write(&mut self, buf: &[u8]) -> (r: Result<usize, StreamError>)
        ensures
            r == Ok::<usize, StreamError>(buf@.len() as usize),
            final(self).dest@ == old(self).dest@ + escape_bytes(buf@),
    {
        lescape(&mut self.dest, buf)
    }

    pub fn into_inner(self) -> (r: Vec<u8>)
        ensures
            r@ == self.dest@,
    {
        self.dest
    }
}

/// The unescaper's position inside an escape sequence.
#[derive(Eq, PartialEq, Structural, Copy, Clone, Debug)]
pub enum LUnescaperState {
    Normal,
    Backslash,
    FirstDigit(u8),
}

/// Is the byte a hex digit?
pub open spec fn is_hex_digit(c: u8) -> bool {
    (0x30u8 <= c <= 0x39u8) || (0x61u8 <= c <= 0x66u8) || (0x41u8 <= c <= 0x46u8)
}

/// The four bits a hex digit stands for.
pub open spec fn hex_bits(c: u8) -> u8 {
    if 0x30u8 <= c <= 0x39u8 {
        (c - 0x30u8) as u8
    } else if 0x61u8 <= c <= 0x66u8 {
        (c - 0x61u8 + 10) as u8
    } else {
        (c - 0x41u8 + 10) as u8
    }
}

/// The four bits a hex digit stands for.
pub fn hexdigit_to_lower_bits(digit: u8) -> (r: u8)
    requires
        is_hex_digit(digit),
    ensures
        r == hex_bits(digit),
{
    if 0x30u8 <= digit && digit <= 0x39u8 {
        digit - 0x30u8
    } else if 0x61u8 <= digit && digit <= 0x66u8 {
        digit - 0x61u8 + 10
    } else {
        digit - 0x41u8 + 10
    }
}

/// One unescaper step: the next state and what is emitted, or the
/// offending byte.
pub open spec fn unesc_step(st: LUnescaperState, c: u8) -> Option<(LUnescaperState, Seq<u8>)> {
    match st {
        LUnescaperState::Normal => if c == 0x5cu8 {
            Some((LUnescaperState::Backslash, Seq::empty()))
        } else {
            Some((LUnescaperState::Normal, seq![c]))
        },
        LUnescaperState::Backslash => if is_hex_digit(c) {
            Some((LUnescaperState::FirstDigit(c), Seq::empty()))
        } else {
            None
        },
        LUnescaperState::FirstDigit(d1) => if is_hex_digit(c) {
            Some(
                (
                    LUnescaperState::Normal,
                    seq![(((hex_bits(d1) as u8) << 4) | hex_bits(c)) as u8],
                ),
            )
        } else {
            None
        },
    }
}

/// The unescaper run over a byte sequence: final state and emissions, or
/// the first offending byte.
pub open spec fn unesc_run(st: LUnescaperState, s: Seq<u8>) -> Result<
    (LUnescaperState, Seq<u8>),
    u8,
>
    decreases s.len(),
{
    if s.len() == 0 {
        Ok((st, Seq::empty()))
    } else {
        match unesc_step(st, s[0]) {
            Option::None => Err(s[0]),
            Option::Some((st2, em)) => match unesc_run(st2, s.drop_first()) {
                Ok((st3, em2)) => Ok((st3, em + em2)),
                Err(e) => Err(e),
            },
        }
    }
}

/// Reverses the escaping: a backslash followed by two hex digits becomes
/// one byte; anything else passes through. Fails on a non-hex digit after
/// a backslash.
pub struct LUnescaper {
    pub dest: Vec<u8>,
    pub state: LUnescaperState,
}

impl LUnescaper {
    /// A pending first digit always is a hex digit.
    pub open spec fn inv(&self) -> bool {
        match self.state {
            LUnescaperState::FirstDigit(d) => is_hex_digit(d),
            _ => true,
        }
    }

    pub fn new(dest: Vec<u8>) -> (r: LUnescaper)
        ensures
            r.dest@ == dest@,
            r.state is Normal,
            r.inv(),
    {
        LUnescaper { dest, state: LUnescaperState::Normal }
    }

    pub fn into_inner(self) -> (r: Vec<u8>)
        ensures
            r@ == self.dest@,
    {
        self.dest
    }

    pub fn write(&mut self, buf: &[u8]) -> (r: Result<usize, StreamError>)
        requires
            old(self).inv(),
        ensures
            final(self).inv(),
            (match unesc_run(old(self).state, buf@) {
                Ok((st2, em)) => r == Ok::<usize, StreamError>(buf@.len() as usize)
                    && final(self).state == st2
                    && final(self).dest@ == old(self).dest@ + em,
                Err(c) => r is Err,
            }),
    {
        let ghost pre = *self;
        proof {
            assert(buf@.take(0) =~= Seq::<u8>::empty());
            assert(self.dest@.skip(pre.dest@.len() as int) =~= Seq::<u8>::empty());
            assert(self.dest@.take(pre.dest@.len() as int) =~= pre.dest@);
        }
        let mut i: usize = 0;
        while i < buf.len()
            invariant
                i <= buf@.len(),
                pre == *old(self),
                pre.inv(),
                self.inv(),
                unesc_run(pre.state, buf@.take(i as int)) == Ok::<(LUnescaperState, Seq<u8>), u8>(
                    (self.state, self.dest@.skip(pre.dest@.len() as int)),
                ),
                self.dest@.len() >= pre.dest@.len(),
                self.dest@.take(pre.dest@.len() as int) == pre.dest@,
            decreases buf@.len() - i,
        {
            let ghost mid = self.state;
            let ghost emso = self.dest@.skip(pre.dest@.len() as int);
            proof {
                lemma_unesc_append(pre.state, buf@.take(i as int), seq![buf@[i as int]]);
                assert(buf@.take(i as int) + seq![buf@[i as int]] =~= buf@.take(i as int + 1));
                assert(seq![buf@[i as int]].drop_first() =~= Seq::<u8>::empty());
                assert(seq![buf@[i as int]][0] == buf@[i as int]);
                match unesc_step(mid, buf@[i as int]) {
                    Option::Some((st2, em)) => {
                        assert(unesc_run(st2, seq![buf@[i as int]].drop_first()) == Ok::<
                            (LUnescaperState, Seq<u8>),
                            u8,
                        >((st2, Seq::empty())));
                        assert(em + Seq::<u8>::empty() =~= em);
                    },
                    Option::None => {},
                }
            }
            let c = buf[i];
            match self.state {
                LUnescaperState::Normal => {
                    if c == 0x5cu8 {
                        self.state = LUnescaperState::Backslash;
                    } else {
                        self.dest.push(c);
                        proof {
                            assert(self.dest@.skip(pre.dest@.len() as int) =~= emso.push(c));
                            assert(emso.push(c) =~= emso + seq![c]);
                            assert(self.dest@.take(pre.dest@.len() as int) =~= pre.dest@);
                        }
                    }
                },
                LUnescaperState::Backslash => {
                    if (0x30u8 <= c && c <= 0x39u8) || (0x61u8 <= c && c <= 0x66u8) || (0x41u8 <= c
                        && c <= 0x46u8) {
                        self.state = LUnescaperState::FirstDigit(c);
                    } else {
                        proof {
                            lemma_unesc_append(pre.state, buf@.take(i as int), buf@.skip(i as int));
                            assert(buf@.take(i as int) + buf@.skip(i as int) =~= buf@);
                            assert(buf@.skip(i as int)[0] == buf@[i as int]);
                        }
                        return Err(
                            StreamError::UnexpectedChar(
                                crate::loc::Loc { line: 1, column: 1, offset: 0 },
                            ),
                        );
                    }
                },
                LUnescaperState::FirstDigit(d1) => {
                    if (0x30u8 <= c && c <= 0x39u8) || (0x61u8 <= c && c <= 0x66u8) || (0x41u8 <= c
                        && c <= 0x46u8) {
                        let byte = (hexdigit_to_lower_bits(d1) << 4u8) | hexdigit_to_lower_bits(c);
                        self.dest.push(byte);
                        self.state = LUnescaperState::Normal;
                        proof {
                            assert(self.dest@.skip(pre.dest@.len() as int) =~= emso.push(byte));
                            assert(emso.push(byte) =~= emso + seq![byte]);
                            assert(self.dest@.take(pre.dest@.len() as int) =~= pre.dest@);
                        }
                    } else {
                        proof {
                            lemma_unesc_append(pre.state, buf@.take(i as int), buf@.skip(i as int));
                            assert(buf@.take(i as int) + buf@.skip(i as int) =~= buf@);
                            assert(buf@.skip(i as int)[0] == buf@[i as int]);
                        }
                        return Err(
                            StreamError::UnexpectedChar(
                                crate::loc::Loc { line: 1, column: 1, offset: 0 },
                            ),
                        );
                    }
                },
            }
            i = i + 1;
        }
        proof {
            assert(buf@.take(buf@.len() as int) =~= buf@);
        }
        Ok(buf.len())
    }
}

/// Chunk composition of the unescaper.
pub proof fn lemma_unesc_append(st: LUnescaperState, a: Seq<u8>, b: Seq<u8>)
    ensures
        unesc_run(st, a + b) == (match unesc_run(st, a) {
            Ok((st2, em)) => match unesc_run(st2, b) {
                Ok((st3, em2)) => Ok::<(LUnescaperState, Seq<u8>), u8>((st3, em + em2)),
                Err(e) => Err(e),
            },
            Err(e) => Err(e),
        }),
    decreases a.len(),
{
    if a.len() == 0 {
        assert(a + b =~= b);
        match unesc_run(st, b) {
            Ok((st3, em2)) => {
                assert(Seq::<u8>::empty() + em2 =~= em2);
            },
            Err(_) => {},
        }
    } else {
        match unesc_step(st, a[0]) {
            Option::None => {
                assert((a + b)[0] == a[0]);
            },
            Option::Some((st2, em)) => {
                lemma_unesc_append(st2, a.drop_first(), b);
                assert((a + b).drop_first() =~= a.drop_first() + b);
                assert((a + b)[0] == a[0]);
                match unesc_run(st2, a.drop_first()) {
                    Ok((st3, em2)) => {
                        match unesc_run(st3, b) {
                            Ok((st4, em3)) => {
                                assert(em + (em2 + em3) =~= (em + em2) + em3);
                            },
                            Err(_) => {},
                        }
                    },
                    Err(_) => {},
                }
            },
        }
    }
}

} // verus!
