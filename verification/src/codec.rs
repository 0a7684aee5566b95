//! The textual encoding used by the log file.
//!
//! Each admitted hash is persisted as one line: the hash bytes written in the
//! standard base64 alphabet, without padding. Decoding is strict: a line is
//! accepted only if it is exactly the encoding of some byte string, so
//! encoding and decoding round-trip losslessly.

use vstd::prelude::*;

verus! {

/// The base64 alphabet: maps a sextet (a value below 64) to its ASCII digit.
pub open spec fn b64_char(s: u8) -> u8 {
    if s < 26 {
        (s + 65) as u8  // 'A'..='Z'

    } else if s < 52 {
        (s + 71) as u8  // 'a'..='z'

    } else if s < 62 {
        (s - 4) as u8  // '0'..='9'

    } else if s == 62 {
        43u8  // '+'

    } else {
        47u8  // '/'

    }
}

/// Inverse of the alphabet: the sextet a given ASCII byte stands for, if any.
pub open spec fn sextet_of(c: u8) -> Option<u8> {
    if 65 <= c && c <= 90 {
        Some((c - 65) as u8)
    } else if 97 <= c && c <= 122 {
        Some((c - 71) as u8)
    } else if 48 <= c && c <= 57 {
        Some((c + 4) as u8)
    } else if c == 43 {
        Some(62u8)
    } else if c == 47 {
        Some(63u8)
    } else {
        None
    }
}

/// Encoding of a byte string: groups of three bytes become four digits; a
/// final group of one or two bytes becomes two or three digits, unpadded.
pub open spec fn encode_b64(bytes: Seq<u8>) -> Seq<u8>
    decreases bytes.len(),
{
    if bytes.len() >= 3 {
        let a: u8 = bytes[0];
        let b: u8 = bytes[1];
        let c: u8 = bytes[2];
        seq![
            b64_char(a >> 2u8),
            b64_char(((a & 3) << 4u8) | (b >> 4u8)),
            b64_char(((b & 15) << 2u8) | (c >> 6u8)),
            b64_char(c & 63),
        ] + encode_b64(bytes.skip(3))
    } else if bytes.len() == 2 {
        let a: u8 = bytes[0];
        let b: u8 = bytes[1];
        seq![
            b64_char(a >> 2u8),
            b64_char(((a & 3) << 4u8) | (b >> 4u8)),
            b64_char((b & 15) << 2u8),
        ]
    } else if bytes.len() == 1 {
        let a: u8 = bytes[0];
        seq![b64_char(a >> 2u8), b64_char((a & 3) << 4u8)]
    } else {
        Seq::<u8>::empty()
    }
}

/// Strict decoding: `Some` exactly on the lines `encode_b64` produces, and
/// then the original bytes. Unused trailing bits must be zero.
pub open spec fn decode_b64(line: Seq<u8>) -> Option<Seq<u8>>
    decreases line.len(),
{
    if line.len() == 0 {
        Some(Seq::<u8>::empty())
    } else if line.len() == 1 {
        None
    } else if line.len() == 2 {
        if sextet_of(line[0]) is Some && sextet_of(line[1]) is Some {
            let s0: u8 = sextet_of(line[0]).unwrap();
            let s1: u8 = sextet_of(line[1]).unwrap();
            if s1 & 15 == 0 {
                Some(seq![(s0 << 2u8) | (s1 >> 4u8)])
            } else {
                None
            }
        } else {
            None
        }
    } else if line.len() == 3 {
        if sextet_of(line[0]) is Some && sextet_of(line[1]) is Some && sextet_of(line[2]) is Some {
            let s0: u8 = sextet_of(line[0]).unwrap();
            let s1: u8 = sextet_of(line[1]).unwrap();
            let s2: u8 = sextet_of(line[2]).unwrap();
            if s2 & 3 == 0 {
                Some(seq![(s0 << 2u8) | (s1 >> 4u8), ((s1 & 15) << 4u8) | (s2 >> 2u8)])
            } else {
                None
            }
        } else {
            None
        }
    } else {
        if sextet_of(line[0]) is Some && sextet_of(line[1]) is Some && sextet_of(line[2]) is Some
            && sextet_of(line[3]) is Some {
            let s0: u8 = sextet_of(line[0]).unwrap();
            let s1: u8 = sextet_of(line[1]).unwrap();
            let s2: u8 = sextet_of(line[2]).unwrap();
            let s3: u8 = sextet_of(line[3]).unwrap();
            match decode_b64(line.skip(4)) {
                Some(rest) => Some(
                    seq![
                        (s0 << 2u8) | (s1 >> 4u8),
                        ((s1 & 15) << 4u8) | (s2 >> 2u8),
                        ((s2 & 3) << 6u8) | s3,
                    ] + rest,
                ),
                None => None,
            }
        } else {
            None
        }
    }
}

/// The alphabet and its inverse agree on every sextet.
proof fn lemma_sextet_roundtrip(s: u8)
    requires
        s < 64,
    ensures
        sextet_of(b64_char(s)) == Some(s),
{
}

proof fn lemma_chunk3(a: u8, b: u8, c: u8)
    ensures
        (a >> 2u8) < 64,
        (((a & 3) << 4u8) | (b >> 4u8)) < 64,
        (((b & 15) << 2u8) | (c >> 6u8)) < 64,
        (c & 63) < 64,
        (((a >> 2u8) << 2u8) | ((((a & 3) << 4u8) | (b >> 4u8)) >> 4u8)) == a,
        ((((((a & 3) << 4u8) | (b >> 4u8)) & 15) << 4u8) | (((((b & 15) << 2u8) | (c >> 6u8)))
            >> 2u8)) == b,
        ((((((b & 15) << 2u8) | (c >> 6u8)) & 3) << 6u8) | (c & 63)) == c,
{
    assert((a >> 2u8) < 64 && (((a & 3) << 4u8) | (b >> 4u8)) < 64 && (((b & 15) << 2u8) | (c
        >> 6u8)) < 64 && (c & 63) < 64 && (((a >> 2u8) << 2u8) | ((((a & 3) << 4u8) | (b >> 4u8))
        >> 4u8)) == a && ((((((a & 3) << 4u8) | (b >> 4u8)) & 15) << 4u8) | (((((b & 15) << 2u8) | (
    c >> 6u8))) >> 2u8)) == b && ((((((b & 15) << 2u8) | (c >> 6u8)) & 3) << 6u8) | (c & 63)) == c)
        by (bit_vector);
}

proof fn lemma_chunk2(a: u8, b: u8)
    ensures
        (a >> 2u8) < 64,
        (((a & 3) << 4u8) | (b >> 4u8)) < 64,
        ((b & 15) << 2u8) < 64,
        (((b & 15) << 2u8) & 3) == 0,
        (((a >> 2u8) << 2u8) | ((((a & 3) << 4u8) | (b >> 4u8)) >> 4u8)) == a,
        ((((((a & 3) << 4u8) | (b >> 4u8)) & 15) << 4u8) | (((b & 15) << 2u8) >> 2u8)) == b,
{
    assert((a >> 2u8) < 64 && (((a & 3) << 4u8) | (b >> 4u8)) < 64 && ((b & 15) << 2u8) < 64 && (((
    b & 15) << 2u8) & 3) == 0 && (((a >> 2u8) << 2u8) | ((((a & 3) << 4u8) | (b >> 4u8)) >> 4u8))
        == a && ((((((a & 3) << 4u8) | (b >> 4u8)) & 15) << 4u8) | (((b & 15) << 2u8) >> 2u8)) == b)
        by (bit_vector);
}

proof fn lemma_chunk1(a: u8)
    ensures
        (a >> 2u8) < 64,
        ((a & 3) << 4u8) < 64,
        (((a & 3) << 4u8) & 15) == 0,
        (((a >> 2u8) << 2u8) | (((a & 3) << 4u8) >> 4u8)) == a,
{
    assert((a >> 2u8) < 64 && ((a & 3) << 4u8) < 64 && (((a & 3) << 4u8) & 15) == 0 && (((a >> 2u8)
        << 2u8) | (((a & 3) << 4u8) >> 4u8)) == a) by (bit_vector);
}

/// The encoding of a nonempty byte string is a nonempty line.
proof fn lemma_encode_nonempty(bytes: Seq<u8>)
    requires
        bytes.len() > 0,
    ensures
        encode_b64(bytes).len() >= 2,
{
}

/// Decoding inverts encoding: every byte string is recovered exactly from
/// its log line.
pub proof fn lemma_decode_encode(bytes: Seq<u8>)
    ensures
        decode_b64(encode_b64(bytes)) == Some(bytes),
    decreases bytes.len(),
{
    let line = encode_b64(bytes);
    if bytes.len() == 0 {
        assert(bytes =~= Seq::<u8>::empty());
    } else if bytes.len() == 1 {
        let a: u8 = bytes[0];
        lemma_chunk1(a);
        lemma_sextet_roundtrip(a >> 2u8);
        lemma_sextet_roundtrip((a & 3) << 4u8);
        assert(decode_b64(line).unwrap() =~= bytes);
    } else if bytes.len() == 2 {
        let a: u8 = bytes[0];
        let b: u8 = bytes[1];
        lemma_chunk2(a, b);
        lemma_sextet_roundtrip(a >> 2u8);
        lemma_sextet_roundtrip(((a & 3) << 4u8) | (b >> 4u8));
        lemma_sextet_roundtrip((b & 15) << 2u8);
        assert(decode_b64(line).unwrap() =~= bytes);
    } else {
        let a: u8 = bytes[0];
        let b: u8 = bytes[1];
        let c: u8 = bytes[2];
        let rest = bytes.skip(3);
        lemma_chunk3(a, b, c);
        lemma_sextet_roundtrip(a >> 2u8);
        lemma_sextet_roundtrip(((a & 3) << 4u8) | (b >> 4u8));
        lemma_sextet_roundtrip(((b & 15) << 2u8) | (c >> 6u8));
        lemma_sextet_roundtrip(c & 63);
        lemma_decode_encode(rest);
        let head = seq![
            b64_char(a >> 2u8),
            b64_char(((a & 3) << 4u8) | (b >> 4u8)),
            b64_char(((b & 15) << 2u8) | (c >> 6u8)),
            b64_char(c & 63),
        ];
        assert(line =~= head + encode_b64(rest));
        assert(line.len() >= 4);
        assert(line.skip(4) =~= encode_b64(rest));
        assert(decode_b64(line.skip(4)) == Some(rest));
        assert(decode_b64(line).unwrap() =~= bytes);
    }
}

/// A well-formed log line: nonempty and exactly the encoding of some bytes.
pub open spec fn line_ok(line: Seq<u8>) -> bool {
    line.len() > 0 && decode_b64(line) is Some
}

/// The hashes a log file yields at startup: malformed lines are skipped
/// individually, well-formed lines load in order.
pub open spec fn loaded_hashes(lines: Seq<Seq<u8>>) -> Seq<Seq<u8>>
    decreases lines.len(),
{
    if lines.len() == 0 {
        Seq::<Seq<u8>>::empty()
    } else {
        let pre = loaded_hashes(lines.drop_last());
        if line_ok(lines.last()) {
            pre.push(decode_b64(lines.last()).unwrap())
        } else {
            pre
        }
    }
}

/// A nonempty well-formed line decodes to a nonempty hash.
pub proof fn lemma_decode_nonempty(line: Seq<u8>)
    requires
        line.len() > 0,
        decode_b64(line) is Some,
    ensures
        decode_b64(line).unwrap().len() > 0,
{
}

/// Rebuild and reload agree: writing one line per hash and loading those
/// lines back yields exactly the same hashes, in order.
pub proof fn lemma_reload_exact(hs: Seq<Seq<u8>>)
    requires
        forall|k: int| 0 <= k < hs.len() ==> hs[k].len() > 0,
    ensures
        loaded_hashes(hs.map_values(|b: Seq<u8>| encode_b64(b))) == hs,
    decreases hs.len(),
{
    let m = hs.map_values(|b: Seq<u8>| encode_b64(b));
    if hs.len() == 0 {
        assert(loaded_hashes(m) =~= hs);
    } else {
        let pre = hs.drop_last();
        lemma_reload_exact(pre);
        assert(m.drop_last() =~= pre.map_values(|b: Seq<u8>| encode_b64(b)));
        lemma_decode_encode(hs.last());
        lemma_encode_nonempty(hs.last());
        assert(m.last() == encode_b64(hs.last()));
        assert(line_ok(m.last()));
        assert(loaded_hashes(m) =~= hs);
    }
}

fn b64_digit(s: u8) -> (c: u8)
    ensures
        c == b64_char(s),
{
    if s < 26 {
        s + 65
    } else if s < 52 {
        s + 71
    } else if s < 62 {
        s - 4
    } else if s == 62 {
        43
    } else {
        47
    }
}

fn sextet(c: u8) -> (r: Option<u8>)
    ensures
        r == sextet_of(c),
{
    if 65 <= c && c <= 90 {
        Some(c - 65)
    } else if 97 <= c && c <= 122 {
        Some(c - 71)
    } else if 48 <= c && c <= 57 {
        Some(c + 4)
    } else if c == 43 {
        Some(62)
    } else if c == 47 {
        Some(63)
    } else {
        None
    }
}

fn encode_from(bytes: &Vec<u8>, i: usize) -> (line: Vec<u8>)
    requires
        i <= bytes.len(),
    ensures
        line@ == encode_b64(bytes@.skip(i as int)),
    decreases bytes.len() - i,
{
    let n: usize = bytes.len() - i;
    let ghost s = bytes@.skip(i as int);
    if n >= 3 {
        let a: u8 = bytes[i];
        let b: u8 = bytes[i + 1];
        let c: u8 = bytes[i + 2];
        proof {
            assert(s[0] == a && s[1] == b && s[2] == c);
            assert(s.skip(3) =~= bytes@.skip(i as int + 3));
        }
        let mut line: Vec<u8> = Vec::new();
        line.push(b64_digit(a >> 2u8));
        line.push(b64_digit(((a & 3) << 4u8) | (b >> 4u8)));
        line.push(b64_digit(((b & 15) << 2u8) | (c >> 6u8)));
        line.push(b64_digit(c & 63));
        let mut rest = encode_from(bytes, i + 3);
        line.append(&mut rest);
        proof {
            assert(line@ =~= encode_b64(s));
        }
        line
    } else if n == 2 {
        let a: u8 = bytes[i];
        let b: u8 = bytes[i + 1];
        proof {
            assert(s[0] == a && s[1] == b);
        }
        let mut line: Vec<u8> = Vec::new();
        line.push(b64_digit(a >> 2u8));
        line.push(b64_digit(((a & 3) << 4u8) | (b >> 4u8)));
        line.push(b64_digit((b & 15) << 2u8));
        proof {
            assert(line@ =~= encode_b64(s));
        }
        line
    } else if n == 1 {
        let a: u8 = bytes[i];
        proof {
            assert(s[0] == a);
        }
        let mut line: Vec<u8> = Vec::new();
        line.push(b64_digit(a >> 2u8));
        line.push(b64_digit((a & 3) << 4u8));
        proof {
            assert(line@ =~= encode_b64(s));
        }
        line
    } else {
        let line: Vec<u8> = Vec::new();
        proof {
            assert(line@ =~= encode_b64(s));
        }
        line
    }
}

/// Produce the log line for one hash, given as its raw bytes.
pub fn encode_line(bytes: &Vec<u8>) -> (line: Vec<u8>)
    ensures
        line@ == encode_b64(bytes@),
{
    let line = encode_from(bytes, 0);
    proof {
        assert(bytes@.skip(0) =~= bytes@);
    }
    line
}

fn decode_from(line: &Vec<u8>, i: usize) -> (r: Option<Vec<u8>>)
    requires
        i <= line.len(),
    ensures
        match r {
            Some(v) => decode_b64(line@.skip(i as int)) == Some(v@),
            None => decode_b64(line@.skip(i as int)) is None,
        },
    decreases line.len() - i,
{
    let n: usize = line.len() - i;
    let ghost s = line@.skip(i as int);
    if n == 0 {
        let v: Vec<u8> = Vec::new();
        proof {
            assert(decode_b64(s) == Some(v@)) by {
                assert(v@ =~= Seq::<u8>::empty());
            }
        }
        Some(v)
    } else if n == 1 {
        None
    } else if n == 2 {
        proof {
            assert(s[0] == line@[i as int] && s[1] == line@[i as int + 1]);
        }
        let s0: u8 = match sextet(line[i]) {
            Some(x) => x,
            None => {
                return None;
            },
        };
        let s1: u8 = match sextet(line[i + 1]) {
            Some(x) => x,
            None => {
                return None;
            },
        };
        if s1 & 15 == 0 {
            let mut v: Vec<u8> = Vec::new();
            v.push((s0 << 2u8) | (s1 >> 4u8));
            proof {
                assert(v@ =~= decode_b64(s).unwrap());
            }
            Some(v)
        } else {
            None
        }
    } else if n == 3 {
        proof {
            assert(s[0] == line@[i as int] && s[1] == line@[i as int + 1] && s[2] == line@[i as int
                + 2]);
        }
        let s0: u8 = match sextet(line[i]) {
            Some(x) => x,
            None => {
                return None;
            },
        };
        let s1: u8 = match sextet(line[i + 1]) {
            Some(x) => x,
            None => {
                return None;
            },
        };
        let s2: u8 = match sextet(line[i + 2]) {
            Some(x) => x,
            None => {
                return None;
            },
        };
        if s2 & 3 == 0 {
            let mut v: Vec<u8> = Vec::new();
            v.push((s0 << 2u8) | (s1 >> 4u8));
            v.push(((s1 & 15) << 4u8) | (s2 >> 2u8));
            proof {
                assert(v@ =~= decode_b64(s).unwrap());
            }
            Some(v)
        } else {
            None
        }
    } else {
        proof {
            assert(s[0] == line@[i as int] && s[1] == line@[i as int + 1] && s[2] == line@[i as int
                + 2] && s[3] == line@[i as int + 3]);
            assert(s.skip(4) =~= line@.skip(i as int + 4));
        }
        let s0: u8 = match sextet(line[i]) {
            Some(x) => x,
            None => {
                return None;
            },
        };
        let s1: u8 = match sextet(line[i + 1]) {
            Some(x) => x,
            None => {
                return None;
            },
        };
        let s2: u8 = match sextet(line[i + 2]) {
            Some(x) => x,
            None => {
                return None;
            },
        };
        let s3: u8 = match sextet(line[i + 3]) {
            Some(x) => x,
            None => {
                return None;
            },
        };
        match decode_from(line, i + 4) {
            Some(rest) => {
                let mut v: Vec<u8> = Vec::new();
                v.push((s0 << 2u8) | (s1 >> 4u8));
                v.push(((s1 & 15) << 4u8) | (s2 >> 2u8));
                v.push(((s2 & 3) << 6u8) | s3);
                let mut tail = rest;
                v.append(&mut tail);
                proof {
                    assert(v@ =~= decode_b64(s).unwrap());
                }
                Some(v)
            },
            None => None,
        }
    }
}

/// Parse one log line back into hash bytes; `None` on a malformed line.
pub fn decode_line(line: &Vec<u8>) -> (r: Option<Vec<u8>>)
    ensures
        match r {
            Some(v) => decode_b64(line@) == Some(v@),
            None => decode_b64(line@) is None,
        },
{
    let r = decode_from(line, 0);
    proof {
        assert(line@.skip(0) =~= line@);
    }
    r
}

} // verus!
