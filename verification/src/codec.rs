//! The wire codec: records as maps with small integer keys in a compact
//! binary item format (unsigned and negative integers, UTF-8 text strings,
//! arrays and maps, each introduced by a head byte of major type and minimal
//! length), and the outer framing that prefixes each encoded record with a
//! 4-byte big-endian length.
//!
//! Encoding is canonical (every integer head is minimal, fields in a fixed
//! order). The decoder accepts every head only in its minimal form and the
//! envelope in its fixed shape, but a body map may carry its recognized
//! integer keys in any order, exactly once each, and entries under
//! unrecognized keys are skipped; decoding therefore inverts encoding.

use vstd::prelude::*;

verus! {

broadcast use vstd::std_specs::vec::group_vec_axioms;

// ---------------------------------------------------------------------------
// Big-endian integers
// ---------------------------------------------------------------------------

/// 256 to the power `w`.
pub open spec fn pow256(w: nat) -> nat
    decreases w,
{
    if w == 0 {
        1
    } else {
        256 * pow256((w - 1) as nat)
    }
}

/// The `w`-byte big-endian encoding of `n` (mod 256^w).
pub open spec fn be(n: nat, w: nat) -> Seq<u8>
    decreases w,
{
    if w == 0 {
        Seq::empty()
    } else {
        be(n / 256, (w - 1) as nat).push((n % 256) as u8)
    }
}

/// The value of a big-endian byte string.
pub open spec fn be_val(s: Seq<u8>) -> nat
    decreases s.len(),
{
    if s.len() == 0 {
        0
    } else {
        (be_val(s.drop_last()) * 256 + s.last()) as nat
    }
}

proof fn lemma_be_len(n: nat, w: nat)
    ensures
        be(n, w).len() == w,
    decreases w,
{
    if w > 0 {
        lemma_be_len(n / 256, (w - 1) as nat);
    }
}

proof fn lemma_be_val_of_be(n: nat, w: nat)
    requires
        n < pow256(w),
    ensures
        be_val(be(n, w)) == n,
    decreases w,
{
    if w > 0 {
        lemma_be_len(n / 256, (w - 1) as nat);
        assert(n / 256 < pow256((w - 1) as nat)) by {
            assert(pow256(w) == 256 * pow256((w - 1) as nat));
        }
        lemma_be_val_of_be(n / 256, (w - 1) as nat);
        assert(be(n, w).drop_last() =~= be(n / 256, (w - 1) as nat));
        assert(be(n, w).last() == (n % 256) as u8);
    }
}

proof fn lemma_be_val_bound(s: Seq<u8>)
    ensures
        be_val(s) < pow256(s.len()),
    decreases s.len(),
{
    if s.len() > 0 {
        lemma_be_val_bound(s.drop_last());
    }
}

proof fn lemma_be_of_be_val(s: Seq<u8>)
    ensures
        be(be_val(s), s.len()) == s,
    decreases s.len(),
{
    if s.len() > 0 {
        lemma_be_of_be_val(s.drop_last());
        lemma_be_val_bound(s.drop_last());
        let n = be_val(s);
        assert(n == (be_val(s.drop_last()) * 256 + s.last()) as nat);
        assert(n / 256 == be_val(s.drop_last()) && n % 256 == s.last()) by (nonlinear_arith)
            requires
                n == (be_val(s.drop_last()) * 256 + s.last()) as nat,
                s.last() < 256,
        ;
        assert(be(n, s.len()) == be(n / 256, (s.len() - 1) as nat).push((n % 256) as u8));
        assert(be(n / 256, (s.len() - 1) as nat) == s.drop_last());
        assert(s.drop_last().push(s.last()) =~= s);
    }
}

/// Append the `w`-byte big-endian encoding of `v`.
fn push_be(out: &mut Vec<u8>, v: u64, w: u8)
    ensures
        final(out)@ == old(out)@ + be(v as nat, w as nat),
    decreases w,
{
    if w == 0 {
        proof {
            assert(old(out)@ + be(v as nat, 0) =~= old(out)@);
        }
    } else {
        push_be(out, v / 256, w - 1);
        out.push((v % 256) as u8);
        proof {
            assert((v / 256) as nat == (v as nat) / 256);
            assert((v % 256) as nat == (v as nat) % 256);
            assert(old(out)@ + be(v as nat, w as nat) =~= (old(out)@ + be(
                (v as nat) / 256,
                (w - 1) as nat,
            )).push(((v as nat) % 256) as u8));
        }
    }
}

/// Read `w` big-endian bytes starting at `pos`.
fn read_be(b: &Vec<u8>, pos: usize, w: usize) -> (r: Option<(u64, usize)>)
    requires
        pos <= b@.len(),
        w <= 8,
    ensures
        r is Some <==> pos + w <= b@.len(),
        r matches Some((v, p)) ==> p == pos + w && v as nat == be_val(
            b@.subrange(pos as int, (pos + w) as int),
        ),
{
    let len0 = b.len();
    if len0 - pos < w {
        return None;
    }
    let mut acc: u64 = 0;
    let mut i: usize = 0;
    while i < w
        invariant
            pos + w <= len0,
            len0 == b@.len(),
            w <= 8,
            i <= w,
            acc as nat == be_val(b@.subrange(pos as int, (pos + i) as int)),
            acc < pow256(i as nat),
        decreases w - i,
    {
        proof {
            lemma_be_val_bound(b@.subrange(pos as int, (pos + i) as int));
            lemma_pow256_values();
            assert(pow256(i as nat) <= pow256(7)) by {
                lemma_pow256_le(i as nat, 7);
            }
        }
        let byte = b[pos + i];
        acc = acc * 256 + (byte as u64);
        i = i + 1;
        proof {
            let s = b@.subrange(pos as int, (pos + i) as int);
            assert(s.drop_last() =~= b@.subrange(pos as int, (pos + i - 1) as int));
            assert(s.last() == byte);
        }
    }
    proof {
        lemma_be_val_bound(b@.subrange(pos as int, (pos + w) as int));
    }
    Some((acc, pos + w))
}

proof fn lemma_pow256_values()
    ensures
        pow256(1) == 256,
        pow256(2) == 65536,
        pow256(4) == 0x1_0000_0000,
        pow256(7) == 0x100_0000_0000_0000,
        pow256(8) == 0x1_0000_0000_0000_0000,
{
    assert(pow256(0) == 1);
    assert(pow256(1) == 256);
    assert(pow256(2) == 65536);
    assert(pow256(3) == 0x100_0000);
    assert(pow256(4) == 0x1_0000_0000);
    assert(pow256(5) == 0x100_0000_0000);
    assert(pow256(6) == 0x1_0000_0000_0000);
    assert(pow256(7) == 0x100_0000_0000_0000);
    assert(pow256(8) == 0x1_0000_0000_0000_0000);
}

proof fn lemma_pow256_le(a: nat, c: nat)
    requires
        a <= c,
    ensures
        pow256(a) <= pow256(c),
    decreases c,
{
    if a < c && c > 0 {
        lemma_pow256_le(a, (c - 1) as nat);
        assert(pow256(c) == 256 * pow256((c - 1) as nat));
    }
}

// ---------------------------------------------------------------------------
// Item heads
// ---------------------------------------------------------------------------

/// The head of an item: the major type in the top three bits, then the
/// argument, encoded in the shortest form that holds it.
pub open spec fn cbor_head(major: u8, v: nat) -> Seq<u8>
    recommends
        major < 8,
{
    if v < 24 {
        seq![(major * 32 + v) as u8]
    } else if v < 256 {
        seq![(major * 32 + 24) as u8] + be(v, 1)
    } else if v < 65536 {
        seq![(major * 32 + 25) as u8] + be(v, 2)
    } else if v < 0x1_0000_0000 {
        seq![(major * 32 + 26) as u8] + be(v, 4)
    } else {
        seq![(major * 32 + 27) as u8] + be(v, 8)
    }
}

/// Append the canonical head for `(major, v)`.
fn push_head(out: &mut Vec<u8>, major: u8, v: u64)
    requires
        major < 8,
    ensures
        final(out)@ == old(out)@ + cbor_head(major, v as nat),
{
    if v < 24 {
        out.push(major * 32 + (v as u8));
        proof {
            assert(old(out)@ + cbor_head(major, v as nat) =~= old(out)@.push(
                (major * 32 + v) as u8,
            ));
        }
    } else if v < 256 {
        out.push(major * 32 + 24);
        push_be(out, v, 1);
        proof {
            assert(old(out)@ + cbor_head(major, v as nat) =~= old(out)@.push(
                (major * 32 + 24) as u8,
            ) + be(v as nat, 1));
        }
    } else if v < 65536 {
        out.push(major * 32 + 25);
        push_be(out, v, 2);
        proof {
            assert(old(out)@ + cbor_head(major, v as nat) =~= old(out)@.push(
                (major * 32 + 25) as u8,
            ) + be(v as nat, 2));
        }
    } else if v < 0x1_0000_0000 {
        out.push(major * 32 + 26);
        push_be(out, v, 4);
        proof {
            assert(old(out)@ + cbor_head(major, v as nat) =~= old(out)@.push(
                (major * 32 + 26) as u8,
            ) + be(v as nat, 4));
        }
    } else {
        out.push(major * 32 + 27);
        push_be(out, v, 8);
        proof {
            assert(old(out)@ + cbor_head(major, v as nat) =~= old(out)@.push(
                (major * 32 + 27) as u8,
            ) + be(v as nat, 8));
        }
    }
}

/// Parse a canonical head at `pos`: the major type, the argument, and the
/// position after the head. Rejects non-minimal encodings, so exactly the
/// output of `push_head` is accepted.
fn parse_head(b: &Vec<u8>, pos: usize) -> (r: Option<(u8, u64, usize)>)
    requires
        pos <= b@.len(),
    ensures
        r matches Some((m, v, p)) ==> {
            &&& m < 8
            &&& pos < p <= b@.len()
            &&& b@.subrange(pos as int, p as int) == cbor_head(m, v as nat)
            &&& p - pos == cbor_head(m, v as nat).len()
        },
        forall|m: u8, v: u64|
            m < 8 && pos + cbor_head(m, v as nat).len() <= b@.len() && b@.subrange(
                pos as int,
                pos + cbor_head(m, v as nat).len(),
            ) == cbor_head(m, v as nat) ==> r == Some(
                (m, v, (pos + cbor_head(m, v as nat).len()) as usize),
            ),
{
    if pos >= b.len() {
        proof {
            lemma_head_len_pos();
        }
        return None;
    }
    let byte = b[pos];
    let major = byte / 32;
    let info = byte % 32;
    let r: Option<(u8, u64, usize)> = if info < 24 {
        let p = pos + 1;
        proof {
            assert(b@.subrange(pos as int, p as int) =~= seq![byte]);
            assert(byte == major * 32 + info) by (nonlinear_arith)
                requires
                    major == byte / 32,
                    info == byte % 32,
            ;
            assert(b@.subrange(pos as int, p as int) == cbor_head(major, info as nat));
        }
        Some((major, info as u64, p))
    } else if info == 24 {
        match read_be(b, pos + 1, 1) {
            Some((v, p)) => {
                if v >= 24 {
                    proof {
                        parse_head_sound(b@, pos as int, p as int, byte, major, info, v);
                    }
                    Some((major, v, p))
                } else {
                    None
                }
            },
            None => None,
        }
    } else if info == 25 {
        match read_be(b, pos + 1, 2) {
            Some((v, p)) => {
                if v >= 256 {
                    proof {
                        parse_head_sound(b@, pos as int, p as int, byte, major, info, v);
                    }
                    Some((major, v, p))
                } else {
                    None
                }
            },
            None => None,
        }
    } else if info == 26 {
        match read_be(b, pos + 1, 4) {
            Some((v, p)) => {
                if v >= 65536 {
                    proof {
                        parse_head_sound(b@, pos as int, p as int, byte, major, info, v);
                    }
                    Some((major, v, p))
                } else {
                    None
                }
            },
            None => None,
        }
    } else if info == 27 {
        match read_be(b, pos + 1, 8) {
            Some((v, p)) => {
                if v >= 0x1_0000_0000 {
                    proof {
                        parse_head_sound(b@, pos as int, p as int, byte, major, info, v);
                    }
                    Some((major, v, p))
                } else {
                    None
                }
            },
            None => None,
        }
    } else {
        None
    };
    proof {
        lemma_head_len_pos();
        assert forall|m: u8, v: u64|
            m < 8 && pos + cbor_head(m, v as nat).len() <= b@.len() && b@.subrange(
                pos as int,
                pos + cbor_head(m, v as nat).len(),
            ) == cbor_head(m, v as nat) implies r == Some(
            (m, v, (pos + cbor_head(m, v as nat).len()) as usize),
        ) by {
            let h = cbor_head(m, v as nat);
            let hb = b@.subrange(pos as int, pos + h.len());
            assert(hb[0] == b@[pos as int]);
            assert(h[0] == byte);
            let n = v as nat;
            if n < 24 {
                assert(byte == m * 32 + n);
                assert(major == m && info == n) by (nonlinear_arith)
                    requires
                        byte == m * 32 + n,
                        n < 24,
                        m < 8,
                        major == byte / 32,
                        info == byte % 32,
                ;
            } else {
                let w: nat = if n < 256 {
                    1
                } else if n < 65536 {
                    2
                } else if n < 0x1_0000_0000 {
                    4
                } else {
                    8
                };
                let marker: nat = if n < 256 {
                    24
                } else if n < 65536 {
                    25
                } else if n < 0x1_0000_0000 {
                    26
                } else {
                    27
                };
                assert(byte == m * 32 + marker);
                assert(major == m && info == marker) by (nonlinear_arith)
                    requires
                        byte == m * 32 + marker,
                        24 <= marker < 32,
                        m < 8,
                        major == byte / 32,
                        info == byte % 32,
                ;
                lemma_be_len(n, w);
                assert(b@.subrange((pos + 1) as int, pos + 1 + w) =~= be(n, w)) by {
                    assert(forall|i: int|
                        0 <= i < w ==> #[trigger] b@.subrange((pos + 1) as int, pos + 1 + w)[i]
                            == hb[i + 1]);
                }
                lemma_pow256_values();
                lemma_be_val_of_be(n, w);
            }
        }
    }
    r
}

/// The bytes a successful multi-byte head parse consumed are exactly the
/// canonical head of what it returned.
proof fn parse_head_sound(b: Seq<u8>, pos: int, p: int, byte: u8, major: u8, info: u8, v: u64)
    requires
        0 <= pos < p <= b.len(),
        b[pos] == byte,
        major == byte / 32,
        info == byte % 32,
        info == 24 ==> p == pos + 2 && v >= 24,
        info == 25 ==> p == pos + 3 && v >= 256,
        info == 26 ==> p == pos + 5 && v >= 65536,
        info == 27 ==> p == pos + 9 && v >= 0x1_0000_0000,
        info == 24 || info == 25 || info == 26 || info == 27,
        v as nat == be_val(b.subrange(pos + 1, p)),
    ensures
        b.subrange(pos, p) == cbor_head(major, v as nat),
        p - pos == cbor_head(major, v as nat).len(),
{
    let w = (p - pos - 1) as nat;
    let bs = b.subrange(pos + 1, p);
    lemma_be_val_bound(bs);
    lemma_pow256_values();
    lemma_be_of_be_val(bs);
    lemma_be_len(v as nat, w);
    assert(byte == major * 32 + info) by (nonlinear_arith)
        requires
            major == byte / 32,
            info == byte % 32,
    ;
    assert(b.subrange(pos, p) =~= seq![byte] + bs);
    assert(cbor_head(major, v as nat) == seq![(major * 32 + info) as u8] + be(v as nat, w));
}

// ---------------------------------------------------------------------------
// Text and integer items
// ---------------------------------------------------------------------------

/// The encoding of a text string: a major-3 head with the byte length, then
/// the UTF-8 bytes.
pub open spec fn enc_text(s: Seq<char>) -> Seq<u8> {
    cbor_head(3, vstd::utf8::encode_utf8(s).len()) + vstd::utf8::encode_utf8(s)
}

/// The encoding of an unsigned integer (major 0).
pub open spec fn enc_uint(v: nat) -> Seq<u8> {
    cbor_head(0, v)
}

/// The encoding of a signed integer: major 0 for `t >= 0`, major 1 with
/// argument `-1 - t` otherwise.
pub open spec fn enc_int(t: int) -> Seq<u8> {
    if t >= 0 {
        cbor_head(0, t as nat)
    } else {
        cbor_head(1, (-1 - t) as nat)
    }
}

/// Relies on `String::from_utf8`: it succeeds exactly on valid UTF-8 input
/// and returns the string whose UTF-8 bytes are that input.
#[verifier::external_body]
fn string_from_utf8(v: Vec<u8>) -> (r: Option<String>)
    ensures
        r is Some <==> vstd::utf8::valid_utf8(v@),
        r matches Some(s) ==> vstd::utf8::encode_utf8(s@) == v@,
{
    String::from_utf8(v).ok()
}

/// Copy `b[from..to]` into a fresh vector.
fn copy_range(b: &Vec<u8>, from: usize, to: usize) -> (out: Vec<u8>)
    requires
        from <= to <= b@.len(),
    ensures
        out@ == b@.subrange(from as int, to as int),
{
    let mut out: Vec<u8> = Vec::new();
    let mut i: usize = from;
    while i < to
        invariant
            from <= i <= to <= b@.len(),
            out@ == b@.subrange(from as int, i as int),
        decreases to - i,
    {
        out.push(b[i]);
        proof {
            assert(b@.subrange(from as int, i + 1) =~= b@.subrange(from as int, i as int).push(
                b@[i as int],
            ));
        }
        i = i + 1;
    }
    out
}

/// Splitting a suffix: if the bytes from `pos` on read `x` then `rest`, the
/// first `x.len()` of them are `x` and the bytes after them read `rest`.
proof fn lemma_take_piece(b: Seq<u8>, pos: int, x: Seq<u8>, rest: Seq<u8>)
    requires
        0 <= pos <= b.len(),
        b.subrange(pos, b.len() as int) == x + rest,
    ensures
        pos + x.len() <= b.len(),
        b.subrange(pos, pos + x.len()) == x,
        b.subrange(pos + x.len(), b.len() as int) == rest,
{
    assert(b.subrange(pos, b.len() as int).len() == x.len() + rest.len());
    assert(b.subrange(pos, pos + x.len()) =~= x) by {
        assert(forall|i: int|
            0 <= i < x.len() ==> b.subrange(pos, b.len() as int)[i] == #[trigger] (x + rest)[i]);
        assert(forall|i: int|
            0 <= i < x.len() ==> #[trigger] b.subrange(pos, pos + x.len())[i] == b.subrange(
                pos,
                b.len() as int,
            )[i]);
    }
    assert(b.subrange(pos + x.len(), b.len() as int) =~= rest) by {
        assert(forall|i: int|
            0 <= i < rest.len() ==> b.subrange(pos, b.len() as int)[x.len() + i] == #[trigger] (x
                + rest)[x.len() + i]);
        assert(forall|i: int|
            0 <= i < rest.len() ==> #[trigger] b.subrange(pos + x.len(), b.len() as int)[i]
                == b.subrange(pos, b.len() as int)[x.len() + i]);
    }
}

/// Adjacent pieces concatenate: `b[p0..p1] + b[p1..p2] == b[p0..p2]`.
proof fn lemma_join_pieces(b: Seq<u8>, p0: int, p1: int, p2: int)
    requires
        0 <= p0 <= p1 <= p2 <= b.len(),
    ensures
        b.subrange(p0, p1) + b.subrange(p1, p2) == b.subrange(p0, p2),
{
    assert(b.subrange(p0, p1) + b.subrange(p1, p2) =~= b.subrange(p0, p2));
}

/// Append the encoding of a text string.
fn push_text(out: &mut Vec<u8>, s: &str)
    ensures
        final(out)@ == old(out)@ + enc_text(s@),
{
    let bytes = s.as_bytes();
    let n = bytes.len();
    push_head(out, 3, n as u64);
    let ghost mid = out@;
    let mut i: usize = 0;
    while i < n
        invariant
            n == vstd::utf8::encode_utf8(s@).len(),
            bytes@ == vstd::utf8::encode_utf8(s@),
            i <= n,
            out@ == mid + bytes@.subrange(0, i as int),
        decreases n - i,
    {
        let byte = bytes[i];
        out.push(byte);
        proof {
            assert(mid + bytes@.subrange(0, i + 1) =~= (mid + bytes@.subrange(0, i as int)).push(
                byte,
            ));
        }
        i = i + 1;
    }
    proof {
        assert(bytes@.subrange(0, n as int) =~= bytes@);
        assert(old(out)@ + enc_text(s@) =~= (old(out)@ + cbor_head(
            3,
            vstd::utf8::encode_utf8(s@).len(),
        )) + vstd::utf8::encode_utf8(s@));
    }
}

/// Parse a text item at `pos`: exactly the output of `push_text`.
fn parse_text(b: &Vec<u8>, pos: usize) -> (r: Option<(String, usize)>)
    requires
        pos <= b@.len(),
    ensures
        r matches Some(t) ==> pos < t.1 <= b@.len() && b@.subrange(pos as int, t.1 as int)
            == enc_text(t.0@),
        forall|s: Seq<char>, rest: Seq<u8>|
            b@.subrange(pos as int, b@.len() as int) == enc_text(s) + rest ==> (r matches Some(
                t,
            ) && t.0@ == s && t.1 == pos + enc_text(s).len()),
{
    broadcast use vstd::utf8::encode_utf8_valid_utf8, vstd::utf8::encode_utf8_decode_utf8;

    let blen = b.len();
    let r = match parse_head(b, pos) {
        Some((m, n, p)) => {
            if m == 3 && n <= (blen - p) as u64 {
                let nn = n as usize;
                let bytes = copy_range(b, p, p + nn);
                match string_from_utf8(bytes) {
                    Some(s) => {
                        proof {
                            lemma_join_pieces(b@, pos as int, p as int, (p + nn) as int);
                            assert(b@.subrange(pos as int, (p + nn) as int) == cbor_head(
                                3,
                                n as nat,
                            ) + vstd::utf8::encode_utf8(s@));
                        }
                        Some((s, p + nn))
                    },
                    None => None,
                }
            } else {
                None
            }
        },
        _ => None,
    };
    proof {
        assert forall|s: Seq<char>, rest: Seq<u8>|
            b@.subrange(pos as int, b@.len() as int) == enc_text(s) + rest implies r matches Some(
            t,
        ) && t.0@ == s && t.1 == pos + enc_text(s).len() by {
            let u = vstd::utf8::encode_utf8(s);
            let h = cbor_head(3, u.len());
            assert(enc_text(s) + rest =~= h + (u + rest));
            lemma_take_piece(b@, pos as int, h, u + rest);
            assert(b@.len() <= usize::MAX);
            let v64: u64 = u.len() as u64;
            assert(v64 as nat == u.len());
            assert(cbor_head(3u8, v64 as nat) == h);
            assert(pos + cbor_head(3u8, v64 as nat).len() <= b@.len());
            assert(b@.subrange(pos as int, pos + cbor_head(3u8, v64 as nat).len()) == cbor_head(
                3u8,
                v64 as nat,
            ));
            lemma_take_piece(b@, pos + h.len(), u, rest);
            assert(vstd::utf8::valid_utf8(u));
            assert(vstd::utf8::decode_utf8(vstd::utf8::encode_utf8(s)) == s);
            match r {
                Some(t) => {
                    assert(vstd::utf8::decode_utf8(vstd::utf8::encode_utf8(t.0@)) == t.0@);
                },
                None => {},
            }
        }
    }
    r
}

/// Append the encoding of a signed integer.
fn push_int(out: &mut Vec<u8>, t: i64)
    ensures
        final(out)@ == old(out)@ + enc_int(t as int),
{
    if t >= 0 {
        push_head(out, 0, t as u64);
    } else {
        let neg: u64 = (-(t + 1)) as u64;
        push_head(out, 1, neg);
    }
}

/// Parse a signed integer item at `pos`.
fn parse_int(b: &Vec<u8>, pos: usize) -> (r: Option<(i64, usize)>)
    requires
        pos <= b@.len(),
    ensures
        r matches Some(t) ==> pos < t.1 <= b@.len() && b@.subrange(pos as int, t.1 as int)
            == enc_int(t.0 as int),
        forall|t: i64, rest: Seq<u8>|
            b@.subrange(pos as int, b@.len() as int) == enc_int(t as int) + rest ==> r == Some(
                (t, (pos + enc_int(t as int).len()) as usize),
            ),
{
    let r = match parse_head(b, pos) {
        Some((0u8, v, p)) => {
            if v <= i64::MAX as u64 {
                Some((v as i64, p))
            } else {
                None
            }
        },
        Some((1u8, v, p)) => {
            if v <= i64::MAX as u64 {
                Some((-1 - (v as i64), p))
            } else {
                None
            }
        },
        _ => None,
    };
    proof {
        assert forall|t: i64, rest: Seq<u8>|
            b@.subrange(pos as int, b@.len() as int) == enc_int(t as int) + rest implies r == Some(
            (t, (pos + enc_int(t as int).len()) as usize),
        ) by {
            lemma_take_piece(b@, pos as int, enc_int(t as int), rest);
        }
    }
    r
}

/// Parse an unsigned integer item at `pos`.
fn parse_uint(b: &Vec<u8>, pos: usize) -> (r: Option<(u64, usize)>)
    requires
        pos <= b@.len(),
    ensures
        r matches Some(t) ==> pos < t.1 <= b@.len() && b@.subrange(pos as int, t.1 as int)
            == enc_uint(t.0 as nat),
        forall|v: u64, rest: Seq<u8>|
            b@.subrange(pos as int, b@.len() as int) == enc_uint(v as nat) + rest ==> r == Some(
                (v, (pos + enc_uint(v as nat).len()) as usize),
            ),
{
    let r = match parse_head(b, pos) {
        Some((0u8, v, p)) => Some((v, p)),
        _ => None,
    };
    proof {
        assert forall|v: u64, rest: Seq<u8>|
            b@.subrange(pos as int, b@.len() as int) == enc_uint(v as nat) + rest implies r
            == Some((v, (pos + enc_uint(v as nat).len()) as usize)) by {
            lemma_take_piece(b@, pos as int, enc_uint(v as nat), rest);
        }
    }
    r
}

// ---------------------------------------------------------------------------
// Record encoding
// ---------------------------------------------------------------------------

/// The body of a header record: a map of five integer-keyed entries, in the
/// order version, time, id, context, pid.
pub open spec fn header_body(h: crate::record::HeaderV) -> Seq<u8> {
    cbor_head(5, 5) + enc_uint(1) + enc_uint(h.version as nat) + enc_uint(2) + enc_int(
        h.time as int,
    ) + enc_uint(3) + enc_text(h.id) + enc_uint(0) + enc_uint(
        crate::markers::spec_context_value(h.cxt) as nat,
    ) + enc_uint(4) + enc_uint(h.pid as nat)
}

/// The body of a data record: a map of six integer-keyed entries, in the
/// order version, time, id, pid, context, data.
pub open spec fn data_body(d: crate::record::DataV) -> Seq<u8> {
    cbor_head(5, 6) + enc_uint(1) + enc_uint(d.version as nat) + enc_uint(2) + enc_int(
        d.time as int,
    ) + enc_uint(3) + enc_text(d.id) + enc_uint(4) + enc_uint(d.pid as nat) + enc_uint(0)
        + enc_uint(crate::markers::spec_context_value(d.cxt) as nat) + enc_uint(5) + enc_text(
        d.data,
    )
}

/// The body of a log record: version, then the message.
pub open spec fn log_body(version: u32, log: Seq<char>) -> Seq<u8> {
    cbor_head(5, 2) + enc_uint(1) + enc_uint(version as nat) + enc_uint(6) + enc_text(log)
}

/// The body of an error record: version, then the error payload as a
/// three-element array of time, kind id and message.
pub open spec fn error_body(version: u32, e: crate::record::CrateErrorV) -> Seq<u8> {
    cbor_head(5, 2) + enc_uint(1) + enc_uint(version as nat) + enc_uint(7) + cbor_head(4, 3)
        + enc_int(e.time as int) + enc_uint(crate::record::spec_kind_id(e.kind) as nat) + enc_text(
        e.msg,
    )
}

/// The canonical encoding of a record: an envelope map with the kind under
/// the text key `t` and, for non-sentinel kinds, the body under `c`.
pub open spec fn rec_bytes(r: crate::record::RecordV) -> Seq<u8> {
    match r {
        crate::record::RecordV::StreamStart => cbor_head(5, 1) + enc_text("t"@) + enc_text("ss"@),
        crate::record::RecordV::StreamEnd => cbor_head(5, 1) + enc_text("t"@) + enc_text("se"@),
        crate::record::RecordV::Header(h) => cbor_head(5, 2) + enc_text("t"@) + enc_text("h"@)
            + enc_text("c"@) + header_body(h),
        crate::record::RecordV::Data(d) => cbor_head(5, 2) + enc_text("t"@) + enc_text("d"@)
            + enc_text("c"@) + data_body(d),
        crate::record::RecordV::Log(v, l) => cbor_head(5, 2) + enc_text("t"@) + enc_text("l"@)
            + enc_text("c"@) + log_body(v, l),
        crate::record::RecordV::Error(v, e) => cbor_head(5, 2) + enc_text("t"@) + enc_text("e"@)
            + enc_text("c"@) + error_body(v, e),
    }
}

/// Append the context tag of a header or data record.
fn push_context(out: &mut Vec<u8>, cxt: crate::markers::DataContext)
    ensures
        final(out)@ == old(out)@ + enc_uint(crate::markers::spec_context_value(cxt) as nat),
{
    let v = crate::markers::Repr::repr_u8(&cxt);
    push_head(out, 0, v as u64);
}

/// Append the canonical body of a header record.
#[verifier::rlimit(100)]
fn push_header_body(out: &mut Vec<u8>, h: &crate::record::Header)
    ensures
        final(out)@ == old(out)@ + header_body(h@),
{
    push_head(out, 5, 5);
    push_head(out, 0, 1);
    push_head(out, 0, h.required.version as u64);
    push_head(out, 0, 2);
    push_int(out, h.time);
    push_head(out, 0, 3);
    push_text(out, h.id.as_str());
    push_head(out, 0, 0);
    push_context(out, h.cxt);
    push_head(out, 0, 4);
    push_head(out, 0, h.pid as u64);
    proof {
        assert(out@ =~= old(out)@ + header_body(h@));
    }
}

/// Append the canonical body of a data record.
#[verifier::rlimit(100)]
fn push_data_body(out: &mut Vec<u8>, d: &crate::record::Data)
    ensures
        final(out)@ == old(out)@ + data_body(d@),
{
    push_head(out, 5, 6);
    push_head(out, 0, 1);
    push_head(out, 0, d.required.version as u64);
    push_head(out, 0, 2);
    push_int(out, d.time);
    push_head(out, 0, 3);
    push_text(out, d.id.as_str());
    push_head(out, 0, 4);
    push_head(out, 0, d.pid as u64);
    push_head(out, 0, 0);
    push_context(out, d.cxt);
    push_head(out, 0, 5);
    push_text(out, d.data.as_str());
    proof {
        assert(out@ =~= old(out)@ + data_body(d@));
    }
}

/// Append the canonical body of a log record.
#[verifier::rlimit(100)]
fn push_log_body(out: &mut Vec<u8>, l: &crate::record::Log)
    ensures
        final(out)@ == old(out)@ + log_body(l.required.version, l.log@),
{
    push_head(out, 5, 2);
    push_head(out, 0, 1);
    push_head(out, 0, l.required.version as u64);
    push_head(out, 0, 6);
    push_text(out, l.log.as_str());
    proof {
        assert(out@ =~= old(out)@ + log_body(l.required.version, l.log@));
    }
}

/// Append the canonical body of an error record.
#[verifier::rlimit(100)]
fn push_error_body(out: &mut Vec<u8>, e: &crate::record::Error)
    ensures
        final(out)@ == old(out)@ + error_body(e.required.version, e.error@),
{
    push_head(out, 5, 2);
    push_head(out, 0, 1);
    push_head(out, 0, e.required.version as u64);
    push_head(out, 0, 7);
    push_head(out, 4, 3);
    push_int(out, e.error.timestamp_nanos());
    let kind_id = crate::record::kind_id(e.error.kind());
    push_head(out, 0, kind_id as u64);
    push_text(out, e.error.msg());
    proof {
        assert(out@ =~= old(out)@ + error_body(e.required.version, e.error@));
    }
}

/// Serialize one record into its canonical byte string.
#[verifier::rlimit(100)]
pub fn encode_record(r: &crate::record::Record) -> (out: Vec<u8>)
    ensures
        out@ == rec_bytes(r@),
{
    let mut out: Vec<u8> = Vec::new();
    match r {
        crate::record::Record::StreamStart => {
            push_head(&mut out, 5, 1);
            push_text(&mut out, "t");
            push_text(&mut out, "ss");
            proof {
                assert(out@ =~= rec_bytes(r@));
            }
        },
        crate::record::Record::StreamEnd => {
            push_head(&mut out, 5, 1);
            push_text(&mut out, "t");
            push_text(&mut out, "se");
            proof {
                assert(out@ =~= rec_bytes(r@));
            }
        },
        crate::record::Record::Header(h) => {
            push_head(&mut out, 5, 2);
            push_text(&mut out, "t");
            push_text(&mut out, "h");
            push_text(&mut out, "c");
            push_header_body(&mut out, h);
            proof {
                assert(out@ =~= rec_bytes(r@));
            }
        },
        crate::record::Record::Data(d) => {
            push_head(&mut out, 5, 2);
            push_text(&mut out, "t");
            push_text(&mut out, "d");
            push_text(&mut out, "c");
            push_data_body(&mut out, d);
            proof {
                assert(out@ =~= rec_bytes(r@));
            }
        },
        crate::record::Record::Log(l) => {
            push_head(&mut out, 5, 2);
            push_text(&mut out, "t");
            push_text(&mut out, "l");
            push_text(&mut out, "c");
            push_log_body(&mut out, l);
            proof {
                assert(out@ =~= rec_bytes(r@));
            }
        },
        crate::record::Record::Error(e) => {
            push_head(&mut out, 5, 2);
            push_text(&mut out, "t");
            push_text(&mut out, "e");
            push_text(&mut out, "c");
            push_error_body(&mut out, e);
            proof {
                assert(out@ =~= rec_bytes(r@));
            }
        },
    }
    out
}

// ---------------------------------------------------------------------------
// Generic items
// ---------------------------------------------------------------------------

/// One self-delimiting wire item, as a value: what an ignored map entry may
/// carry. Containers nest.
pub enum ItemV {
    UInt(u64),
    SInt(i64),
    Bytes(Seq<u8>),
    Text(Seq<char>),
    Array(Seq<ItemV>),
    MapI(Seq<(ItemV, ItemV)>),
}

/// The encoding of one item.
pub open spec fn item_bytes(it: ItemV) -> Seq<u8>
    decreases it,
{
    match it {
        ItemV::UInt(v) => enc_uint(v as nat),
        ItemV::SInt(t) => enc_int(t as int),
        ItemV::Bytes(s) => cbor_head(2, s.len()) + s,
        ItemV::Text(s) => enc_text(s),
        ItemV::Array(xs) => cbor_head(4, xs.len()) + items_bytes(xs),
        ItemV::MapI(ps) => cbor_head(5, ps.len()) + pairs_bytes(ps),
    }
}

/// The concatenated encodings of a run of items.
pub open spec fn items_bytes(xs: Seq<ItemV>) -> Seq<u8>
    decreases xs,
{
    if xs.len() == 0 {
        Seq::empty()
    } else {
        item_bytes(xs[0]) + items_bytes(xs.drop_first())
    }
}

/// The concatenated encodings of a run of key-value pairs.
pub open spec fn pairs_bytes(ps: Seq<(ItemV, ItemV)>) -> Seq<u8>
    decreases ps,
{
    if ps.len() == 0 {
        Seq::empty()
    } else {
        item_bytes(ps[0].0) + item_bytes(ps[0].1) + pairs_bytes(ps.drop_first())
    }
}

/// One entry of a record map: an integer key and its value item.
pub open spec fn entry_bytes(e: (u64, ItemV)) -> Seq<u8> {
    enc_uint(e.0 as nat) + item_bytes(e.1)
}

/// The concatenated entries of a record map body.
pub open spec fn entries_bytes(es: Seq<(u64, ItemV)>) -> Seq<u8>
    decreases es.len(),
{
    if es.len() == 0 {
        Seq::empty()
    } else {
        entry_bytes(es[0]) + entries_bytes(es.drop_first())
    }
}

/// A record map with the given entries: the pair-count head, then the
/// entries.
pub open spec fn record_map_bytes(es: Seq<(u64, ItemV)>) -> Seq<u8> {
    cbor_head(5, es.len()) + entries_bytes(es)
}

/// Every item's encoding starts with a head, so is at least one byte.
proof fn lemma_item_len1(it: ItemV)
    ensures
        item_bytes(it).len() >= 1,
{
    lemma_head_len_pos();
}

/// A run of items encodes to at least one byte per item.
proof fn lemma_items_len(xs: Seq<ItemV>)
    ensures
        items_bytes(xs).len() >= xs.len(),
    decreases xs,
{
    if xs.len() > 0 {
        lemma_item_len1(xs[0]);
        lemma_items_len(xs.drop_first());
    }
}

/// The items of a run of pairs, interleaved in order.
pub open spec fn pairs_flat(ps: Seq<(ItemV, ItemV)>) -> Seq<ItemV>
    decreases ps,
{
    if ps.len() == 0 {
        Seq::empty()
    } else {
        seq![ps[0].0, ps[0].1] + pairs_flat(ps.drop_first())
    }
}

/// Pair encoding is the encoding of the interleaved items.
proof fn lemma_pairs_flat(ps: Seq<(ItemV, ItemV)>)
    ensures
        pairs_flat(ps).len() == 2 * ps.len(),
        items_bytes(pairs_flat(ps)) == pairs_bytes(ps),
    decreases ps,
{
    if ps.len() > 0 {
        lemma_pairs_flat(ps.drop_first());
        let f = pairs_flat(ps);
        assert(f[0] == ps[0].0);
        assert(f.drop_first()[0] == ps[0].1);
        assert(f.drop_first().drop_first() =~= pairs_flat(ps.drop_first()));
        assert(items_bytes(f) == item_bytes(ps[0].0) + items_bytes(f.drop_first()));
        assert(items_bytes(f.drop_first()) == item_bytes(ps[0].1) + items_bytes(
            pairs_flat(ps.drop_first()),
        ));
        assert(item_bytes(ps[0].0) + (item_bytes(ps[0].1) + pairs_bytes(ps.drop_first())) =~= (
        item_bytes(ps[0].0) + item_bytes(ps[0].1)) + pairs_bytes(ps.drop_first()));
    }
}

/// Skip one item at `pos`: the position after it. Accepts any nesting of
/// canonically-headed items.
fn skip_item(b: &Vec<u8>, pos: usize) -> (r: Option<usize>)
    requires
        pos <= b@.len(),
    ensures
        r matches Some(p) ==> pos < p <= b@.len(),
        forall|it: ItemV, rest: Seq<u8>|
            b@.subrange(pos as int, b@.len() as int) == item_bytes(it) + rest ==> r == Some(
                (pos + item_bytes(it).len()) as usize,
            ),
    decreases b@.len() - pos, 0int,
{
    let blen = b.len();
    let r = match parse_head(b, pos) {
        None => None,
        Some((m, v, p)) => {
            if m == 0 || m == 1 {
                Some(p)
            } else if m == 2 || m == 3 {
                if v <= (blen - p) as u64 {
                    Some(p + (v as usize))
                } else {
                    None
                }
            } else if m == 4 {
                skip_items(b, p, v)
            } else if m == 5 {
                if v > u64::MAX / 2 {
                    None
                } else {
                    skip_items(b, p, 2 * v)
                }
            } else {
                None
            }
        },
    };
    proof {
        assert forall|it: ItemV, rest: Seq<u8>|
            b@.subrange(pos as int, b@.len() as int) == item_bytes(it) + rest implies r == Some(
            (pos + item_bytes(it).len()) as usize,
        ) by {
            lemma_take_piece(b@, pos as int, item_bytes(it), rest);
            assert(b@.len() <= usize::MAX);
            match it {
                ItemV::UInt(v2) => {
                    assert(cbor_head(0u8, v2 as nat) == item_bytes(it));
                },
                ItemV::SInt(t) => {
                    if t >= 0 {
                        assert(cbor_head(0u8, (t as u64) as nat) == item_bytes(it));
                    } else {
                        assert(cbor_head(1u8, ((-1 - t) as u64) as nat) == item_bytes(it));
                    }
                },
                ItemV::Bytes(s) => {
                    let h = cbor_head(2, s.len());
                    assert(item_bytes(it) + rest =~= h + (s + rest));
                    lemma_take_piece(b@, pos as int, h, s + rest);
                    assert(cbor_head(2u8, (s.len() as u64) as nat) == h);
                },
                ItemV::Text(s) => {
                    let u = vstd::utf8::encode_utf8(s);
                    let h = cbor_head(3, u.len());
                    assert(item_bytes(it) + rest =~= h + (u + rest));
                    lemma_take_piece(b@, pos as int, h, u + rest);
                    assert(cbor_head(3u8, (u.len() as u64) as nat) == h);
                },
                ItemV::Array(xs) => {
                    let body = items_bytes(xs);
                    let h = cbor_head(4, xs.len());
                    lemma_items_len(xs);
                    assert(item_bytes(it) + rest =~= h + (body + rest));
                    lemma_take_piece(b@, pos as int, h, body + rest);
                    assert(cbor_head(4u8, (xs.len() as u64) as nat) == h);
                },
                ItemV::MapI(ps) => {
                    let body = pairs_bytes(ps);
                    let h = cbor_head(5, ps.len());
                    lemma_pairs_flat(ps);
                    lemma_items_len(pairs_flat(ps));
                    assert(item_bytes(it) + rest =~= h + (body + rest));
                    lemma_take_piece(b@, pos as int, h, body + rest);
                    assert(cbor_head(5u8, (ps.len() as u64) as nat) == h);
                    let n64 = ps.len() as u64;
                    assert(2 * n64 == pairs_flat(ps).len());
                },
            }
        }
    }
    r
}

/// Skip `n` consecutive items starting at `pos`.
fn skip_items(b: &Vec<u8>, pos: usize, n: u64) -> (r: Option<usize>)
    requires
        pos <= b@.len(),
    ensures
        r matches Some(p) ==> pos <= p <= b@.len() && (n > 0 ==> pos < p),
        forall|xs: Seq<ItemV>, rest: Seq<u8>|
            xs.len() == n && b@.subrange(pos as int, b@.len() as int) == items_bytes(xs) + rest
                ==> r == Some((pos + items_bytes(xs).len()) as usize),
    decreases b@.len() - pos, 1int + n,
{
    let blen = b.len();
    if n == 0 {
        return Some(pos);
    }
    let r = match skip_item(b, pos) {
        None => None,
        Some(p) => skip_items(b, p, n - 1),
    };
    proof {
        assert forall|xs: Seq<ItemV>, rest: Seq<u8>|
            xs.len() == n && b@.subrange(pos as int, b@.len() as int) == items_bytes(xs) + rest
            implies r == Some((pos + items_bytes(xs).len()) as usize) by {
            let x0 = item_bytes(xs[0]);
            let tail = items_bytes(xs.drop_first());
            assert(items_bytes(xs) + rest =~= x0 + (tail + rest));
            lemma_take_piece(b@, pos as int, x0, tail + rest);
            assert(b@.len() == blen);
        }
    }
    r
}

/// A run of entries encodes to at least one byte per entry.
proof fn lemma_entries_len(es: Seq<(u64, ItemV)>)
    ensures
        entries_bytes(es).len() >= es.len(),
    decreases es.len(),
{
    if es.len() > 0 {
        lemma_head_len_pos();
        lemma_entries_len(es.drop_first());
    }
}

/// The scanned ranges describe the given entries: keys match pointwise and
/// each range holds exactly the entry's value bytes.
pub open spec fn entries_aligned(
    b: Seq<u8>,
    scanned: Seq<(u64, usize, usize)>,
    es: Seq<(u64, ItemV)>,
) -> bool {
    &&& scanned.len() == es.len()
    &&& forall|i: int|
        0 <= i < es.len() ==> (#[trigger] scanned[i]).0 == es[i].0 && b.subrange(
            scanned[i].1 as int,
            scanned[i].2 as int,
        ) == item_bytes(es[i].1)
    &&& forall|i: int| 0 <= i < scanned.len() ==> (#[trigger] scanned[i]).1 <= scanned[i].2
        <= b.len()
}

/// A field that appears exactly once among the entries appears exactly once,
/// with the same value bytes, among the aligned scanned ranges.
proof fn lemma_entry_transfer(
    b: Seq<u8>,
    scanned: Seq<(u64, usize, usize)>,
    es: Seq<(u64, ItemV)>,
    key: u64,
    val: Seq<u8>,
)
    requires
        entries_aligned(b, scanned, es),
        has_field(es, key, val),
    ensures
        entry_is(b, scanned, key, val),
{
    let i = choose|i: int|
        0 <= i < es.len() && (#[trigger] es[i]).0 == key && item_bytes(es[i].1) == val && (forall|
            j: int,
        | 0 <= j < es.len() && j != i ==> (#[trigger] es[j]).0 != key);
    assert(scanned[i].0 == key);
    assert(b.subrange(scanned[i].1 as int, scanned[i].2 as int) == val);
    assert forall|j: int| 0 <= j < scanned.len() && j != i implies (#[trigger] scanned[j]).0
        != key by {
        assert(scanned[j].0 == es[j].0);
    }
}

/// The scanned entries tile the bytes from `pos` to `pend` exactly: each
/// entry is its encoded integer key followed by its value bytes, with no
/// gaps.
pub open spec fn scanned_chain(
    b: Seq<u8>,
    pos: int,
    entries: Seq<(u64, usize, usize)>,
    pend: int,
) -> bool
    decreases entries.len(),
{
    if entries.len() == 0 {
        pend == pos
    } else {
        let e = entries[0];
        &&& pos <= e.1 <= e.2 <= b.len()
        &&& b.subrange(pos, e.1 as int) == enc_uint(e.0 as nat)
        &&& scanned_chain(b, e.2 as int, entries.drop_first(), pend)
    }
}

/// Scan `n` map entries at `pos`: each entry's key and the byte range of its
/// value, with the position after the last entry.
fn scan_entries(b: &Vec<u8>, pos: usize, n: u64) -> (r: Option<(Vec<(u64, usize, usize)>, usize)>)
    requires
        pos <= b@.len(),
    ensures
        r matches Some(t) ==> pos <= t.1 <= b@.len() && forall|i: int|
            0 <= i < t.0@.len() ==> pos <= (#[trigger] t.0@[i]).1 <= t.0@[i].2 <= b@.len(),
        r matches Some(t) ==> t.0@.len() == n && scanned_chain(b@, pos as int, t.0@, t.1 as int),
        forall|es: Seq<(u64, ItemV)>, rest: Seq<u8>|
            es.len() == n && b@.subrange(pos as int, b@.len() as int) == entries_bytes(es) + rest
                ==> (match r {
                Some(t) => t.1 == pos + entries_bytes(es).len() && entries_aligned(b@, t.0@, es),
                None => false,
            }),
    decreases n,
{
    let blen = b.len();
    if n == 0 {
        return Some((Vec::new(), pos));
    }
    let r = match parse_uint(b, pos) {
        None => None,
        Some((key, p1)) => match skip_item(b, p1) {
            None => None,
            Some(p2) => match scan_entries(b, p2, n - 1) {
                None => None,
                Some((v, pend)) => {
                    let mut v = v;
                    let ghost inner = v@;
                    v.insert(0, (key, p1, p2));
                    proof {
                        inner.insert_ensures(0, (key, p1, p2));
                        assert(v@[0] == (key, p1, p2));
                        assert(v@.drop_first() =~= inner);
                        assert(scanned_chain(b@, pos as int, v@, pend as int));
                    }
                    Some((v, pend))
                },
            },
        },
    };
    proof {
        assert forall|es: Seq<(u64, ItemV)>, rest: Seq<u8>|
            es.len() == n && b@.subrange(pos as int, b@.len() as int) == entries_bytes(es) + rest
            implies (match r {
            Some(t) => t.1 == pos + entries_bytes(es).len() && entries_aligned(b@, t.0@, es),
            None => false,
        }) by {
            let k0 = enc_uint(es[0].0 as nat);
            let x0 = item_bytes(es[0].1);
            let tail = entries_bytes(es.drop_first());
            assert(entries_bytes(es) + rest =~= k0 + (x0 + (tail + rest)));
            lemma_take_piece(b@, pos as int, k0, x0 + (tail + rest));
            lemma_take_piece(b@, pos + k0.len(), x0, tail + rest);
            assert(b@.len() == blen);
            match r {
                Some(t) => {
                    assert forall|i: int| 0 <= i < es.len() implies (#[trigger] t.0@[i]).0
                        == es[i].0 && b@.subrange(t.0@[i].1 as int, t.0@[i].2 as int) == item_bytes(
                        es[i].1,
                    ) by {
                        if i > 0 {
                            assert(es.drop_first()[i - 1] == es[i]);
                        }
                    }
                },
                None => {},
            }
        }
    }
    r
}

/// The byte range of the value under `key`, when the key appears exactly
/// once among the entries.
fn get_field(entries: &Vec<(u64, usize, usize)>, key: u64) -> (r: Option<(usize, usize)>)
    ensures
        r is Some <==> (exists|i: int|
            0 <= i < entries@.len() && (#[trigger] entries@[i]).0 == key && (forall|j: int|
                0 <= j < entries@.len() && j != i ==> (#[trigger] entries@[j]).0 != key)),
        r matches Some(t) ==> exists|i: int|
            0 <= i < entries@.len() && (#[trigger] entries@[i]).0 == key && t.0 == entries@[i].1
                && t.1 == entries@[i].2 && (forall|j: int|
                0 <= j < entries@.len() && j != i ==> (#[trigger] entries@[j]).0 != key),
{
    let mut found: Option<(usize, usize)> = None;
    let mut k: usize = 0;
    while k < entries.len()
        invariant_except_break
            k <= entries@.len(),
            found matches Some(t) ==> exists|j: int|
                0 <= j < k && (#[trigger] entries@[j]).0 == key && t.0 == entries@[j].1 && t.1
                    == entries@[j].2 && (forall|j2: int|
                    0 <= j2 < k && j2 != j ==> (#[trigger] entries@[j2]).0 != key),
            found is None ==> forall|j: int| 0 <= j < k ==> (#[trigger] entries@[j]).0 != key,
        ensures
            k <= entries@.len(),
            k == entries@.len() ==> (found matches Some(t) ==> exists|j: int|
                0 <= j < entries@.len() && (#[trigger] entries@[j]).0 == key && t.0
                    == entries@[j].1 && t.1 == entries@[j].2 && (forall|j2: int|
                    0 <= j2 < entries@.len() && j2 != j ==> (#[trigger] entries@[j2]).0 != key)),
            (k == entries@.len() && found is None) ==> forall|j: int|
                0 <= j < entries@.len() ==> (#[trigger] entries@[j]).0 != key,
            (k < entries@.len()) ==> (entries@[k as int].0 == key && exists|j: int|
                0 <= j < k && (#[trigger] entries@[j]).0 == key),
        decreases entries@.len() - k,
    {
        let e = entries[k];
        if e.0 == key {
            if found.is_some() {
                // a second occurrence of a recognized key: the record is
                // malformed, as a duplicate field
                break ;
            }
            found = Some((e.1, e.2));
        }
        k = k + 1;
    }
    if k < entries.len() {
        proof {
            if exists|i: int|
                0 <= i < entries@.len() && (#[trigger] entries@[i]).0 == key && (forall|j: int|
                    0 <= j < entries@.len() && j != i ==> (#[trigger] entries@[j]).0 != key) {
                let i = choose|i: int|
                    0 <= i < entries@.len() && (#[trigger] entries@[i]).0 == key && (forall|j: int|
                        0 <= j < entries@.len() && j != i ==> (#[trigger] entries@[j]).0 != key);
                let j = choose|j: int| 0 <= j < k && (#[trigger] entries@[j]).0 == key;
                assert(j != k);
                assert(false);
            }
        }
        return None;
    }
    proof {
        if found is None {
            if exists|i: int|
                0 <= i < entries@.len() && (#[trigger] entries@[i]).0 == key && (forall|j: int|
                    0 <= j < entries@.len() && j != i ==> (#[trigger] entries@[j]).0 != key) {
                let i = choose|i: int|
                    0 <= i < entries@.len() && (#[trigger] entries@[i]).0 == key && (forall|j: int|
                        0 <= j < entries@.len() && j != i ==> (#[trigger] entries@[j]).0 != key);
                assert(entries@[i].0 != key);
                assert(false);
            }
        }
    }
    found
}

// ---------------------------------------------------------------------------
// Record decoding
// ---------------------------------------------------------------------------

/// Parse an unsigned integer that must fit in 32 bits.
fn parse_u32(b: &Vec<u8>, pos: usize) -> (r: Option<(u32, usize)>)
    requires
        pos <= b@.len(),
    ensures
        r matches Some(t) ==> pos < t.1 <= b@.len() && b@.subrange(pos as int, t.1 as int)
            == enc_uint(t.0 as nat),
        forall|v: u32, rest: Seq<u8>|
            b@.subrange(pos as int, b@.len() as int) == enc_uint(v as nat) + rest ==> r == Some(
                (v, (pos + enc_uint(v as nat).len()) as usize),
            ),
{
    let r = match parse_uint(b, pos) {
        Some((v, p)) => {
            if v <= u32::MAX as u64 {
                Some((v as u32, p))
            } else {
                None
            }
        },
        None => None,
    };
    proof {
        assert forall|v: u32, rest: Seq<u8>|
            b@.subrange(pos as int, b@.len() as int) == enc_uint(v as nat) + rest implies r
            == Some((v, (pos + enc_uint(v as nat).len()) as usize)) by {
            assert(enc_uint((v as u64) as nat) == enc_uint(v as nat));
        }
    }
    r
}

/// The context tag of the given wire id.
fn context_from_id(v: u32) -> (r: Option<crate::markers::DataContext>)
    ensures
        r is Some <==> v < 4,
        r matches Some(c) ==> crate::markers::spec_context_value(c) == v,
{
    if v == 0 {
        Some(crate::markers::DataContext::Start)
    } else if v == 1 {
        Some(crate::markers::DataContext::Stdout)
    } else if v == 2 {
        Some(crate::markers::DataContext::Stderr)
    } else if v == 3 {
        Some(crate::markers::DataContext::End)
    } else {
        None
    }
}

/// The entries carry `key` exactly once, and its value encodes as `val`.
pub open spec fn has_field(es: Seq<(u64, ItemV)>, key: u64, val: Seq<u8>) -> bool {
    exists|i: int|
        0 <= i < es.len() && (#[trigger] es[i]).0 == key && item_bytes(es[i].1) == val && (forall|
            j: int,
        | 0 <= j < es.len() && j != i ==> (#[trigger] es[j]).0 != key)
}

/// The hypothesis shared by the typed field readers: among the scanned
/// entries, `key` appears exactly once and its value bytes are `val`.
pub open spec fn entry_is(
    b: Seq<u8>,
    entries: Seq<(u64, usize, usize)>,
    key: u64,
    val: Seq<u8>,
) -> bool {
    exists|i: int|
        0 <= i < entries.len() && (#[trigger] entries[i]).0 == key && entries[i].1 <= entries[i].2
            <= b.len() && b.subrange(entries[i].1 as int, entries[i].2 as int) == val && (forall|
            j: int,
        | 0 <= j < entries.len() && j != i ==> (#[trigger] entries[j]).0 != key)
}

/// Read the unsigned-integer field under `key`.
fn field_u32(b: &Vec<u8>, entries: &Vec<(u64, usize, usize)>, key: u64) -> (r: Option<u32>)
    requires
        forall|i: int| 0 <= i < entries@.len() ==> (#[trigger] entries@[i]).1 <= b@.len(),
    ensures
        forall|v: u32| entry_is(b@, entries@, key, enc_uint(v as nat)) ==> r == Some(v),
        r matches Some(v) ==> entry_is(b@, entries@, key, enc_uint(v as nat)),
{
    let r = match get_field(entries, key) {
        None => None,
        Some((vs, ve)) => match parse_u32(b, vs) {
            Some((v, p)) => {
                if p == ve {
                    Some(v)
                } else {
                    None
                }
            },
            None => None,
        },
    };
    proof {
        assert forall|v: u32| entry_is(b@, entries@, key, enc_uint(v as nat)) implies r == Some(
            v,
        ) by {
            let i = choose|i: int|
                0 <= i < entries@.len() && (#[trigger] entries@[i]).0 == key && entries@[i].1
                    <= entries@[i].2 <= b@.len() && b@.subrange(
                    entries@[i].1 as int,
                    entries@[i].2 as int,
                ) == enc_uint(v as nat) && (forall|j: int|
                    0 <= j < entries@.len() && j != i ==> (#[trigger] entries@[j]).0 != key);
            lemma_join_pieces(b@, entries@[i].1 as int, entries@[i].2 as int, b@.len() as int);
        }
    }
    r
}

/// Read the signed-integer field under `key`.
fn field_i64(b: &Vec<u8>, entries: &Vec<(u64, usize, usize)>, key: u64) -> (r: Option<i64>)
    requires
        forall|i: int| 0 <= i < entries@.len() ==> (#[trigger] entries@[i]).1 <= b@.len(),
    ensures
        forall|t: i64| entry_is(b@, entries@, key, enc_int(t as int)) ==> r == Some(t),
        r matches Some(t) ==> entry_is(b@, entries@, key, enc_int(t as int)),
{
    let r = match get_field(entries, key) {
        None => None,
        Some((vs, ve)) => match parse_int(b, vs) {
            Some((t, p)) => {
                if p == ve {
                    Some(t)
                } else {
                    None
                }
            },
            None => None,
        },
    };
    proof {
        assert forall|t: i64| entry_is(b@, entries@, key, enc_int(t as int)) implies r == Some(
            t,
        ) by {
            let i = choose|i: int|
                0 <= i < entries@.len() && (#[trigger] entries@[i]).0 == key && entries@[i].1
                    <= entries@[i].2 <= b@.len() && b@.subrange(
                    entries@[i].1 as int,
                    entries@[i].2 as int,
                ) == enc_int(t as int) && (forall|j: int|
                    0 <= j < entries@.len() && j != i ==> (#[trigger] entries@[j]).0 != key);
            lemma_join_pieces(b@, entries@[i].1 as int, entries@[i].2 as int, b@.len() as int);
        }
    }
    r
}

/// Read the text field under `key`.
fn field_text(b: &Vec<u8>, entries: &Vec<(u64, usize, usize)>, key: u64) -> (r: Option<String>)
    requires
        forall|i: int| 0 <= i < entries@.len() ==> (#[trigger] entries@[i]).1 <= b@.len(),
    ensures
        forall|s: Seq<char>|
            entry_is(b@, entries@, key, enc_text(s)) ==> (match r {
                Some(x) => x@ == s,
                None => false,
            }),
        r matches Some(x) ==> entry_is(b@, entries@, key, enc_text(x@)),
{
    let r = match get_field(entries, key) {
        None => None,
        Some((vs, ve)) => match parse_text(b, vs) {
            Some((x, p)) => {
                if p == ve {
                    Some(x)
                } else {
                    None
                }
            },
            None => None,
        },
    };
    proof {
        assert forall|s: Seq<char>| entry_is(b@, entries@, key, enc_text(s)) implies (match r {
            Some(x) => x@ == s,
            None => false,
        }) by {
            let i = choose|i: int|
                0 <= i < entries@.len() && (#[trigger] entries@[i]).0 == key && entries@[i].1
                    <= entries@[i].2 <= b@.len() && b@.subrange(
                    entries@[i].1 as int,
                    entries@[i].2 as int,
                ) == enc_text(s) && (forall|j: int|
                    0 <= j < entries@.len() && j != i ==> (#[trigger] entries@[j]).0 != key);
            lemma_join_pieces(b@, entries@[i].1 as int, entries@[i].2 as int, b@.len() as int);
        }
    }
    r
}

/// The bytes from `pos` to `pend` are one record map: the pair-count head
/// for `E.len()` entries, then exactly the scanned entries.
pub open spec fn map_scan_sound(
    b: Seq<u8>,
    pos: int,
    pend: int,
    E: Seq<(u64, usize, usize)>,
) -> bool {
    &&& 0 <= pos
    &&& pos + cbor_head(5, E.len()).len() <= b.len()
    &&& b.subrange(pos, pos + cbor_head(5, E.len()).len()) == cbor_head(5, E.len())
    &&& scanned_chain(b, pos + cbor_head(5, E.len()).len(), E, pend)
}

/// What a successful header decode certifies of its input: the bytes are one
/// record map whose recognized keys each appear exactly once, carrying
/// exactly the returned fields' canonical value bytes.
pub open spec fn header_body_sound(b: Seq<u8>, pos: int, pend: int, h: crate::record::HeaderV) -> bool {
    exists|E: Seq<(u64, usize, usize)>|
        {
            &&& #[trigger] map_scan_sound(b, pos, pend, E)
            &&& entry_is(b, E, 1, enc_uint(h.version as nat))
            &&& entry_is(b, E, 2, enc_int(h.time as int))
            &&& entry_is(b, E, 3, enc_text(h.id))
            &&& entry_is(b, E, 0, enc_uint(crate::markers::spec_context_value(h.cxt) as nat))
            &&& entry_is(b, E, 4, enc_uint(h.pid as nat))
        }
}

/// What a successful data decode certifies of its input.
pub open spec fn data_body_sound(b: Seq<u8>, pos: int, pend: int, d: crate::record::DataV) -> bool {
    exists|E: Seq<(u64, usize, usize)>|
        {
            &&& #[trigger] map_scan_sound(b, pos, pend, E)
            &&& entry_is(b, E, 1, enc_uint(d.version as nat))
            &&& entry_is(b, E, 2, enc_int(d.time as int))
            &&& entry_is(b, E, 3, enc_text(d.id))
            &&& entry_is(b, E, 4, enc_uint(d.pid as nat))
            &&& entry_is(b, E, 0, enc_uint(crate::markers::spec_context_value(d.cxt) as nat))
            &&& entry_is(b, E, 5, enc_text(d.data))
        }
}

/// What a successful log decode certifies of its input.
pub open spec fn log_body_sound(
    b: Seq<u8>,
    pos: int,
    pend: int,
    version: u32,
    log: Seq<char>,
) -> bool {
    exists|E: Seq<(u64, usize, usize)>|
        {
            &&& #[trigger] map_scan_sound(b, pos, pend, E)
            &&& entry_is(b, E, 1, enc_uint(version as nat))
            &&& entry_is(b, E, 6, enc_text(log))
        }
}

/// What a successful error decode certifies of its input.
pub open spec fn error_body_sound(
    b: Seq<u8>,
    pos: int,
    pend: int,
    version: u32,
    e: crate::record::CrateErrorV,
) -> bool {
    exists|E: Seq<(u64, usize, usize)>|
        {
            &&& #[trigger] map_scan_sound(b, pos, pend, E)
            &&& entry_is(b, E, 1, enc_uint(version as nat))
            &&& entry_is(
                b,
                E,
                7,
                cbor_head(4, 3) + enc_int(e.time as int) + enc_uint(
                    crate::record::spec_kind_id(e.kind) as nat,
                ) + enc_text(e.msg),
            )
        }
}

/// The field hypothesis of a header body: each of version, time, id,
/// context and pid appears exactly once, under its integer key, in canonical
/// value form; any other entries carry unrecognized keys and are ignored.
pub open spec fn header_fields_ok(h: crate::record::HeaderV, es: Seq<(u64, ItemV)>) -> bool {
    &&& has_field(es, 1, enc_uint(h.version as nat))
    &&& has_field(es, 2, enc_int(h.time as int))
    &&& has_field(es, 3, enc_text(h.id))
    &&& has_field(es, 0, enc_uint(crate::markers::spec_context_value(h.cxt) as nat))
    &&& has_field(es, 4, enc_uint(h.pid as nat))
}

/// Parse the body of a header record at `pos`: a map whose recognized keys
/// may come in any order; entries under unrecognized keys are skipped.
#[verifier::rlimit(100)]
fn decode_header_body(b: &Vec<u8>, pos: usize) -> (r: Option<(crate::record::Header, usize)>)
    requires
        pos <= b@.len(),
    ensures
        r matches Some(t) ==> pos < t.1 <= b@.len() && header_body_sound(
            b@,
            pos as int,
            t.1 as int,
            t.0@,
        ),
        forall|h: crate::record::HeaderV, es: Seq<(u64, ItemV)>, rest: Seq<u8>|
            header_fields_ok(h, es) && b@.subrange(pos as int, b@.len() as int) == record_map_bytes(
                es,
            ) + rest ==> (match r {
                Some(t) => t.0@ == h && t.1 == pos + record_map_bytes(es).len(),
                None => false,
            }),
{
    let blen_x = b.len();
    let r: Option<(crate::record::Header, usize)> = match parse_head(b, pos) {
        None => None,
        Some((m0, cnt, p0)) => {
            if m0 != 5 {
                None
            } else {
                match scan_entries(b, p0, cnt) {
                    None => None,
                    Some((entries, pend)) => {
                        proof {
                            assert forall|es: Seq<(u64, ItemV)>, key: u64, val: Seq<u8>|
                                entries_aligned(b@, entries@, es) && has_field(
                                    es,
                                    key,
                                    val,
                                ) implies entry_is(b@, entries@, key, val) by {
                                lemma_entry_transfer(b@, entries@, es, key, val);
                            }
                        }
                        let version = field_u32(b, &entries, 1);
                        let time = field_i64(b, &entries, 2);
                        let id = field_text(b, &entries, 3);
                        let cxt_v = field_u32(b, &entries, 0);
                        let pid = field_u32(b, &entries, 4);
                        match (version, time, id, cxt_v, pid) {
                            (Some(version), Some(time), Some(id), Some(cv), Some(pid)) => {
                                match context_from_id(cv) {
                                    Some(cxt) => {
                                        let h = crate::record::Header {
                                            required: crate::record::Common { version },
                                            time,
                                            id,
                                            pid,
                                            cxt,
                                        };
                                        proof {
                                            assert(map_scan_sound(
                                                b@,
                                                pos as int,
                                                pend as int,
                                                entries@,
                                            ));
                                            assert(header_body_sound(
                                                b@,
                                                pos as int,
                                                pend as int,
                                                h@,
                                            ));
                                        }
                                        Some((h, pend))
                                    },
                                    None => None,
                                }
                            },
                            _ => None,
                        }
                    },
                }
            }
        },
    };
    proof {
        assert forall|h: crate::record::HeaderV, es: Seq<(u64, ItemV)>, rest: Seq<u8>|
            header_fields_ok(h, es) && b@.subrange(pos as int, b@.len() as int) == record_map_bytes(
                es,
            ) + rest implies (match r {
            Some(t) => t.0@ == h && t.1 == pos + record_map_bytes(es).len(),
            None => false,
        }) by {
            let h0 = cbor_head(5, es.len());
            assert(record_map_bytes(es) + rest =~= h0 + (entries_bytes(es) + rest));
            lemma_take_piece(b@, pos as int, h0, entries_bytes(es) + rest);
            lemma_entries_len(es);
            assert(b@.len() == blen_x);
            assert(cbor_head(5u8, (es.len() as u64) as nat) == h0);
            lemma_take_piece(b@, pos + h0.len(), entries_bytes(es), rest);
        }
    }
    r
}

/// Read the error payload under `key`: a three-element array of time, kind
/// id and message.
fn field_error(b: &Vec<u8>, entries: &Vec<(u64, usize, usize)>, key: u64) -> (r: Option<
    (i64, u32, String),
>)
    requires
        forall|i: int| 0 <= i < entries@.len() ==> (#[trigger] entries@[i]).1 <= b@.len(),
    ensures
        forall|t: i64, kid: u32, m: Seq<char>|
            entry_is(
                b@,
                entries@,
                key,
                cbor_head(4, 3) + enc_int(t as int) + enc_uint(kid as nat) + enc_text(m),
            ) ==> (match r {
                Some(x) => x.0 == t && x.1 == kid && x.2@ == m,
                None => false,
            }),
        r matches Some(x) ==> entry_is(
            b@,
            entries@,
            key,
            cbor_head(4, 3) + enc_int(x.0 as int) + enc_uint(x.1 as nat) + enc_text(x.2@),
        ),
{
    let r = match get_field(entries, key) {
        None => None,
        Some((vs, ve)) => match parse_head(b, vs) {
            Some((m0, n, p1)) => {
                if !(m0 == 4 && n == 3) {
                    None
                } else {
                    match parse_int(b, p1) {
                        None => None,
                        Some((t, p2)) => match parse_u32(b, p2) {
                            None => None,
                            Some((kid, p3)) => match parse_text(b, p3) {
                                None => None,
                                Some((msg, p4)) => {
                                    if p4 == ve {
                                        proof {
                                            lemma_join_pieces(b@, vs as int, p1 as int, p2 as int);
                                            lemma_join_pieces(b@, vs as int, p2 as int, p3 as int);
                                            lemma_join_pieces(b@, vs as int, p3 as int, p4 as int);
                                        }
                                        Some((t, kid, msg))
                                    } else {
                                        None
                                    }
                                },
                            },
                        },
                    }
                }
            },
            None => None,
        },
    };
    proof {
        assert forall|t: i64, kid: u32, m: Seq<char>|
            entry_is(
                b@,
                entries@,
                key,
                cbor_head(4, 3) + enc_int(t as int) + enc_uint(kid as nat) + enc_text(m),
            ) implies (match r {
            Some(x) => x.0 == t && x.1 == kid && x.2@ == m,
            None => false,
        }) by {
            let val = cbor_head(4, 3) + enc_int(t as int) + enc_uint(kid as nat) + enc_text(m);
            let i = choose|i: int|
                0 <= i < entries@.len() && (#[trigger] entries@[i]).0 == key && entries@[i].1
                    <= entries@[i].2 <= b@.len() && b@.subrange(
                    entries@[i].1 as int,
                    entries@[i].2 as int,
                ) == val && (forall|j: int|
                    0 <= j < entries@.len() && j != i ==> (#[trigger] entries@[j]).0 != key);
            let vs = entries@[i].1 as int;
            lemma_join_pieces(b@, vs, entries@[i].2 as int, b@.len() as int);
            let after = b@.subrange(entries@[i].2 as int, b@.len() as int);
            assert(val + after =~= cbor_head(4, 3) + (enc_int(t as int) + (enc_uint(kid as nat) + (
            enc_text(m) + after))));
            lemma_take_piece(
                b@,
                vs,
                cbor_head(4, 3),
                enc_int(t as int) + (enc_uint(kid as nat) + (enc_text(m) + after)),
            );
            assert(cbor_head(4u8, 3u64 as nat) == cbor_head(4, 3));
            lemma_take_piece(
                b@,
                vs + cbor_head(4, 3).len(),
                enc_int(t as int),
                enc_uint(kid as nat) + (enc_text(m) + after),
            );
            lemma_take_piece(
                b@,
                vs + cbor_head(4, 3).len() + enc_int(t as int).len(),
                enc_uint(kid as nat),
                enc_text(m) + after,
            );
        }
    }
    r
}

/// The field hypothesis of a data body: version, time, id, pid, context and
/// payload each appear exactly once; unrecognized keys are ignored.
pub open spec fn data_fields_ok(d: crate::record::DataV, es: Seq<(u64, ItemV)>) -> bool {
    &&& has_field(es, 1, enc_uint(d.version as nat))
    &&& has_field(es, 2, enc_int(d.time as int))
    &&& has_field(es, 3, enc_text(d.id))
    &&& has_field(es, 4, enc_uint(d.pid as nat))
    &&& has_field(es, 0, enc_uint(crate::markers::spec_context_value(d.cxt) as nat))
    &&& has_field(es, 5, enc_text(d.data))
}

/// Parse the body of a data record at `pos`: a map whose recognized keys may
/// come in any order; entries under unrecognized keys are skipped.
#[verifier::rlimit(100)]
fn decode_data_body(b: &Vec<u8>, pos: usize) -> (r: Option<(crate::record::Data, usize)>)
    requires
        pos <= b@.len(),
    ensures
        r matches Some(t) ==> pos < t.1 <= b@.len() && data_body_sound(
            b@,
            pos as int,
            t.1 as int,
            t.0@,
        ),
        forall|d: crate::record::DataV, es: Seq<(u64, ItemV)>, rest: Seq<u8>|
            data_fields_ok(d, es) && b@.subrange(pos as int, b@.len() as int) == record_map_bytes(
                es,
            ) + rest ==> (match r {
                Some(t) => t.0@ == d && t.1 == pos + record_map_bytes(es).len(),
                None => false,
            }),
{
    let blen_x = b.len();
    let r: Option<(crate::record::Data, usize)> = match parse_head(b, pos) {
        None => None,
        Some((m0, cnt, p0)) => {
            if m0 != 5 {
                None
            } else {
                match scan_entries(b, p0, cnt) {
                    None => None,
                    Some((entries, pend)) => {
                        proof {
                            assert forall|es: Seq<(u64, ItemV)>, key: u64, val: Seq<u8>|
                                entries_aligned(b@, entries@, es) && has_field(
                                    es,
                                    key,
                                    val,
                                ) implies entry_is(b@, entries@, key, val) by {
                                lemma_entry_transfer(b@, entries@, es, key, val);
                            }
                        }
                        let version = field_u32(b, &entries, 1);
                        let time = field_i64(b, &entries, 2);
                        let id = field_text(b, &entries, 3);
                        let pid = field_u32(b, &entries, 4);
                        let cxt_v = field_u32(b, &entries, 0);
                        let data = field_text(b, &entries, 5);
                        match (version, time, id, pid, cxt_v, data) {
                            (
                                Some(version),
                                Some(time),
                                Some(id),
                                Some(pid),
                                Some(cv),
                                Some(data),
                            ) => {
                                match context_from_id(cv) {
                                    Some(cxt) => {
                                        let d = crate::record::Data {
                                            required: crate::record::Common { version },
                                            time,
                                            id,
                                            pid,
                                            cxt,
                                            data,
                                        };
                                        proof {
                                            assert(map_scan_sound(
                                                b@,
                                                pos as int,
                                                pend as int,
                                                entries@,
                                            ));
                                            assert(data_body_sound(
                                                b@,
                                                pos as int,
                                                pend as int,
                                                d@,
                                            ));
                                        }
                                        Some((d, pend))
                                    },
                                    None => None,
                                }
                            },
                            _ => None,
                        }
                    },
                }
            }
        },
    };
    proof {
        assert forall|d: crate::record::DataV, es: Seq<(u64, ItemV)>, rest: Seq<u8>|
            data_fields_ok(d, es) && b@.subrange(pos as int, b@.len() as int) == record_map_bytes(
                es,
            ) + rest implies (match r {
            Some(t) => t.0@ == d && t.1 == pos + record_map_bytes(es).len(),
            None => false,
        }) by {
            let h0 = cbor_head(5, es.len());
            assert(record_map_bytes(es) + rest =~= h0 + (entries_bytes(es) + rest));
            lemma_take_piece(b@, pos as int, h0, entries_bytes(es) + rest);
            lemma_entries_len(es);
            assert(b@.len() == blen_x);
            assert(cbor_head(5u8, (es.len() as u64) as nat) == h0);
            lemma_take_piece(b@, pos + h0.len(), entries_bytes(es), rest);
        }
    }
    r
}

/// The field hypothesis of a log body: version and message each appear
/// exactly once; unrecognized keys are ignored.
pub open spec fn log_fields_ok(version: u32, log: Seq<char>, es: Seq<(u64, ItemV)>) -> bool {
    &&& has_field(es, 1, enc_uint(version as nat))
    &&& has_field(es, 6, enc_text(log))
}

/// Parse the body of a log record at `pos`: a map whose recognized keys may
/// come in any order; entries under unrecognized keys are skipped.
#[verifier::rlimit(100)]
fn decode_log_body(b: &Vec<u8>, pos: usize) -> (r: Option<(crate::record::Log, usize)>)
    requires
        pos <= b@.len(),
    ensures
        r matches Some(t) ==> pos < t.1 <= b@.len() && log_body_sound(
            b@,
            pos as int,
            t.1 as int,
            t.0.required.version,
            t.0.log@,
        ),
        forall|version: u32, log: Seq<char>, es: Seq<(u64, ItemV)>, rest: Seq<u8>|
            log_fields_ok(version, log, es) && b@.subrange(pos as int, b@.len() as int)
                == record_map_bytes(es) + rest ==> (match r {
                Some(t) => t.0.required.version == version && t.0.log@ == log && t.1 == pos
                    + record_map_bytes(es).len(),
                None => false,
            }),
{
    let blen_x = b.len();
    let r: Option<(crate::record::Log, usize)> = match parse_head(b, pos) {
        None => None,
        Some((m0, cnt, p0)) => {
            if m0 != 5 {
                None
            } else {
                match scan_entries(b, p0, cnt) {
                    None => None,
                    Some((entries, pend)) => {
                        proof {
                            assert forall|es: Seq<(u64, ItemV)>, key: u64, val: Seq<u8>|
                                entries_aligned(b@, entries@, es) && has_field(
                                    es,
                                    key,
                                    val,
                                ) implies entry_is(b@, entries@, key, val) by {
                                lemma_entry_transfer(b@, entries@, es, key, val);
                            }
                        }
                        let version = field_u32(b, &entries, 1);
                        let log = field_text(b, &entries, 6);
                        match (version, log) {
                            (Some(version), Some(log)) => {
                                let l = crate::record::Log {
                                    required: crate::record::Common { version },
                                    log,
                                };
                                proof {
                                    assert(map_scan_sound(b@, pos as int, pend as int, entries@));
                                    assert(log_body_sound(
                                        b@,
                                        pos as int,
                                        pend as int,
                                        l.required.version,
                                        l.log@,
                                    ));
                                }
                                Some((l, pend))
                            },
                            _ => None,
                        }
                    },
                }
            }
        },
    };
    proof {
        assert forall|version: u32, log: Seq<char>, es: Seq<(u64, ItemV)>, rest: Seq<u8>|
            log_fields_ok(version, log, es) && b@.subrange(pos as int, b@.len() as int)
                == record_map_bytes(es) + rest implies (match r {
            Some(t) => t.0.required.version == version && t.0.log@ == log && t.1 == pos
                + record_map_bytes(es).len(),
            None => false,
        }) by {
            let h0 = cbor_head(5, es.len());
            assert(record_map_bytes(es) + rest =~= h0 + (entries_bytes(es) + rest));
            lemma_take_piece(b@, pos as int, h0, entries_bytes(es) + rest);
            lemma_entries_len(es);
            assert(b@.len() == blen_x);
            assert(cbor_head(5u8, (es.len() as u64) as nat) == h0);
            lemma_take_piece(b@, pos + h0.len(), entries_bytes(es), rest);
        }
    }
    r
}

/// The field hypothesis of an error body: version and the error payload each
/// appear exactly once; unrecognized keys are ignored.
pub open spec fn error_fields_ok(
    version: u32,
    e: crate::record::CrateErrorV,
    es: Seq<(u64, ItemV)>,
) -> bool {
    &&& has_field(es, 1, enc_uint(version as nat))
    &&& has_field(
        es,
        7,
        cbor_head(4, 3) + enc_int(e.time as int) + enc_uint(crate::record::spec_kind_id(e.kind) as nat)
            + enc_text(e.msg),
    )
}

/// The error kind of the given wire id.
fn kind_from_id(v: u32) -> (r: Option<crate::record::Kind>)
    ensures
        r is Some <==> v == 0,
        r matches Some(k) ==> crate::record::spec_kind_id(k) == v,
{
    if v == 0 {
        Some(crate::record::Kind::Generic)
    } else {
        None
    }
}

/// Parse the body of an error record at `pos`: a map whose recognized keys
/// may come in any order; entries under unrecognized keys are skipped.
#[verifier::rlimit(100)]
fn decode_error_body(b: &Vec<u8>, pos: usize) -> (r: Option<(
    (u32, crate::record::CrateError),
    usize,
)>)
    requires
        pos <= b@.len(),
    ensures
        r matches Some(t) ==> pos < t.1 <= b@.len() && error_body_sound(
            b@,
            pos as int,
            t.1 as int,
            t.0.0,
            t.0.1@,
        ),
        forall|version: u32, e: crate::record::CrateErrorV, es: Seq<(u64, ItemV)>, rest: Seq<u8>|
            error_fields_ok(version, e, es) && b@.subrange(pos as int, b@.len() as int)
                == record_map_bytes(es) + rest ==> (match r {
                Some(t) => t.0.0 == version && t.0.1@ == e && t.1 == pos + record_map_bytes(
                    es,
                ).len(),
                None => false,
            }),
{
    let blen_x = b.len();
    let r: Option<((u32, crate::record::CrateError), usize)> = match parse_head(b, pos) {
        None => None,
        Some((m0, cnt, p0)) => {
            if m0 != 5 {
                None
            } else {
                match scan_entries(b, p0, cnt) {
                    None => None,
                    Some((entries, pend)) => {
                        proof {
                            assert forall|es: Seq<(u64, ItemV)>, key: u64, val: Seq<u8>|
                                entries_aligned(b@, entries@, es) && has_field(
                                    es,
                                    key,
                                    val,
                                ) implies entry_is(b@, entries@, key, val) by {
                                lemma_entry_transfer(b@, entries@, es, key, val);
                            }
                        }
                        let version = field_u32(b, &entries, 1);
                        let payload = field_error(b, &entries, 7);
                        match (version, payload) {
                            (Some(version), Some((time, kid, msg))) => match kind_from_id(kid) {
                                Some(kind) => {
                                    let err = crate::record::CrateError::new(
                                        time,
                                        Some(kind),
                                        msg,
                                    );
                                    proof {
                                        assert(map_scan_sound(
                                            b@,
                                            pos as int,
                                            pend as int,
                                            entries@,
                                        ));
                                        assert(error_body_sound(
                                            b@,
                                            pos as int,
                                            pend as int,
                                            version,
                                            err@,
                                        ));
                                    }
                                    Some(((version, err), pend))
                                },
                                None => None,
                            },
                            _ => None,
                        }
                    },
                }
            }
        },
    };
    proof {
        assert forall|version: u32, e: crate::record::CrateErrorV, es: Seq<(u64, ItemV)>, rest: Seq<
            u8,
        >|
            error_fields_ok(version, e, es) && b@.subrange(pos as int, b@.len() as int)
                == record_map_bytes(es) + rest implies (match r {
            Some(t) => t.0.0 == version && t.0.1@ == e && t.1 == pos + record_map_bytes(es).len(),
            None => false,
        }) by {
            let h0 = cbor_head(5, es.len());
            assert(record_map_bytes(es) + rest =~= h0 + (entries_bytes(es) + rest));
            lemma_take_piece(b@, pos as int, h0, entries_bytes(es) + rest);
            lemma_entries_len(es);
            assert(b@.len() == blen_x);
            assert(cbor_head(5u8, (es.len() as u64) as nat) == h0);
            lemma_take_piece(b@, pos + h0.len(), entries_bytes(es), rest);
        }
    }
    r
}

// ---------------------------------------------------------------------------
// The canonical entries of each body
// ---------------------------------------------------------------------------

/// The entry list the encoder writes for a header body.
pub open spec fn canon_header_entries(h: crate::record::HeaderV) -> Seq<(u64, ItemV)> {
    seq![
        (1u64, ItemV::UInt(h.version as u64)),
        (2u64, ItemV::SInt(h.time)),
        (3u64, ItemV::Text(h.id)),
        (0u64, ItemV::UInt(crate::markers::spec_context_value(h.cxt) as u64)),
        (4u64, ItemV::UInt(h.pid as u64)),
    ]
}

/// The canonical header entries satisfy the field hypothesis and encode to
/// the canonical header body.
#[verifier::rlimit(100)]
proof fn lemma_header_canonical(h: crate::record::HeaderV)
    ensures
        header_fields_ok(h, canon_header_entries(h)),
        record_map_bytes(canon_header_entries(h)) == header_body(h),
{
    let es = canon_header_entries(h);
    lemma_canon_fields(es);
    let t1 = es.drop_first();
    let t2 = t1.drop_first();
    let t3 = t2.drop_first();
    let t4 = t3.drop_first();
    let t5 = t4.drop_first();
    assert(t5 =~= Seq::<(u64, ItemV)>::empty());
    assert(entries_bytes(t5) == Seq::<u8>::empty());
    assert(es[0] == es[0]);
    assert(t1[0] == es[1]);
    assert(t2[0] == es[2]);
    assert(t3[0] == es[3]);
    assert(t4[0] == es[4]);
    assert(entries_bytes(t4) == entry_bytes(t4[0]) + entries_bytes(t5));
    assert(entries_bytes(t3) == entry_bytes(t3[0]) + entries_bytes(t4));
    assert(entries_bytes(t2) == entry_bytes(t2[0]) + entries_bytes(t3));
    assert(entries_bytes(t1) == entry_bytes(t1[0]) + entries_bytes(t2));
    assert(entries_bytes(es) == entry_bytes(es[0]) + entries_bytes(t1));
    assert(record_map_bytes(es) =~= header_body(h));
}

/// The entry list the encoder writes for a data body.
pub open spec fn canon_data_entries(d: crate::record::DataV) -> Seq<(u64, ItemV)> {
    seq![
        (1u64, ItemV::UInt(d.version as u64)),
        (2u64, ItemV::SInt(d.time)),
        (3u64, ItemV::Text(d.id)),
        (4u64, ItemV::UInt(d.pid as u64)),
        (0u64, ItemV::UInt(crate::markers::spec_context_value(d.cxt) as u64)),
        (5u64, ItemV::Text(d.data)),
    ]
}

/// The canonical data entries satisfy the field hypothesis and encode to the
/// canonical data body.
#[verifier::rlimit(100)]
proof fn lemma_data_canonical(d: crate::record::DataV)
    ensures
        data_fields_ok(d, canon_data_entries(d)),
        record_map_bytes(canon_data_entries(d)) == data_body(d),
{
    let es = canon_data_entries(d);
    lemma_canon_fields(es);
    let t1 = es.drop_first();
    let t2 = t1.drop_first();
    let t3 = t2.drop_first();
    let t4 = t3.drop_first();
    let t5 = t4.drop_first();
    let t6 = t5.drop_first();
    assert(t6 =~= Seq::<(u64, ItemV)>::empty());
    assert(entries_bytes(t6) == Seq::<u8>::empty());
    assert(es[0] == es[0]);
    assert(t1[0] == es[1]);
    assert(t2[0] == es[2]);
    assert(t3[0] == es[3]);
    assert(t4[0] == es[4]);
    assert(t5[0] == es[5]);
    assert(entries_bytes(t5) == entry_bytes(t5[0]) + entries_bytes(t6));
    assert(entries_bytes(t4) == entry_bytes(t4[0]) + entries_bytes(t5));
    assert(entries_bytes(t3) == entry_bytes(t3[0]) + entries_bytes(t4));
    assert(entries_bytes(t2) == entry_bytes(t2[0]) + entries_bytes(t3));
    assert(entries_bytes(t1) == entry_bytes(t1[0]) + entries_bytes(t2));
    assert(entries_bytes(es) == entry_bytes(es[0]) + entries_bytes(t1));
    assert(record_map_bytes(es) =~= data_body(d));
}

/// The entry list the encoder writes for a log body.
pub open spec fn canon_log_entries(version: u32, log: Seq<char>) -> Seq<(u64, ItemV)> {
    seq![(1u64, ItemV::UInt(version as u64)), (6u64, ItemV::Text(log))]
}

/// The canonical log entries satisfy the field hypothesis and encode to the
/// canonical log body.
#[verifier::rlimit(100)]
proof fn lemma_log_canonical(version: u32, log: Seq<char>)
    ensures
        log_fields_ok(version, log, canon_log_entries(version, log)),
        record_map_bytes(canon_log_entries(version, log)) == log_body(version, log),
{
    let es = canon_log_entries(version, log);
    lemma_canon_fields(es);
    let t1 = es.drop_first();
    let t2 = t1.drop_first();
    assert(t2 =~= Seq::<(u64, ItemV)>::empty());
    assert(entries_bytes(t2) == Seq::<u8>::empty());
    assert(es[0] == es[0]);
    assert(t1[0] == es[1]);
    assert(entries_bytes(t1) == entry_bytes(t1[0]) + entries_bytes(t2));
    assert(entries_bytes(es) == entry_bytes(es[0]) + entries_bytes(t1));
    assert(record_map_bytes(es) =~= log_body(version, log));
}

/// The entry list the encoder writes for an error body.
pub open spec fn canon_error_entries(version: u32, e: crate::record::CrateErrorV) -> Seq<
    (u64, ItemV),
> {
    seq![
        (1u64, ItemV::UInt(version as u64)),
        (
            7u64,
            ItemV::Array(
                seq![
                    ItemV::SInt(e.time),
                    ItemV::UInt(crate::record::spec_kind_id(e.kind) as u64),
                    ItemV::Text(e.msg),
                ],
            ),
        ),
    ]
}

/// The canonical error entries satisfy the field hypothesis and encode to
/// the canonical error body.
#[verifier::rlimit(100)]
proof fn lemma_error_canonical(version: u32, e: crate::record::CrateErrorV)
    ensures
        error_fields_ok(version, e, canon_error_entries(version, e)),
        record_map_bytes(canon_error_entries(version, e)) == error_body(version, e),
{
    let es = canon_error_entries(version, e);
    lemma_canon_fields(es);
    let arr = seq![
        ItemV::SInt(e.time),
        ItemV::UInt(crate::record::spec_kind_id(e.kind) as u64),
        ItemV::Text(e.msg),
    ];
    let a1 = arr.drop_first();
    let a2 = a1.drop_first();
    let a3 = a2.drop_first();
    assert(a3 =~= Seq::<ItemV>::empty());
    assert(items_bytes(a3) == Seq::<u8>::empty());
    assert(a1[0] == arr[1]);
    assert(a2[0] == arr[2]);
    assert(items_bytes(a2) == item_bytes(a2[0]) + items_bytes(a3));
    assert(items_bytes(a1) == item_bytes(a1[0]) + items_bytes(a2));
    assert(items_bytes(arr) == item_bytes(arr[0]) + items_bytes(a1));
    assert(item_bytes(es[1].1) =~= cbor_head(4, 3) + enc_int(e.time as int) + enc_uint(
        crate::record::spec_kind_id(e.kind) as nat,
    ) + enc_text(e.msg));
    let t1 = es.drop_first();
    let t2 = t1.drop_first();
    assert(t2 =~= Seq::<(u64, ItemV)>::empty());
    assert(entries_bytes(t2) == Seq::<u8>::empty());
    assert(es[0] == es[0]);
    assert(t1[0] == es[1]);
    assert(entries_bytes(t1) == entry_bytes(t1[0]) + entries_bytes(t2));
    assert(entries_bytes(es) == entry_bytes(es[0]) + entries_bytes(t1));
    assert(record_map_bytes(es) =~= error_body(version, e));
}

/// In each canonical entry list the keys are pairwise distinct, so every
/// recognized field appears exactly once.
proof fn lemma_canon_fields(es: Seq<(u64, ItemV)>)
    requires
        forall|i: int, j: int| 0 <= i < j < es.len() ==> (#[trigger] es[i]).0 != (#[trigger] es[j]).0,
    ensures
        forall|i: int|
            0 <= i < es.len() ==> has_field(es, (#[trigger] es[i]).0, item_bytes(es[i].1)),
{
    assert forall|i: int| 0 <= i < es.len() implies has_field(
        es,
        (#[trigger] es[i]).0,
        item_bytes(es[i].1),
    ) by {
        assert forall|j: int| 0 <= j < es.len() && j != i implies (#[trigger] es[j]).0 != es[i].0 by {
            if j < i {
                assert(es[j].0 != es[i].0);
            }
        }
    }
}

#[verifier::rlimit(100)]
proof fn complete_env_stream_start(b: Seq<u8>)
    requires
        b == rec_bytes(crate::record::RecordV::StreamStart),
    ensures
        b.len() == cbor_head(5, 1).len() + enc_text("t"@).len() + enc_text("ss"@).len(),
        cbor_head(5u8, 1u64 as nat) == cbor_head(5, 1),
        cbor_head(5, 1).len() <= b.len() && b.subrange(0, cbor_head(5, 1).len() as int) == cbor_head(5, 1),
        b.subrange((cbor_head(5, 1).len()) as int, b.len() as int) == enc_text("t"@) + (enc_text("ss"@)),
        b.subrange((cbor_head(5, 1).len() + enc_text("t"@).len()) as int, b.len() as int) == enc_text("ss"@) + Seq::<u8>::empty(),
{
    let e0 = cbor_head(5, 1);
    let e1 = enc_text("t"@);
    let e2 = enc_text("ss"@);
    let empty: Seq<u8> = Seq::empty();
    let t2 = e2 + empty;
    let t1 = e1 + t2;
    assert(b.subrange(0, b.len() as int) =~= b);
    assert(b.subrange(0, b.len() as int) =~= e0 + t1);
    lemma_take_piece(b, 0, e0, t1);
    let q1: int = e0.len() as int;
    lemma_take_piece(b, q1, e1, t2);
    let q2 = q1 + e1.len();
    lemma_take_piece(b, q2, e2, empty);
}

#[verifier::rlimit(100)]
proof fn complete_env_stream_end(b: Seq<u8>)
    requires
        b == rec_bytes(crate::record::RecordV::StreamEnd),
    ensures
        b.len() == cbor_head(5, 1).len() + enc_text("t"@).len() + enc_text("se"@).len(),
        cbor_head(5u8, 1u64 as nat) == cbor_head(5, 1),
        cbor_head(5, 1).len() <= b.len() && b.subrange(0, cbor_head(5, 1).len() as int) == cbor_head(5, 1),
        b.subrange((cbor_head(5, 1).len()) as int, b.len() as int) == enc_text("t"@) + (enc_text("se"@)),
        b.subrange((cbor_head(5, 1).len() + enc_text("t"@).len()) as int, b.len() as int) == enc_text("se"@) + Seq::<u8>::empty(),
{
    let e0 = cbor_head(5, 1);
    let e1 = enc_text("t"@);
    let e2 = enc_text("se"@);
    let empty: Seq<u8> = Seq::empty();
    let t2 = e2 + empty;
    let t1 = e1 + t2;
    assert(b.subrange(0, b.len() as int) =~= b);
    assert(b.subrange(0, b.len() as int) =~= e0 + t1);
    lemma_take_piece(b, 0, e0, t1);
    let q1: int = e0.len() as int;
    lemma_take_piece(b, q1, e1, t2);
    let q2 = q1 + e1.len();
    lemma_take_piece(b, q2, e2, empty);
}

#[verifier::rlimit(100)]
proof fn complete_env_header(b: Seq<u8>, h: crate::record::HeaderV)
    requires
        b == rec_bytes(crate::record::RecordV::Header(h)),
    ensures
        b.len() == cbor_head(5, 2).len() + enc_text("t"@).len() + enc_text("h"@).len() + enc_text("c"@).len() + header_body(h).len(),
        cbor_head(5u8, 2u64 as nat) == cbor_head(5, 2),
        cbor_head(5, 2).len() <= b.len() && b.subrange(0, cbor_head(5, 2).len() as int) == cbor_head(5, 2),
        b.subrange((cbor_head(5, 2).len()) as int, b.len() as int) == enc_text("t"@) + (enc_text("h"@) + (enc_text("c"@) + (header_body(h)))),
        b.subrange((cbor_head(5, 2).len() + enc_text("t"@).len()) as int, b.len() as int) == enc_text("h"@) + (enc_text("c"@) + (header_body(h))),
        b.subrange((cbor_head(5, 2).len() + enc_text("t"@).len() + enc_text("h"@).len()) as int, b.len() as int) == enc_text("c"@) + (header_body(h)),
        b.subrange((cbor_head(5, 2).len() + enc_text("t"@).len() + enc_text("h"@).len() + enc_text("c"@).len()) as int, b.len() as int) == header_body(h) + Seq::<u8>::empty(),
{
    let e0 = cbor_head(5, 2);
    let e1 = enc_text("t"@);
    let e2 = enc_text("h"@);
    let e3 = enc_text("c"@);
    let e4 = header_body(h);
    let empty: Seq<u8> = Seq::empty();
    let t4 = e4 + empty;
    let t3 = e3 + t4;
    let t2 = e2 + t3;
    let t1 = e1 + t2;
    assert(b.subrange(0, b.len() as int) =~= b);
    assert(b.subrange(0, b.len() as int) =~= e0 + t1);
    lemma_take_piece(b, 0, e0, t1);
    let q1: int = e0.len() as int;
    lemma_take_piece(b, q1, e1, t2);
    let q2 = q1 + e1.len();
    lemma_take_piece(b, q2, e2, t3);
    let q3 = q2 + e2.len();
    lemma_take_piece(b, q3, e3, t4);
    let q4 = q3 + e3.len();
    lemma_take_piece(b, q4, e4, empty);
}

#[verifier::rlimit(100)]
proof fn complete_env_data(b: Seq<u8>, d: crate::record::DataV)
    requires
        b == rec_bytes(crate::record::RecordV::Data(d)),
    ensures
        b.len() == cbor_head(5, 2).len() + enc_text("t"@).len() + enc_text("d"@).len() + enc_text("c"@).len() + data_body(d).len(),
        cbor_head(5u8, 2u64 as nat) == cbor_head(5, 2),
        cbor_head(5, 2).len() <= b.len() && b.subrange(0, cbor_head(5, 2).len() as int) == cbor_head(5, 2),
        b.subrange((cbor_head(5, 2).len()) as int, b.len() as int) == enc_text("t"@) + (enc_text("d"@) + (enc_text("c"@) + (data_body(d)))),
        b.subrange((cbor_head(5, 2).len() + enc_text("t"@).len()) as int, b.len() as int) == enc_text("d"@) + (enc_text("c"@) + (data_body(d))),
        b.subrange((cbor_head(5, 2).len() + enc_text("t"@).len() + enc_text("d"@).len()) as int, b.len() as int) == enc_text("c"@) + (data_body(d)),
        b.subrange((cbor_head(5, 2).len() + enc_text("t"@).len() + enc_text("d"@).len() + enc_text("c"@).len()) as int, b.len() as int) == data_body(d) + Seq::<u8>::empty(),
{
    let e0 = cbor_head(5, 2);
    let e1 = enc_text("t"@);
    let e2 = enc_text("d"@);
    let e3 = enc_text("c"@);
    let e4 = data_body(d);
    let empty: Seq<u8> = Seq::empty();
    let t4 = e4 + empty;
    let t3 = e3 + t4;
    let t2 = e2 + t3;
    let t1 = e1 + t2;
    assert(b.subrange(0, b.len() as int) =~= b);
    assert(b.subrange(0, b.len() as int) =~= e0 + t1);
    lemma_take_piece(b, 0, e0, t1);
    let q1: int = e0.len() as int;
    lemma_take_piece(b, q1, e1, t2);
    let q2 = q1 + e1.len();
    lemma_take_piece(b, q2, e2, t3);
    let q3 = q2 + e2.len();
    lemma_take_piece(b, q3, e3, t4);
    let q4 = q3 + e3.len();
    lemma_take_piece(b, q4, e4, empty);
}

#[verifier::rlimit(100)]
proof fn complete_env_log(b: Seq<u8>, version: u32, log: Seq<char>)
    requires
        b == rec_bytes(crate::record::RecordV::Log(version, log)),
    ensures
        b.len() == cbor_head(5, 2).len() + enc_text("t"@).len() + enc_text("l"@).len() + enc_text("c"@).len() + log_body(version, log).len(),
        cbor_head(5u8, 2u64 as nat) == cbor_head(5, 2),
        cbor_head(5, 2).len() <= b.len() && b.subrange(0, cbor_head(5, 2).len() as int) == cbor_head(5, 2),
        b.subrange((cbor_head(5, 2).len()) as int, b.len() as int) == enc_text("t"@) + (enc_text("l"@) + (enc_text("c"@) + (log_body(version, log)))),
        b.subrange((cbor_head(5, 2).len() + enc_text("t"@).len()) as int, b.len() as int) == enc_text("l"@) + (enc_text("c"@) + (log_body(version, log))),
        b.subrange((cbor_head(5, 2).len() + enc_text("t"@).len() + enc_text("l"@).len()) as int, b.len() as int) == enc_text("c"@) + (log_body(version, log)),
        b.subrange((cbor_head(5, 2).len() + enc_text("t"@).len() + enc_text("l"@).len() + enc_text("c"@).len()) as int, b.len() as int) == log_body(version, log) + Seq::<u8>::empty(),
{
    let e0 = cbor_head(5, 2);
    let e1 = enc_text("t"@);
    let e2 = enc_text("l"@);
    let e3 = enc_text("c"@);
    let e4 = log_body(version, log);
    let empty: Seq<u8> = Seq::empty();
    let t4 = e4 + empty;
    let t3 = e3 + t4;
    let t2 = e2 + t3;
    let t1 = e1 + t2;
    assert(b.subrange(0, b.len() as int) =~= b);
    assert(b.subrange(0, b.len() as int) =~= e0 + t1);
    lemma_take_piece(b, 0, e0, t1);
    let q1: int = e0.len() as int;
    lemma_take_piece(b, q1, e1, t2);
    let q2 = q1 + e1.len();
    lemma_take_piece(b, q2, e2, t3);
    let q3 = q2 + e2.len();
    lemma_take_piece(b, q3, e3, t4);
    let q4 = q3 + e3.len();
    lemma_take_piece(b, q4, e4, empty);
}

#[verifier::rlimit(100)]
proof fn complete_env_error(b: Seq<u8>, version: u32, e: crate::record::CrateErrorV)
    requires
        b == rec_bytes(crate::record::RecordV::Error(version, e)),
    ensures
        b.len() == cbor_head(5, 2).len() + enc_text("t"@).len() + enc_text("e"@).len() + enc_text("c"@).len() + error_body(version, e).len(),
        cbor_head(5u8, 2u64 as nat) == cbor_head(5, 2),
        cbor_head(5, 2).len() <= b.len() && b.subrange(0, cbor_head(5, 2).len() as int) == cbor_head(5, 2),
        b.subrange((cbor_head(5, 2).len()) as int, b.len() as int) == enc_text("t"@) + (enc_text("e"@) + (enc_text("c"@) + (error_body(version, e)))),
        b.subrange((cbor_head(5, 2).len() + enc_text("t"@).len()) as int, b.len() as int) == enc_text("e"@) + (enc_text("c"@) + (error_body(version, e))),
        b.subrange((cbor_head(5, 2).len() + enc_text("t"@).len() + enc_text("e"@).len()) as int, b.len() as int) == enc_text("c"@) + (error_body(version, e)),
        b.subrange((cbor_head(5, 2).len() + enc_text("t"@).len() + enc_text("e"@).len() + enc_text("c"@).len()) as int, b.len() as int) == error_body(version, e) + Seq::<u8>::empty(),
{
    let e0 = cbor_head(5, 2);
    let e1 = enc_text("t"@);
    let e2 = enc_text("e"@);
    let e3 = enc_text("c"@);
    let e4 = error_body(version, e);
    let empty: Seq<u8> = Seq::empty();
    let t4 = e4 + empty;
    let t3 = e3 + t4;
    let t2 = e2 + t3;
    let t1 = e1 + t2;
    assert(b.subrange(0, b.len() as int) =~= b);
    assert(b.subrange(0, b.len() as int) =~= e0 + t1);
    lemma_take_piece(b, 0, e0, t1);
    let q1: int = e0.len() as int;
    lemma_take_piece(b, q1, e1, t2);
    let q2 = q1 + e1.len();
    lemma_take_piece(b, q2, e2, t3);
    let q3 = q2 + e2.len();
    lemma_take_piece(b, q3, e3, t4);
    let q4 = q3 + e3.len();
    lemma_take_piece(b, q4, e4, empty);
}

/// The offset at which a record's body starts, after the envelope prefix
/// for the given kind string.
pub open spec fn env_body_off(kind: Seq<char>) -> int {
    (cbor_head(5, 2).len() + enc_text("t"@).len() + enc_text(kind).len() + enc_text(
        "c"@,
    ).len()) as int
}

/// The envelope of a decoded record: the two-pair map head, the `t` key, the
/// kind string, and the `c` key, each at its place.
pub open spec fn envelope_sound(b: Seq<u8>, kind: Seq<char>) -> bool {
    let l0 = cbor_head(5, 2).len() as int;
    let l1 = l0 + enc_text("t"@).len();
    let l2 = l1 + enc_text(kind).len();
    let l3 = l2 + enc_text("c"@).len();
    &&& l3 <= b.len()
    &&& b.subrange(0, l0) == cbor_head(5, 2)
    &&& b.subrange(l0, l1) == enc_text("t"@)
    &&& b.subrange(l1, l2) == enc_text(kind)
    &&& b.subrange(l2, l3) == enc_text("c"@)
}

/// The suffix equations of a record envelope around an arbitrary body.
#[verifier::rlimit(100)]
proof fn complete_env_with_body(b: Seq<u8>, kind: Seq<char>, body: Seq<u8>)
    requires
        b == cbor_head(5, 2) + enc_text("t"@) + enc_text(kind) + enc_text("c"@) + body,
    ensures
        b.len() == cbor_head(5, 2).len() + enc_text("t"@).len() + enc_text(kind).len() + enc_text(
            "c"@,
        ).len() + body.len(),
        cbor_head(5u8, 2u64 as nat) == cbor_head(5, 2),
        cbor_head(5, 2).len() <= b.len() && b.subrange(0, cbor_head(5, 2).len() as int)
            == cbor_head(5, 2),
        b.subrange(cbor_head(5, 2).len() as int, b.len() as int) == enc_text("t"@) + (enc_text(
            kind,
        ) + (enc_text("c"@) + body)),
        b.subrange((cbor_head(5, 2).len() + enc_text("t"@).len()) as int, b.len() as int)
            == enc_text(kind) + (enc_text("c"@) + body),
        b.subrange(
            (cbor_head(5, 2).len() + enc_text("t"@).len() + enc_text(kind).len()) as int,
            b.len() as int,
        ) == enc_text("c"@) + body,
        b.subrange(
            (cbor_head(5, 2).len() + enc_text("t"@).len() + enc_text(kind).len() + enc_text(
                "c"@,
            ).len()) as int,
            b.len() as int,
        ) == body,
{
    let e0 = cbor_head(5, 2);
    let e1 = enc_text("t"@);
    let e2 = enc_text(kind);
    let e3 = enc_text("c"@);
    let empty: Seq<u8> = Seq::empty();
    let t3 = e3 + body;
    let t2 = e2 + t3;
    let t1 = e1 + t2;
    assert(b.subrange(0, b.len() as int) =~= b);
    assert(b.subrange(0, b.len() as int) =~= e0 + t1);
    lemma_take_piece(b, 0, e0, t1);
    let q1: int = e0.len() as int;
    lemma_take_piece(b, q1, e1, t2);
    let q2 = q1 + e1.len();
    lemma_take_piece(b, q2, e2, t3);
    let q3 = q2 + e2.len();
    lemma_take_piece(b, q3, e3, body);
}

/// Deserialize one record, consuming the whole buffer: the envelope is the
/// canonical `t`-then-`c` map, while each body map may carry its recognized
/// integer keys in any order, exactly once each, with entries under
/// unrecognized keys skipped.
#[verifier::rlimit(100)]
pub fn decode_record(b: &Vec<u8>) -> (r: Option<crate::record::Record>)
    ensures
        r matches Some(y) ==> match y@ {
            crate::record::RecordV::StreamStart => b@ == rec_bytes(
                crate::record::RecordV::StreamStart,
            ),
            crate::record::RecordV::StreamEnd => b@ == rec_bytes(
                crate::record::RecordV::StreamEnd,
            ),
            crate::record::RecordV::Header(h) => envelope_sound(b@, "h"@) && header_body_sound(
                b@,
                env_body_off("h"@),
                b@.len() as int,
                h,
            ),
            crate::record::RecordV::Data(d) => envelope_sound(b@, "d"@) && data_body_sound(
                b@,
                env_body_off("d"@),
                b@.len() as int,
                d,
            ),
            crate::record::RecordV::Log(version, log) => envelope_sound(b@, "l"@)
                && log_body_sound(b@, env_body_off("l"@), b@.len() as int, version, log),
            crate::record::RecordV::Error(version, e) => envelope_sound(b@, "e"@)
                && error_body_sound(b@, env_body_off("e"@), b@.len() as int, version, e),
        },
        forall|x: crate::record::RecordV|
            b@ == rec_bytes(x) ==> (match r {
                Some(y) => y@ == x,
                None => false,
            }),
        forall|h: crate::record::HeaderV, es: Seq<(u64, ItemV)>|
            header_fields_ok(h, es) && b@ == cbor_head(5, 2) + enc_text("t"@) + enc_text("h"@)
                + enc_text("c"@) + record_map_bytes(es) ==> (match r {
                Some(y) => y@ == crate::record::RecordV::Header(h),
                None => false,
            }),
        forall|d: crate::record::DataV, es: Seq<(u64, ItemV)>|
            data_fields_ok(d, es) && b@ == cbor_head(5, 2) + enc_text("t"@) + enc_text("d"@)
                + enc_text("c"@) + record_map_bytes(es) ==> (match r {
                Some(y) => y@ == crate::record::RecordV::Data(d),
                None => false,
            }),
        forall|version: u32, log: Seq<char>, es: Seq<(u64, ItemV)>|
            log_fields_ok(version, log, es) && b@ == cbor_head(5, 2) + enc_text("t"@) + enc_text(
                "l"@,
            ) + enc_text("c"@) + record_map_bytes(es) ==> (match r {
                Some(y) => y@ == crate::record::RecordV::Log(version, log),
                None => false,
            }),
        forall|version: u32, e: crate::record::CrateErrorV, es: Seq<(u64, ItemV)>|
            error_fields_ok(version, e, es) && b@ == cbor_head(5, 2) + enc_text("t"@) + enc_text(
                "e"@,
            ) + enc_text("c"@) + record_map_bytes(es) ==> (match r {
                Some(y) => y@ == crate::record::RecordV::Error(version, e),
                None => false,
            }),
{
    proof {
        reveal_strlit("t");
        reveal_strlit("c");
        reveal_strlit("ss");
        reveal_strlit("se");
        reveal_strlit("h");
        reveal_strlit("d");
        reveal_strlit("l");
        reveal_strlit("e");
        assert(("ss"@).len() == 2 && ("se"@).len() == 2 && ("h"@).len() == 1 && ("d"@).len() == 1
            && ("l"@).len() == 1 && ("e"@).len() == 1);
        assert(("ss"@)[1] == 's' && ("se"@)[1] == 'e');
        assert(("h"@)[0] == 'h' && ("d"@)[0] == 'd' && ("l"@)[0] == 'l' && ("e"@)[0] == 'e');
    }
    let blen_x = b.len();
    let r: Option<crate::record::Record> = match parse_head(b, 0) {
        None => None,
        Some((m0, cnt, p0)) => {
            if !(m0 == 5 && (cnt == 1 || cnt == 2)) {
                None
            } else {
                match parse_text(b, p0) {
                    None => None,
                    Some((k1, p1)) => {
                        if !crate::text::str_eq(k1.as_str(), "t") {
                            None
                        } else {
                            match parse_text(b, p1) {
                                None => None,
                                Some((kind, p2)) => {
                                    if crate::text::str_eq(kind.as_str(), "ss") {
                                        if cnt == 1 && p2 == blen_x {
                                            proof {
                                                assert(b@ =~= b@.subrange(0, p0 as int)
                                                    + b@.subrange(p0 as int, p1 as int)
                                                    + b@.subrange(p1 as int, p2 as int));
                                                assert(b@ == rec_bytes(
                                                    crate::record::RecordV::StreamStart,
                                                ));
                                            }
                                            Some(crate::record::Record::StreamStart)
                                        } else {
                                            None
                                        }
                                    } else if crate::text::str_eq(kind.as_str(), "se") {
                                        if cnt == 1 && p2 == blen_x {
                                            proof {
                                                assert(b@ =~= b@.subrange(0, p0 as int)
                                                    + b@.subrange(p0 as int, p1 as int)
                                                    + b@.subrange(p1 as int, p2 as int));
                                                assert(b@ == rec_bytes(
                                                    crate::record::RecordV::StreamEnd,
                                                ));
                                            }
                                            Some(crate::record::Record::StreamEnd)
                                        } else {
                                            None
                                        }
                                    } else if cnt != 2 {
                                        None
                                    } else {
                                        match parse_text(b, p2) {
                                            None => None,
                                            Some((k2, p3)) => {
                                                if !crate::text::str_eq(k2.as_str(), "c") {
                                                    None
                                                } else {
                                                    if crate::text::str_eq(kind.as_str(), "h") {
                                                        match decode_header_body(b, p3) {
                                                            None => None,
                                                            Some((h, p4)) => {
                                                                if p4 == blen_x {
                                                                    proof {
                                                                        assert(envelope_sound(
                                                                            b@,
                                                                            "h"@,
                                                                        ));
                                                                        assert(p3 as int
                                                                            == env_body_off("h"@));
                                                                    }
                                                                    Some(crate::record::Record::Header(h))
                                                                } else {
                                                                    None
                                                                }
                                                            },
                                                        }
                                                    } else if crate::text::str_eq(kind.as_str(), "d") {
                                                        match decode_data_body(b, p3) {
                                                            None => None,
                                                            Some((d, p4)) => {
                                                                if p4 == blen_x {
                                                                    proof {
                                                                        assert(envelope_sound(
                                                                            b@,
                                                                            "d"@,
                                                                        ));
                                                                        assert(p3 as int
                                                                            == env_body_off("d"@));
                                                                    }
                                                                    Some(crate::record::Record::Data(d))
                                                                } else {
                                                                    None
                                                                }
                                                            },
                                                        }
                                                    } else if crate::text::str_eq(kind.as_str(), "l") {
                                                        match decode_log_body(b, p3) {
                                                            None => None,
                                                            Some((l, p4)) => {
                                                                if p4 == blen_x {
                                                                    proof {
                                                                        assert(envelope_sound(
                                                                            b@,
                                                                            "l"@,
                                                                        ));
                                                                        assert(p3 as int
                                                                            == env_body_off("l"@));
                                                                    }
                                                                    Some(crate::record::Record::Log(l))
                                                                } else {
                                                                    None
                                                                }
                                                            },
                                                        }
                                                    } else if crate::text::str_eq(kind.as_str(), "e") {
                                                        match decode_error_body(b, p3) {
                                                            None => None,
                                                            Some(((version, err), p4)) => {
                                                                if p4 == blen_x {
                                                                    proof {
                                                                        assert(envelope_sound(
                                                                            b@,
                                                                            "e"@,
                                                                        ));
                                                                        assert(p3 as int
                                                                            == env_body_off("e"@));
                                                                    }
                                                                    Some(
                                                                        crate::record::Record::Error(
                                                                            crate::record::Error {
                                                                                required: crate::record::Common { version },
                                                                                error: err,
                                                                            },
                                                                        ),
                                                                    )
                                                                } else {
                                                                    None
                                                                }
                                                            },
                                                        }
                                                    } else {
                                                        None
                                                    }
                                                }
                                            },
                                        }
                                    }
                                },
                            }
                        }
                    },
                }
            }
        },
    };
    proof {
        assert forall|x: crate::record::RecordV| b@ == rec_bytes(x) implies (match r {
            Some(y) => y@ == x,
            None => false,
        }) by {
            match x {
                crate::record::RecordV::StreamStart => {
                    complete_env_stream_start(b@);
                },
                crate::record::RecordV::StreamEnd => {
                    complete_env_stream_end(b@);
                },
                crate::record::RecordV::Header(h) => {
                    complete_env_header(b@, h);
                    lemma_header_canonical(h);
                    let off = cbor_head(5, 2).len() + enc_text("t"@).len() + enc_text(
                        "h"@,
                    ).len() + enc_text("c"@).len();
                    assert(b@.subrange(off as int, b@.len() as int) == record_map_bytes(
                        canon_header_entries(h),
                    ) + Seq::<u8>::empty());
                },
                crate::record::RecordV::Data(d) => {
                    complete_env_data(b@, d);
                    lemma_data_canonical(d);
                    let off = cbor_head(5, 2).len() + enc_text("t"@).len() + enc_text(
                        "d"@,
                    ).len() + enc_text("c"@).len();
                    assert(b@.subrange(off as int, b@.len() as int) == record_map_bytes(
                        canon_data_entries(d),
                    ) + Seq::<u8>::empty());
                },
                crate::record::RecordV::Log(version, log) => {
                    complete_env_log(b@, version, log);
                    lemma_log_canonical(version, log);
                    let off = cbor_head(5, 2).len() + enc_text("t"@).len() + enc_text(
                        "l"@,
                    ).len() + enc_text("c"@).len();
                    assert(b@.subrange(off as int, b@.len() as int) == record_map_bytes(
                        canon_log_entries(version, log),
                    ) + Seq::<u8>::empty());
                },
                crate::record::RecordV::Error(version, e) => {
                    complete_env_error(b@, version, e);
                    lemma_error_canonical(version, e);
                    let off = cbor_head(5, 2).len() + enc_text("t"@).len() + enc_text(
                        "e"@,
                    ).len() + enc_text("c"@).len();
                    assert(b@.subrange(off as int, b@.len() as int) == record_map_bytes(
                        canon_error_entries(version, e),
                    ) + Seq::<u8>::empty());
                },
            }
        }
        assert forall|h: crate::record::HeaderV, es: Seq<(u64, ItemV)>|
            header_fields_ok(h, es) && b@ == cbor_head(5, 2) + enc_text("t"@) + enc_text("h"@)
                + enc_text("c"@) + record_map_bytes(es) implies (match r {
            Some(y) => y@ == crate::record::RecordV::Header(h),
            None => false,
        }) by {
            complete_env_with_body(b@, "h"@, record_map_bytes(es));
            let off = cbor_head(5, 2).len() + enc_text("t"@).len() + enc_text("h"@).len()
                + enc_text("c"@).len();
            assert(b@.subrange(off as int, b@.len() as int) == record_map_bytes(es)
                + Seq::<u8>::empty()) by {
                assert(record_map_bytes(es) + Seq::<u8>::empty() =~= record_map_bytes(es));
            }
        }
        assert forall|d: crate::record::DataV, es: Seq<(u64, ItemV)>|
            data_fields_ok(d, es) && b@ == cbor_head(5, 2) + enc_text("t"@) + enc_text("d"@)
                + enc_text("c"@) + record_map_bytes(es) implies (match r {
            Some(y) => y@ == crate::record::RecordV::Data(d),
            None => false,
        }) by {
            complete_env_with_body(b@, "d"@, record_map_bytes(es));
            let off = cbor_head(5, 2).len() + enc_text("t"@).len() + enc_text("d"@).len()
                + enc_text("c"@).len();
            assert(b@.subrange(off as int, b@.len() as int) == record_map_bytes(es)
                + Seq::<u8>::empty()) by {
                assert(record_map_bytes(es) + Seq::<u8>::empty() =~= record_map_bytes(es));
            }
        }
        assert forall|version: u32, log: Seq<char>, es: Seq<(u64, ItemV)>|
            log_fields_ok(version, log, es) && b@ == cbor_head(5, 2) + enc_text("t"@) + enc_text(
                "l"@,
            ) + enc_text("c"@) + record_map_bytes(es) implies (match r {
            Some(y) => y@ == crate::record::RecordV::Log(version, log),
            None => false,
        }) by {
            complete_env_with_body(b@, "l"@, record_map_bytes(es));
            let off = cbor_head(5, 2).len() + enc_text("t"@).len() + enc_text("l"@).len()
                + enc_text("c"@).len();
            assert(b@.subrange(off as int, b@.len() as int) == record_map_bytes(es)
                + Seq::<u8>::empty()) by {
                assert(record_map_bytes(es) + Seq::<u8>::empty() =~= record_map_bytes(es));
            }
        }
        assert forall|version: u32, e: crate::record::CrateErrorV, es: Seq<(u64, ItemV)>|
            error_fields_ok(version, e, es) && b@ == cbor_head(5, 2) + enc_text("t"@) + enc_text(
                "e"@,
            ) + enc_text("c"@) + record_map_bytes(es) implies (match r {
            Some(y) => y@ == crate::record::RecordV::Error(version, e),
            None => false,
        }) by {
            complete_env_with_body(b@, "e"@, record_map_bytes(es));
            let off = cbor_head(5, 2).len() + enc_text("t"@).len() + enc_text("e"@).len()
                + enc_text("c"@).len();
            assert(b@.subrange(off as int, b@.len() as int) == record_map_bytes(es)
                + Seq::<u8>::empty()) by {
                assert(record_map_bytes(es) + Seq::<u8>::empty() =~= record_map_bytes(es));
            }
        }
    }
    r
}

// ---------------------------------------------------------------------------
// Framing
// ---------------------------------------------------------------------------

/// A frame: a 4-byte big-endian length prefix, then the payload.
pub open spec fn frame_bytes(p: Seq<u8>) -> Seq<u8> {
    be(p.len(), 4) + p
}

/// Append one frame holding `payload`, if it fits under `max`; report
/// whether it did.
pub fn write_frame(out: &mut Vec<u8>, payload: &Vec<u8>, max: u32) -> (ok: bool)
    ensures
        ok == (payload@.len() <= max as nat),
        ok ==> final(out)@ == old(out)@ + frame_bytes(payload@),
        !ok ==> final(out)@ == old(out)@,
{
    if payload.len() > max as usize {
        return false;
    }
    push_be(out, payload.len() as u64, 4);
    let ghost mid = out@;
    let n = payload.len();
    let mut i: usize = 0;
    while i < n
        invariant
            n == payload@.len(),
            i <= n,
            out@ == mid + payload@.subrange(0, i as int),
        decreases n - i,
    {
        let byte = payload[i];
        out.push(byte);
        proof {
            assert(mid + payload@.subrange(0, i + 1) =~= (mid + payload@.subrange(
                0,
                i as int,
            )).push(byte));
        }
        i = i + 1;
    }
    proof {
        assert(payload@.subrange(0, n as int) =~= payload@);
        assert(old(out)@ + frame_bytes(payload@) =~= (old(out)@ + be(payload@.len(), 4))
            + payload@);
    }
    true
}

/// Read one frame at `pos`: the payload and the position after it. Frames
/// longer than `max` are rejected.
pub fn read_frame(b: &Vec<u8>, pos: usize, max: u32) -> (r: Option<(Vec<u8>, usize)>)
    requires
        pos <= b@.len(),
    ensures
        r matches Some(t) ==> pos < t.1 <= b@.len() && b@.subrange(pos as int, t.1 as int)
            == frame_bytes(t.0@) && t.0@.len() <= max as nat,
        forall|p: Seq<u8>, rest: Seq<u8>|
            p.len() <= max as nat && b@.subrange(pos as int, b@.len() as int) == frame_bytes(p)
                + rest ==> (match r {
                Some(t) => t.0@ == p && t.1 == pos + 4 + p.len(),
                None => false,
            }),
{
    let blen = b.len();
    let r = match read_be(b, pos, 4) {
        None => None,
        Some((n, p0)) => {
            if n <= max as u64 && n <= (blen - p0) as u64 {
                let nn = n as usize;
                let payload = copy_range(b, p0, p0 + nn);
                proof {
                    lemma_pow256_values();
                    lemma_be_of_be_val(b@.subrange(pos as int, (pos + 4) as int));
                    assert(b@.subrange(pos as int, (p0 + nn) as int) =~= b@.subrange(
                        pos as int,
                        p0 as int,
                    ) + b@.subrange(p0 as int, (p0 + nn) as int));
                }
                Some((payload, p0 + nn))
            } else {
                None
            }
        },
    };
    proof {
        assert forall|p: Seq<u8>, rest: Seq<u8>|
            p.len() <= max as nat && b@.subrange(pos as int, b@.len() as int) == frame_bytes(p)
                + rest implies (match r {
            Some(t) => t.0@ == p && t.1 == pos + 4 + p.len(),
            None => false,
        }) by {
            assert(frame_bytes(p) + rest =~= be(p.len(), 4) + (p + rest));
            lemma_be_len(p.len(), 4);
            lemma_take_piece(b@, pos as int, be(p.len(), 4), p + rest);
            lemma_pow256_values();
            lemma_be_val_of_be(p.len(), 4);
            lemma_take_piece(b@, pos + 4, p, rest);
            assert(b@.len() <= usize::MAX);
        }
    }
    r
}

// ---------------------------------------------------------------------------
// The codec inverts itself
// ---------------------------------------------------------------------------

/// Round trip: decoding an encoded record always succeeds and returns the
/// record unchanged, for every record.
pub fn encode_then_decode(r: &crate::record::Record) -> (out: crate::record::Record)
    ensures
        out@ == r@,
{
    let bytes = encode_record(r);
    match decode_record(&bytes) {
        Some(y) => y,
        None => vstd::pervasive::unreached(),
    }
}

/// Round trip through framing: framing an encoded record and reading the
/// frame back yields the same payload, hence the same record.
pub fn frame_then_read(r: &crate::record::Record, max: u32) -> (out: Option<
    crate::record::Record,
>)
    ensures
        out matches Some(y) ==> y@ == r@,
        out is None ==> rec_bytes(r@).len() > max as nat,
{
    let payload = encode_record(r);
    let mut framed: Vec<u8> = Vec::new();
    if !write_frame(&mut framed, &payload, max) {
        return None;
    }
    proof {
        assert(framed@.subrange(0, framed@.len() as int) =~= framed@);
        assert(framed@ == frame_bytes(payload@) + Seq::<u8>::empty()) by {
            assert(framed@ =~= framed@ + Seq::<u8>::empty());
        }
    }
    match read_frame(&framed, 0, max) {
        Some((payload2, _)) => {
            match decode_record(&payload2) {
                Some(y) => Some(y),
                None => vstd::pervasive::unreached(),
            }
        },
        None => vstd::pervasive::unreached(),
    }
}

/// Every head is at least one byte long.
proof fn lemma_head_len_pos()
    ensures
        forall|m: u8, v: nat| #[trigger] cbor_head(m, v).len() >= 1,
{
    assert forall|m: u8, v: nat| #[trigger] cbor_head(m, v).len() >= 1 by {
        if v < 24 {
        } else if v < 256 {
            lemma_be_len(v, 1);
        } else if v < 65536 {
            lemma_be_len(v, 2);
        } else if v < 0x1_0000_0000 {
            lemma_be_len(v, 4);
        } else {
            lemma_be_len(v, 8);
        }
    }
}

} // verus!
