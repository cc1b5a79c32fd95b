//! The binary codec behind the loader: two LEB128-delimited streams, one
//! for the unicode ranges and one for the font identifiers, and the decoder
//! that expands them into `@font-face` CSS through a caller-supplied writer.

use crate::unicode::spans_separated;
use crate::varint::{varint_decode, varint_encode};
use vstd::prelude::*;

verus! {

/// Splits a byte slice at `index`.
pub fn split_at(slice: &[u8], index: usize) -> (r: (&[u8], &[u8]))
    requires
        index <= slice@.len(),
    ensures
        r.0@ == slice@.take(index as int),
        r.1@ == slice@.skip(index as int),
{
    let (a, b) = slice.split_at(index);
    proof {
        assert(a@ =~= slice@.take(index as int));
        assert(b@ =~= slice@.skip(index as int));
    }
    (a, b)
}

/// The first byte and everything after it.
pub fn split_at_first(slice: &[u8]) -> (r: (u8, &[u8]))
    requires
        slice@.len() >= 1,
    ensures
        r.0 == slice@[0],
        r.1@ == slice@.skip(1),
{
    let b: u8 = slice[0];
    let (_, rest) = slice.split_at(1);
    proof {
        assert(rest@ =~= slice@.skip(1));
    }
    (b, rest)
}

/// A value that accepts bytes, threaded by ownership through every step.
pub trait WriteBytes: Sized {
    /// Everything written so far.
    spec fn written(&self) -> Seq<u8>;

    fn write_bytes(self, bytes: &[u8]) -> (r: Self)
        requires
            self.written().len() + bytes@.len() <= usize::MAX,
        ensures
            r.written() == self.written() + bytes@,
    ;
}

/// A writer that appends into a growable buffer.
pub struct VecWriter {
    buf: Vec<u8>,
}

impl VecWriter {
    pub fn new() -> (r: VecWriter)
        ensures
            r.written() == Seq::<u8>::empty(),
    {
        let r = VecWriter { buf: Vec::new() };
        proof {
            assert(r.written() =~= Seq::<u8>::empty());
        }
        r
    }

    pub fn into_vec(self) -> (r: Vec<u8>)
        ensures
            r@ == self.written(),
    {
        self.buf
    }
}

impl WriteBytes for VecWriter {
    closed spec fn written(&self) -> Seq<u8> {
        self.buf@
    }

    fn write_bytes(self, bytes: &[u8]) -> (r: VecWriter) {
        let mut buf: Vec<u8> = self.buf;
        let mut i: usize = 0;
        while i < bytes.len()
            invariant
                i <= bytes@.len(),
                buf@ == self.buf@ + bytes@.take(i as int),
            decreases bytes@.len() - i,
        {
            buf.push(bytes[i]);
            proof {
                assert(bytes@.take(i + 1) =~= bytes@.take(i as int).push(bytes@[i as int]));
                assert(buf@ =~= self.buf@ + bytes@.take(i + 1));
            }
            i = i + 1;
        }
        proof {
            assert(bytes@.take(bytes@.len() as int) =~= bytes@);
        }
        VecWriter { buf }
    }
}

/// A writer that discards the bytes and keeps only their count; used to
/// size the decoder heap by a dry run.
#[derive(Clone, Copy)]
pub struct CounterWriter {
    count: usize,
    bytes: Ghost<Seq<u8>>,
}

impl CounterWriter {
    #[verifier::type_invariant]
    spec fn type_wf(self) -> bool {
        self.count == self.bytes@.len()
    }

    pub fn new() -> (r: CounterWriter)
        ensures
            r.written() == Seq::<u8>::empty(),
    {
        let r = CounterWriter { count: 0, bytes: Ghost(Seq::empty()) };
        r
    }

    pub fn value(&self) -> (r: usize)
        ensures
            r == self.written().len(),
    {
        proof {
            use_type_invariant(self);
        }
        self.count
    }
}

impl WriteBytes for CounterWriter {
    closed spec fn written(&self) -> Seq<u8> {
        self.bytes@
    }

    fn write_bytes(self, bytes: &[u8]) -> (r: CounterWriter) {
        proof {
            use_type_invariant(&self);
        }
        CounterWriter {
            count: self.count + bytes.len(),
            bytes: Ghost(self.bytes@ + bytes@),
        }
    }
}

/// A borrowed byte stream with a read cursor at its front.
#[derive(Clone, Copy)]
pub struct Bytes<'a> {
    data: &'a [u8],
}

/// `varint_decode` narrowed to the 32-bit payloads the producer emits.
pub open spec fn varint_decode32(s: Seq<u8>) -> Option<(nat, int)> {
    match varint_decode(s) {
        Some((v, n)) => {
            if v < 0x1_0000_0000 {
                Some((v, n))
            } else {
                None
            }
        },
        None => None,
    }
}

/// A length-prefixed byte string at the front of `s`: the string and the
/// total bytes consumed.
pub open spec fn string_decode(s: Seq<u8>) -> Option<(Seq<u8>, int)> {
    match varint_decode32(s) {
        Some((len, n)) => {
            if n + len <= s.len() {
                Some((s.subrange(n, n + len), n + len))
            } else {
                None
            }
        },
        None => None,
    }
}

/// A canonical varint occupies between one byte and the whole prefix it
/// was read from.
pub proof fn lemma_varint_decode_bounds(s: Seq<u8>)
    ensures
        varint_decode(s) matches Some(p) ==> 1 <= p.1 <= s.len(),
    decreases s.len(),
{
    if s.len() > 0 && s[0] >= 128 {
        lemma_varint_decode_bounds(s.skip(1));
    }
}

fn read_varint_slice(s: &[u8]) -> (r: Option<(u32, usize)>)
    ensures
        match varint_decode32(s@) {
            Some(p) => r matches Some(q) && q.0 == p.0 && q.1 == p.1,
            None => r is None,
        },
    decreases s@.len(),
{
    if s.len() == 0 {
        return None;
    }
    let b: u8 = s[0];
    if b < 128 {
        return Some((b as u32, 1));
    }
    let (_, tail) = s.split_at(1);
    proof {
        assert(tail@ =~= s@.skip(1));
        lemma_varint_decode_bounds(tail@);
    }
    match read_varint_slice(tail) {
        None => None,
        Some((v, n)) => {
            if v == 0 {
                return None;
            }
            let val: u64 = (b - 128) as u64 + 128 * (v as u64);
            if val > 0xFFFF_FFFF {
                return None;
            }
            Some((val as u32, n + 1))
        },
    }
}

impl<'a> Bytes<'a> {
    pub closed spec fn bytes(&self) -> Seq<u8> {
        self.data@
    }

    pub fn new(data: &'a [u8]) -> (r: Bytes<'a>)
        ensures
            r.bytes() == data@,
    {
        Bytes { data }
    }

    pub fn is_empty(&self) -> (r: bool)
        ensures
            r == (self.bytes().len() == 0),
    {
        self.data.len() == 0
    }

    /// Reads one varint; on anything but a canonical 32-bit varint the
    /// stream is left unmoved.
    pub fn read_varint(&mut self) -> (r: Option<u32>)
        ensures
            match varint_decode32(old(self).bytes()) {
                Some(p) => r matches Some(v) && v == p.0 && final(self).bytes() == old(
                    self,
                ).bytes().skip(p.1),
                None => r is None && *final(self) == *old(self),
            },
    {
        match read_varint_slice(self.data) {
            None => None,
            Some((v, n)) => {
                proof {
                    lemma_varint_decode_bounds(self.data@);
                }
                let (_, rest) = self.data.split_at(n);
                proof {
                    assert(rest@ =~= self.data@.skip(n as int));
                }
                self.data = rest;
                Some(v)
            },
        }
    }

    /// Reads one length-prefixed string; on a truncated stream nothing is
    /// consumed.
    pub fn read_string(&mut self) -> (r: Option<&'a [u8]>)
        ensures
            match string_decode(old(self).bytes()) {
                Some(p) => r matches Some(f) && f@ == p.0 && final(self).bytes() == old(
                    self,
                ).bytes().skip(p.1),
                None => r is None && *final(self) == *old(self),
            },
    {
        let pre: Bytes<'a> = *self;
        let len: u32 = match self.read_varint() {
            Some(len) => len,
            None => {
                return None;
            },
        };
        proof {
            lemma_varint_decode_bounds(pre.bytes());
        }
        if (len as usize) > self.data.len() {
            *self = pre;
            return None;
        }
        let (head, rest) = self.data.split_at(len as usize);
        proof {
            let p = varint_decode32(pre.bytes()).unwrap();
            assert(self.data@ == pre.bytes().skip(p.1));
            assert(head@ =~= pre.bytes().subrange(p.1, p.1 + p.0));
            assert(rest@ =~= pre.bytes().skip(p.1 + p.0));
        }
        self.data = rest;
        Some(head)
    }
}

} // verus!

verus! {

/// One `@font-face` entry as the loader ships it: the raw CSS fragment
/// before `src:` and the `src:` line itself, verbatim bytes.
#[derive(Clone, Debug, PartialEq, Eq)]
pub struct CSSFragments {
    pub ext: Vec<u8>,
    pub src: Vec<u8>,
}

pub open spec fn hex_digit_byte(d: int) -> u8 {
    if d < 10 {
        (48 + d) as u8
    } else {
        (87 + d) as u8
    }
}

/// Lowercase hex digits of `v`, most significant first; empty for zero.
pub open spec fn hex_bytes(v: nat) -> Seq<u8>
    decreases v,
{
    if v == 0 {
        Seq::empty()
    } else {
        hex_bytes(v / 16) + seq![hex_digit_byte((v % 16) as int)]
    }
}

/// The unpadded lowercase hex rendering, with zero written as `0`.
pub open spec fn codepoint_hex(v: nat) -> Seq<u8> {
    if v == 0 {
        seq![48u8]
    } else {
        hex_bytes(v)
    }
}

pub proof fn lemma_hex_bytes_len(v: nat)
    ensures
        v < 0x1_0000_0000 ==> hex_bytes(v).len() <= 8,
        hex_bytes(v).len() >= 0,
    decreases v,
{
    if v > 0 {
        lemma_hex_bytes_len(v / 16);
        if v < 0x1_0000_0000 {
            lemma_hex_bytes_len_steps(v / 16);
        }
    }
}

proof fn lemma_hex_bytes_len_steps(v: nat)
    ensures
        v < 0x1000_0000 ==> hex_bytes(v).len() <= 7,
        v < 0x100_0000 ==> hex_bytes(v).len() <= 6,
        v < 0x10_0000 ==> hex_bytes(v).len() <= 5,
        v < 0x1_0000 ==> hex_bytes(v).len() <= 4,
        v < 0x1000 ==> hex_bytes(v).len() <= 3,
        v < 0x100 ==> hex_bytes(v).len() <= 2,
        v < 0x10 ==> hex_bytes(v).len() <= 1,
    decreases v,
{
    if v > 0 {
        lemma_hex_bytes_len_steps(v / 16);
    }
}

/// Writes one byte through the writer.
fn write_byte<W: WriteBytes>(w: W, b: u8) -> (r: W)
    requires
        w.written().len() + 1 <= usize::MAX,
    ensures
        r.written() == w.written() + seq![b],
{
    let mut tmp: Vec<u8> = Vec::new();
    tmp.push(b);
    proof {
        assert(tmp@ =~= seq![b]);
    }
    w.write_bytes(tmp.as_slice())
}

/// Writes the plain hex digits of `v`; nothing for zero.
fn write_hex<W: WriteBytes>(w: W, v: u32) -> (r: W)
    requires
        w.written().len() + hex_bytes(v as nat).len() <= usize::MAX,
    ensures
        r.written() == w.written() + hex_bytes(v as nat),
    decreases v,
{
    if v == 0 {
        proof {
            assert(w.written() + hex_bytes(v as nat) =~= w.written());
        }
        w
    } else {
        proof {
            lemma_hex_bytes_len(v as nat);
            lemma_hex_bytes_len(v as nat / 16);
        }
        let d: u32 = v % 16;
        let b: u8 = if d < 10 {
            (48 + d) as u8
        } else {
            (87 + d) as u8
        };
        let w2 = write_hex(w, v / 16);
        let r = write_byte(w2, b);
        proof {
            assert(hex_bytes(v as nat) == hex_bytes(v as nat / 16) + seq![hex_digit_byte(
                (v as nat % 16) as int,
            )]);
            assert(b == hex_digit_byte((v as nat % 16) as int));
            assert(r.written() =~= w.written() + hex_bytes(v as nat));
        }
        r
    }
}

/// The one derived emission every writer shares.
pub trait WriteBytesExt: WriteBytes {
    /// Lowercase unpadded hex, zero rendered as `0`.
    fn write_codepoint(self, codepoint: u32) -> (r: Self)
        requires
            self.written().len() + codepoint_hex(codepoint as nat).len() <= usize::MAX,
        ensures
            r.written() == self.written() + codepoint_hex(codepoint as nat),
    {
        if codepoint == 0 {
            write_byte(self, 48)
        } else {
            write_hex(self, codepoint)
        }
    }
}

impl<W: WriteBytes> WriteBytesExt for W {

}

/// `"@font-face{"`
pub open spec fn face_open_bytes() -> Seq<u8> {
    seq![64u8, 102u8, 111u8, 110u8, 116u8, 45u8, 102u8, 97u8, 99u8, 101u8, 123u8]
}

/// `"unicode-range:"`
pub open spec fn ur_label_bytes() -> Seq<u8> {
    seq![117u8, 110u8, 105u8, 99u8, 111u8, 100u8, 101u8, 45u8, 114u8, 97u8, 110u8, 103u8, 101u8, 58u8]
}

/// `";}"`
pub open spec fn close_bytes() -> Seq<u8> {
    seq![59u8, 125u8]
}

fn lit_face_open() -> (r: Vec<u8>)
    ensures
        r@ == face_open_bytes(),
{
    let mut v: Vec<u8> = Vec::new();
    v.push(64);
    v.push(102);
    v.push(111);
    v.push(110);
    v.push(116);
    v.push(45);
    v.push(102);
    v.push(97);
    v.push(99);
    v.push(101);
    v.push(123);
    proof {
        assert(v@ =~= face_open_bytes());
    }
    v
}

fn lit_ur_label() -> (r: Vec<u8>)
    ensures
        r@ == ur_label_bytes(),
{
    let mut v: Vec<u8> = Vec::new();
    v.push(117);
    v.push(110);
    v.push(105);
    v.push(99);
    v.push(111);
    v.push(100);
    v.push(101);
    v.push(45);
    v.push(114);
    v.push(97);
    v.push(110);
    v.push(103);
    v.push(101);
    v.push(58);
    proof {
        assert(v@ =~= ur_label_bytes());
    }
    v
}

/// What the decoder emits for `n` singleton entries: a comma before every
/// entry but the first, then `U+` and the hex code point; each entry is the
/// previous code point plus the stream's delta, wrapping at 2^32.
pub open spec fn dec_singles(n: nat, ur: Seq<u8>, prev: nat, first: bool) -> (bool, Seq<u8>, Seq<u8>, nat)
    decreases n,
{
    if n == 0 {
        (true, Seq::empty(), ur, prev)
    } else {
        let sep: Seq<u8> = if first {
            Seq::empty()
        } else {
            seq![44u8]
        };
        match varint_decode32(ur) {
            None => (false, sep, ur, prev),
            Some((d, adv)) => {
                let cp = (prev + d) % 0x1_0000_0000;
                let item = seq![85u8, 43u8] + codepoint_hex(cp);
                let rest = dec_singles((n - 1) as nat, ur.skip(adv), cp, false);
                (rest.0, sep + item + rest.1, rest.2, rest.3)
            },
        }
    }
}

/// What the decoder emits for `n` range entries: a comma before every entry
/// but the first, then `U+start-end`; the start is delta-chained from the
/// previous end, and the end from its own start, wrapping at 2^32.
pub open spec fn dec_multis(n: nat, ur: Seq<u8>, prev: nat, first: bool) -> (bool, Seq<u8>, Seq<u8>, nat)
    decreases n,
{
    if n == 0 {
        (true, Seq::empty(), ur, prev)
    } else {
        let sep: Seq<u8> = if first {
            Seq::empty()
        } else {
            seq![44u8]
        };
        match varint_decode32(ur) {
            None => (false, sep, ur, prev),
            Some((d1, a1)) => {
                let start = (prev + d1) % 0x1_0000_0000;
                match varint_decode32(ur.skip(a1)) {
                    None => (false, sep, ur.skip(a1), prev),
                    Some((d2, a2)) => {
                        let end = (start + d2) % 0x1_0000_0000;
                        let item = seq![85u8, 43u8] + codepoint_hex(start) + seq![45u8]
                            + codepoint_hex(end);
                        let rest = dec_multis((n - 1) as nat, ur.skip(a1).skip(a2), end, false);
                        (rest.0, sep + item + rest.1, rest.2, rest.3)
                    },
                }
            },
        }
    }
}

pub proof fn lemma_dec_singles_rest(n: nat, ur: Seq<u8>, prev: nat, first: bool)
    ensures
        dec_singles(n, ur, prev, first).2.len() <= ur.len(),
    decreases n,
{
    if n > 0 {
        match varint_decode32(ur) {
            None => {},
            Some((d, adv)) => {
                lemma_varint_decode_bounds(ur);
                lemma_dec_singles_rest((n - 1) as nat, ur.skip(adv), (prev + d) % 0x1_0000_0000, false);
            },
        }
    }
}

pub proof fn lemma_dec_multis_rest(n: nat, ur: Seq<u8>, prev: nat, first: bool)
    ensures
        dec_multis(n, ur, prev, first).2.len() <= ur.len(),
    decreases n,
{
    if n > 0 {
        match varint_decode32(ur) {
            None => {},
            Some((d1, a1)) => {
                lemma_varint_decode_bounds(ur);
                let start = (prev + d1) % 0x1_0000_0000;
                match varint_decode32(ur.skip(a1)) {
                    None => {},
                    Some((d2, a2)) => {
                        lemma_varint_decode_bounds(ur.skip(a1));
                        lemma_dec_multis_rest(
                            (n - 1) as nat,
                            ur.skip(a1).skip(a2),
                            (start + d2) % 0x1_0000_0000,
                            false,
                        );
                    },
                }
            },
        }
    }
}

/// A source of the two streams, the face count, and the per-face CSS the
/// decoder interleaves with the ranges it reconstructs.
pub trait DecoderContext {
    /// The `urange_data` stream.
    spec fn urange_spec(&self) -> Seq<u8>;

    /// The `fid_data` stream.
    spec fn fid_spec(&self) -> Seq<u8>;

    spec fn face_count_spec(&self) -> int;

    /// The bytes written for face `idx` before the `src` line.
    spec fn ext_spec(&self, idx: int) -> Seq<u8>;

    /// The bytes written for face `idx`'s `src` line, given the font
    /// identifier read from the stream.
    spec fn src_spec(&self, idx: int, fid: Seq<u8>) -> Seq<u8>;

    fn urange_data(&self) -> (r: Bytes<'_>)
        ensures
            r.bytes() == self.urange_spec(),
    ;

    fn fid_data(&self) -> (r: Bytes<'_>)
        ensures
            r.bytes() == self.fid_spec(),
    ;

    fn font_face_count(&self) -> (r: usize)
        ensures
            r == self.face_count_spec(),
    ;

    fn write_font_face_ext<W: WriteBytes>(&self, idx: usize, writer: W) -> (r: W)
        requires
            0 <= idx < self.face_count_spec(),
            writer.written().len() + self.ext_spec(idx as int).len() <= usize::MAX,
        ensures
            r.written() == writer.written() + self.ext_spec(idx as int),
    ;

    fn write_font_face_src<W: WriteBytes>(&self, idx: usize, hash: &[u8], writer: W) -> (r: W)
        requires
            0 <= idx < self.face_count_spec(),
            writer.written().len() + self.src_spec(idx as int, hash@).len() <= usize::MAX,
        ensures
            r.written() == writer.written() + self.src_spec(idx as int, hash@),
    ;
}

/// One `@font-face` block per entry left in `ur`, for face `idx`: the font
/// identifier is read from `fid`, then the block opens, the face's CSS is
/// emitted, and the unicode-range list follows. Yields whether the streams
/// were well-formed, the bytes emitted up to any failure point, and what is
/// left of `fid`.
pub open spec fn dec_blocks<C: DecoderContext>(c: C, idx: int, ur: Seq<u8>, fid: Seq<u8>) -> (
    bool,
    Seq<u8>,
    Seq<u8>,
)
    decreases ur.len(),
    when true
    via dec_blocks_decreases::<C>
{
    if ur.len() == 0 {
        (true, Seq::empty(), fid)
    } else {
        match string_decode(fid) {
            None => (false, Seq::empty(), fid),
            Some((f, fadv)) => {
                let head = face_open_bytes() + c.ext_spec(idx) + c.src_spec(idx, f)
                    + ur_label_bytes();
                match varint_decode32(ur) {
                    None => (false, head, fid.skip(fadv)),
                    Some((ns, adv1)) => {
                        let s = dec_singles(ns, ur.skip(adv1), 0, true);
                        if !s.0 {
                            (false, head + s.1, fid.skip(fadv))
                        } else {
                            match varint_decode32(s.2) {
                                None => (false, head + s.1, fid.skip(fadv)),
                                Some((nm, adv2)) => {
                                    let comma: Seq<u8> = if ns != 0 && nm != 0 {
                                        seq![44u8]
                                    } else {
                                        Seq::empty()
                                    };
                                    let m = dec_multis(nm, s.2.skip(adv2), 0, true);
                                    if !m.0 {
                                        (false, head + s.1 + comma + m.1, fid.skip(fadv))
                                    } else {
                                        let rest = dec_blocks(c, idx, m.2, fid.skip(fadv));
                                        (
                                            rest.0,
                                            head + s.1 + comma + m.1 + close_bytes() + rest.1,
                                            rest.2,
                                        )
                                    }
                                },
                            }
                        }
                    },
                }
            },
        }
    }
}

#[via_fn]
proof fn dec_blocks_decreases<C: DecoderContext>(c: C, idx: int, ur: Seq<u8>, fid: Seq<u8>) {
    if ur.len() > 0 {
        match string_decode(fid) {
            None => {},
            Some((f, fadv)) => {
                match varint_decode32(ur) {
                    None => {},
                    Some((ns, adv1)) => {
                        lemma_varint_decode_bounds(ur);
                        let s = dec_singles(ns, ur.skip(adv1), 0, true);
                        lemma_dec_singles_rest(ns, ur.skip(adv1), 0, true);
                        if s.0 {
                            match varint_decode32(s.2) {
                                None => {},
                                Some((nm, adv2)) => {
                                    lemma_varint_decode_bounds(s.2);
                                    lemma_dec_multis_rest(nm, s.2.skip(adv2), 0, true);
                                },
                            }
                        }
                    },
                }
            },
        }
    }
}

/// The decoder's whole output: each face in turn, the range stream replayed
/// from its start for every face, the identifier stream read on through.
pub open spec fn dec_faces<C: DecoderContext>(c: C, i: int, count: int, ur: Seq<u8>, fid: Seq<u8>) -> (
    bool,
    Seq<u8>,
    Seq<u8>,
)
    decreases count - i,
{
    if i >= count {
        (true, Seq::empty(), fid)
    } else {
        let b = dec_blocks(c, i, ur, fid);
        if !b.0 {
            (false, b.1, b.2)
        } else {
            let rest = dec_faces(c, i + 1, count, ur, b.2);
            (rest.0, b.1 + rest.1, rest.2)
        }
    }
}

/// Everything `Decoder::decode` writes.
pub open spec fn spec_decode<C: DecoderContext>(c: C) -> (bool, Seq<u8>) {
    let r = dec_faces(c, 0, c.face_count_spec(), c.urange_spec(), c.fid_spec());
    (r.0, r.1)
}

pub struct Decoder<C> {
    config: C,
}

impl<C: DecoderContext> Decoder<C> {
    pub closed spec fn cfg(&self) -> C {
        self.config
    }

    pub fn new(config: C) -> (r: Decoder<C>)
        ensures
            r.cfg() == config,
    {
        Decoder { config }
    }

    /// Emits the blocks of face `idx` and reports whether the streams were
    /// well-formed; on malformed streams the output stops at the failure
    /// point, exactly as `dec_blocks` describes.
    #[verifier::rlimit(100)]
    fn write_font<W: WriteBytes>(&self, idx: usize, fid_data: &mut Bytes<'_>, out: W) -> (r: (
        W,
        bool,
    ))
        requires
            0 <= idx < self.cfg().face_count_spec(),
            out.written().len() + dec_blocks(
                self.cfg(),
                idx as int,
                self.cfg().urange_spec(),
                old(fid_data).bytes(),
            ).1.len() <= usize::MAX,
        ensures
            ({
                let b = dec_blocks(
                    self.cfg(),
                    idx as int,
                    self.cfg().urange_spec(),
                    old(fid_data).bytes(),
                );
                &&& r.0.written() == out.written() + b.1
                &&& r.1 == b.0
                &&& final(fid_data).bytes() == b.2
            }),
    {
        let ghost c = self.cfg();
        let mut ur: Bytes<'_> = self.config.urange_data();
        let mut w = out;
        
        let ghost out0: Seq<u8> = w.written();
        let ghost whole = dec_blocks(c, idx as int, ur.bytes(), fid_data.bytes());
        let ghost mut em: Seq<u8> = Seq::empty();
        proof {
            assert(w.written() =~= out0 + em);
        }
        loop
            invariant
                0 <= idx < c.face_count_spec(),
                c == self.cfg(),
                out0 == out.written(),
                whole == dec_blocks(c, idx as int, c.urange_spec(), old(fid_data).bytes()),
                c.urange_spec() == self.cfg().urange_spec(),
                out0.len() + whole.1.len() <= usize::MAX,
                w.written() == out0 + em,
                ({
                    let rem = dec_blocks(c, idx as int, ur.bytes(), fid_data.bytes());
                    &&& whole.0 == rem.0
                    &&& whole.1 == em + rem.1
                    &&& whole.2 == rem.2
                }),
            decreases ur.bytes().len(),
        {
            let ghost em0: Seq<u8> = em;
            let ghost pre_ur: Seq<u8> = ur.bytes();
            let ghost pre_fid: Seq<u8> = fid_data.bytes();
            let ghost rem = dec_blocks(c, idx as int, pre_ur, pre_fid);
            if ur.is_empty() {
                proof {
                    assert(whole.1 =~= em);
                }
                return (w, true);
            }
            let fid: &[u8] = match fid_data.read_string() {
                Some(f) => f,
                None => {
                    proof {
                        assert(whole.1 =~= em);
                    }
                    return (w, false);
                },
            };
            let ghost sd = string_decode(pre_fid).unwrap();
            let ghost head = face_open_bytes() + c.ext_spec(idx as int) + c.src_spec(
                idx as int,
                sd.0,
            ) + ur_label_bytes();
            proof {
                assert(head.len() <= rem.1.len());
            }
            let head_lit: Vec<u8> = lit_face_open();
            w = w.write_bytes(head_lit.as_slice());
            w = self.config.write_font_face_ext(idx, w);
            w = self.config.write_font_face_src(idx, fid, w);
            let label_lit: Vec<u8> = lit_ur_label();
            w = w.write_bytes(label_lit.as_slice());
            proof {
                em = em + head;
                assert(w.written() =~= out0 + em);
            }
            let n_single: u32 = match ur.read_varint() {
                Some(n) => n,
                None => {
                    proof {
                        assert(rem.1 == head);
                        assert(whole.1 =~= em);
                    }
                    return (w, false);
                },
            };
            let ghost adv1 = varint_decode32(pre_ur).unwrap().1;
            let ghost swhole = dec_singles(n_single as nat, pre_ur.skip(adv1), 0, true);
            // the singleton entries
            let mut prev: u32 = 0;
            let mut i: u32 = 0;
            let ghost em_s: Seq<u8> = em;
            let ghost mut es: Seq<u8> = Seq::empty();
            let ghost after = spec_after_singles(
                c,
                idx as int,
                n_single as nat,
                swhole.2,
                pre_fid.skip(sd.1),
            );
            proof {
                if swhole.0 {
                    assert(rem.1 =~= head + swhole.1 + after);
                } else {
                    assert(rem.1 =~= head + swhole.1);
                    assert(!rem.0);
                    assert(rem.2 == pre_fid.skip(sd.1));
                }
                assert(whole.1 == em0 + rem.1);
                assert(em =~= em0 + head);
                assert(em_s.len() + swhole.1.len() + out0.len() <= usize::MAX);
            }
            while i < n_single
                invariant
                    i <= n_single,
                    c == self.cfg(),
                    out0 == out.written(),
                    whole == dec_blocks(c, idx as int, c.urange_spec(), old(fid_data).bytes()),
                    em_s.len() + swhole.1.len() + out0.len() <= usize::MAX,
                    em == em_s + es,
                    w.written() == out0 + em,
                    !swhole.0 ==> !whole.0 && whole.1 == em_s + swhole.1 && whole.2
                        == fid_data.bytes(),
                    ({
                        let rem_s = dec_singles(
                            (n_single - i) as nat,
                            ur.bytes(),
                            prev as nat,
                            i == 0,
                        );
                        &&& swhole.0 == rem_s.0
                        &&& swhole.1 == es + rem_s.1
                        &&& swhole.2 == rem_s.2
                        &&& swhole.3 == rem_s.3
                    }),
                decreases n_single - i,
            {
                let ghost rem_s = dec_singles(
                    (n_single - i) as nat,
                    ur.bytes(),
                    prev as nat,
                    i == 0,
                );
                let ghost sep: Seq<u8> = if i == 0 {
                    Seq::empty()
                } else {
                    seq![44u8]
                };
                if i != 0 {
                    w = write_byte(w, 44);
                }
                proof {
                    em = em + sep;
                    es = es + sep;
                    assert(w.written() =~= out0 + em);
                }
                let d: u32 = match ur.read_varint() {
                    Some(d) => d,
                    None => {
                        proof {
                            assert(rem_s.1 == sep);
                            assert(swhole.1 =~= es);
                            assert(whole.1 =~= em_s + es);
                            assert(whole.1 =~= em);
                        }
                        return (w, false);
                    },
                };
                let cp: u32 = ((prev as u64 + d as u64) % 0x1_0000_0000) as u32;
                let ghost item: Seq<u8> = seq![85u8, 43u8] + codepoint_hex(cp as nat);
                proof {
                    lemma_hex_bytes_len(cp as nat);
                    assert(rem_s.1 == sep + item + dec_singles(
                        (n_single - i - 1) as nat,
                        ur.bytes(),
                        cp as nat,
                        false,
                    ).1);
                }
                w = write_byte(w, 85);
                w = write_byte(w, 43);
                w = w.write_codepoint(cp);
                prev = cp;
                i = i + 1;
                proof {
                    em = em + item;
                    es = es + item;
                    assert(w.written() =~= out0 + em);
                    assert(em =~= em_s + es);
                    let rem_s2 = dec_singles((n_single - i) as nat, ur.bytes(), prev as nat, false);
                    assert(swhole.1 =~= es + rem_s2.1);
                }
            }
            proof {
                assert(swhole.0);
                assert(swhole.1 =~= es);
                assert(ur.bytes() == swhole.2);
            }
            // the range entries
            let ghost pre_m_ur: Seq<u8> = ur.bytes();
            let n_multi: u32 = match ur.read_varint() {
                Some(n) => n,
                None => {
                    proof {
                        assert(rem.1 =~= head + swhole.1);
                        assert(whole.1 =~= em);
                    }
                    return (w, false);
                },
            };
            let ghost adv2 = varint_decode32(pre_m_ur).unwrap().1;
            let ghost mwhole = dec_multis(n_multi as nat, pre_m_ur.skip(adv2), 0, true);
            let ghost comma: Seq<u8> = if n_single != 0 && n_multi != 0 {
                seq![44u8]
            } else {
                Seq::empty()
            };
            let ghost rest_after = dec_blocks(c, idx as int, mwhole.2, pre_fid.skip(sd.1)).1;
            proof {
                if mwhole.0 {
                    assert(rem.1 =~= head + swhole.1 + comma + mwhole.1 + close_bytes()
                        + rest_after);
                } else {
                    assert(rem.1 =~= head + swhole.1 + comma + mwhole.1);
                    assert(!rem.0);
                    assert(rem.2 == pre_fid.skip(sd.1));
                }
                assert(whole.1 == em0 + rem.1);
            }
            if n_single != 0 && n_multi != 0 {
                w = write_byte(w, 44);
            }
            proof {
                em = em + comma;
                assert(w.written() =~= out0 + em);
            }
            let mut prev_m: u32 = 0;
            let mut j: u32 = 0;
            let ghost em_m: Seq<u8> = em;
            let ghost mut ms: Seq<u8> = Seq::empty();
            proof {
                assert(em_m =~= em0 + head + swhole.1 + comma);
                assert(em_m.len() + mwhole.1.len() + out0.len() <= usize::MAX);
            }
            while j < n_multi
                invariant
                    j <= n_multi,
                    c == self.cfg(),
                    out0 == out.written(),
                    whole == dec_blocks(c, idx as int, c.urange_spec(), old(fid_data).bytes()),
                    em_m.len() + mwhole.1.len() + out0.len() <= usize::MAX,
                    em == em_m + ms,
                    w.written() == out0 + em,
                    !mwhole.0 ==> !whole.0 && whole.1 == em_m + mwhole.1 && whole.2
                        == fid_data.bytes(),
                    ({
                        let rem_m = dec_multis(
                            (n_multi - j) as nat,
                            ur.bytes(),
                            prev_m as nat,
                            j == 0,
                        );
                        &&& mwhole.0 == rem_m.0
                        &&& mwhole.1 == ms + rem_m.1
                        &&& mwhole.2 == rem_m.2
                        &&& mwhole.3 == rem_m.3
                    }),
                decreases n_multi - j,
            {
                let ghost rem_m = dec_multis(
                    (n_multi - j) as nat,
                    ur.bytes(),
                    prev_m as nat,
                    j == 0,
                );
                let ghost sep: Seq<u8> = if j == 0 {
                    Seq::empty()
                } else {
                    seq![44u8]
                };
                if j != 0 {
                    w = write_byte(w, 44);
                }
                proof {
                    em = em + sep;
                    ms = ms + sep;
                    assert(w.written() =~= out0 + em);
                }
                let d1: u32 = match ur.read_varint() {
                    Some(d) => d,
                    None => {
                        proof {
                            assert(rem_m.1 == sep);
                            assert(mwhole.1 =~= ms);
                            assert(whole.1 =~= em_m + ms);
                            assert(whole.1 =~= em);
                        }
                        return (w, false);
                    },
                };
                let start: u32 = ((prev_m as u64 + d1 as u64) % 0x1_0000_0000) as u32;
                let d2: u32 = match ur.read_varint() {
                    Some(d) => d,
                    None => {
                        proof {
                            assert(rem_m.1 == sep);
                            assert(mwhole.1 =~= ms);
                            assert(whole.1 =~= em_m + ms);
                            assert(whole.1 =~= em);
                        }
                        return (w, false);
                    },
                };
                let end: u32 = ((start as u64 + d2 as u64) % 0x1_0000_0000) as u32;
                let ghost item: Seq<u8> = seq![85u8, 43u8] + codepoint_hex(start as nat)
                    + seq![45u8] + codepoint_hex(end as nat);
                proof {
                    lemma_hex_bytes_len(start as nat);
                    lemma_hex_bytes_len(end as nat);
                    assert(rem_m.1 == sep + item + dec_multis(
                        (n_multi - j - 1) as nat,
                        ur.bytes(),
                        end as nat,
                        false,
                    ).1);
                }
                w = write_byte(w, 85);
                w = write_byte(w, 43);
                w = w.write_codepoint(start);
                w = write_byte(w, 45);
                w = w.write_codepoint(end);
                prev_m = end;
                j = j + 1;
                proof {
                    em = em + item;
                    ms = ms + item;
                    assert(w.written() =~= out0 + em);
                    assert(em =~= em_m + ms);
                    let rem_m2 = dec_multis((n_multi - j) as nat, ur.bytes(), prev_m as nat, false);
                    assert(mwhole.1 =~= ms + rem_m2.1);
                }
            }
            proof {
                assert(mwhole.0);
                assert(mwhole.1 =~= ms);
                assert(ur.bytes() == mwhole.2);
            }
            w = write_byte(w, 59);
            w = write_byte(w, 125);
            proof {
                em = em + close_bytes();
                assert(w.written() =~= out0 + em);
                let rest = dec_blocks(c, idx as int, mwhole.2, pre_fid.skip(sd.1));
                assert(rem.1 == head + swhole.1 + comma + mwhole.1 + close_bytes() + rest.1);
                assert(em =~= em0 + head + swhole.1 + comma + mwhole.1 + close_bytes());
                assert(whole.1 =~= em + rest.1);
                lemma_dec_multis_rest(n_multi as nat, pre_m_ur.skip(adv2), 0, true);
                lemma_dec_singles_rest(n_single as nat, pre_ur.skip(adv1), 0, true);
                lemma_varint_decode_bounds(pre_ur);
                lemma_varint_decode_bounds(pre_m_ur);
                assert(ur.bytes().len() < pre_ur.len());
            }
        }
    }

    /// Streams the whole CSS for every face into the writer. On the byte
    /// streams the encoder produces the output is complete; on malformed
    /// streams it stops at the failure point, exactly as `spec_decode`
    /// describes.
    pub fn decode<W: WriteBytes>(&self, out: W) -> (r: W)
        requires
            out.written().len() + spec_decode(self.cfg()).1.len() <= usize::MAX,
        ensures
            r.written() == out.written() + spec_decode(self.cfg()).1,
    {
        let ghost c = self.cfg();
        let mut fid_data: Bytes<'_> = self.config.fid_data();
        let count: usize = self.config.font_face_count();
        let mut w = out;
        let ghost out0: Seq<u8> = w.written();
        let ghost fid0: Seq<u8> = fid_data.bytes();
        let ghost whole = dec_faces(c, 0, count as int, c.urange_spec(), fid0);
        let ghost mut em: Seq<u8> = Seq::empty();
        let mut idx: usize = 0;
        proof {
            assert(w.written() =~= out0 + em);
            assert(spec_decode(c).1 == whole.1);
        }
        while idx < count
            invariant
                idx <= count,
                c == self.cfg(),
                count as int == c.face_count_spec(),
                out0 == out.written(),
                whole == dec_faces(c, 0, count as int, c.urange_spec(), fid0),
                whole.1 == spec_decode(c).1,
                out0.len() + whole.1.len() <= usize::MAX,
                w.written() == out0 + em,
                ({
                    let rem = dec_faces(
                        c,
                        idx as int,
                        count as int,
                        c.urange_spec(),
                        fid_data.bytes(),
                    );
                    &&& whole.0 == rem.0
                    &&& whole.1 == em + rem.1
                    &&& whole.2 == rem.2
                }),
            decreases count - idx,
        {
            let ghost pre_fid: Seq<u8> = fid_data.bytes();
            let ghost rem = dec_faces(c, idx as int, count as int, c.urange_spec(), pre_fid);
            let ghost b = dec_blocks(c, idx as int, c.urange_spec(), pre_fid);
            proof {
                assert(b.1.len() <= rem.1.len());
            }
            proof {
                if !b.0 {
                    assert(rem.1 =~= b.1);
                } else {
                    assert(rem.1 =~= b.1 + dec_faces(c, idx + 1, count as int, c.urange_spec(), b.2).1);
                }
            }
            let res = self.write_font(idx, &mut fid_data, w);
            w = res.0;
            proof {
                em = em + b.1;
                assert(w.written() =~= out0 + em);
            }
            if !res.1 {
                proof {
                    assert(whole.1 =~= em);
                }
                return w;
            }
            proof {
                let rest = dec_faces(c, idx + 1, count as int, c.urange_spec(), b.2);
                assert(whole.1 =~= em + rest.1);
            }
            idx = idx + 1;
        }
        proof {
            assert(whole.1 =~= em);
            assert(w.written() =~= out0 + whole.1);
            assert(spec_decode(c).1 == whole.1);
        }
        w
    }
}

/// The bytes a block emits after its singleton entries succeed: the comma
/// when both lists are populated, the range entries, the closer, and the
/// following blocks.
pub open spec fn spec_after_singles<C: DecoderContext>(
    c: C,
    idx: int,
    ns: nat,
    ur: Seq<u8>,
    fid_rest: Seq<u8>,
) -> Seq<u8> {
    match varint_decode32(ur) {
        None => Seq::empty(),
        Some((nm, adv2)) => {
            let comma: Seq<u8> = if ns != 0 && nm != 0 {
                seq![44u8]
            } else {
                Seq::empty()
            };
            let m = dec_multis(nm, ur.skip(adv2), 0, true);
            if !m.0 {
                comma + m.1
            } else {
                comma + m.1 + close_bytes() + dec_blocks(c, idx, m.2, fid_rest).1
            }
        },
    }
}

} // verus!

verus! {

/// A context over plain byte slices and owned CSS fragments: the `ext`
/// callback writes the face's fragment, the `src` callback writes its
/// `src:` line unchanged whatever identifier was read.
pub struct SliceContext<'a> {
    pub urange_data: &'a [u8],
    pub fid_data: &'a [u8],
    pub faces: &'a [CSSFragments],
}

impl<'a> DecoderContext for SliceContext<'a> {
    open spec fn urange_spec(&self) -> Seq<u8> {
        self.urange_data@
    }

    open spec fn fid_spec(&self) -> Seq<u8> {
        self.fid_data@
    }

    open spec fn face_count_spec(&self) -> int {
        self.faces@.len() as int
    }

    open spec fn ext_spec(&self, idx: int) -> Seq<u8> {
        self.faces@[idx].ext@
    }

    open spec fn src_spec(&self, idx: int, fid: Seq<u8>) -> Seq<u8> {
        self.faces@[idx].src@
    }

    fn urange_data(&self) -> (r: Bytes<'_>) {
        Bytes::new(self.urange_data)
    }

    fn fid_data(&self) -> (r: Bytes<'_>) {
        Bytes::new(self.fid_data)
    }

    fn font_face_count(&self) -> (r: usize) {
        self.faces.len()
    }

    fn write_font_face_ext<W: WriteBytes>(&self, idx: usize, writer: W) -> (r: W) {
        let f: &CSSFragments = &self.faces[idx];
        writer.write_bytes(f.ext.as_slice())
    }

    fn write_font_face_src<W: WriteBytes>(&self, idx: usize, hash: &[u8], writer: W) -> (r: W) {
        let f: &CSSFragments = &self.faces[idx];
        writer.write_bytes(f.src.as_slice())
    }
}

/// Bundles the two streams, the faces and a writer; `decode` runs the
/// decoder over them and hands the writer back.
pub struct StdContext<'a, W: WriteBytes> {
    pub writer: W,
    pub urange_data: &'a [u8],
    pub fid_data: &'a [u8],
    pub faces: &'a [CSSFragments],
}

impl<'a, W: WriteBytes> StdContext<'a, W> {
    /// The same data seen as a decoder context.
    pub open spec fn ctx_spec(&self) -> SliceContext<'a> {
        SliceContext {
            urange_data: self.urange_data,
            fid_data: self.fid_data,
            faces: self.faces,
        }
    }

    pub fn decode(self) -> (r: W)
        requires
            self.writer.written().len() + spec_decode(self.ctx_spec()).1.len() <= usize::MAX,
        ensures
            r.written() == self.writer.written() + spec_decode(self.ctx_spec()).1,
    {
        let ctx = SliceContext {
            urange_data: self.urange_data,
            fid_data: self.fid_data,
            faces: self.faces,
        };
        Decoder::new(ctx).decode(self.writer)
    }
}

} // verus!

verus! {

/// The deltas of the singleton code points, each relative to the one
/// before; the first is relative to zero.
pub open spec fn encode_singles(singles: Seq<int>, prev: int) -> Seq<u8>
    decreases singles.len(),
{
    if singles.len() == 0 {
        Seq::empty()
    } else {
        varint_encode((singles[0] - prev) as nat) + encode_singles(singles.skip(1), singles[0])
    }
}

/// Start deltas relative to the previous span's end, and length deltas
/// relative to each start.
pub open spec fn encode_multis(multis: Seq<(int, int)>, prev: int) -> Seq<u8>
    decreases multis.len(),
{
    if multis.len() == 0 {
        Seq::empty()
    } else {
        varint_encode((multis[0].0 - prev) as nat) + varint_encode(
            (multis[0].1 - multis[0].0) as nat,
        ) + encode_multis(multis.skip(1), multis[0].1)
    }
}

/// One range's wire form: the singleton count and deltas, then the span
/// count and delta pairs.
pub open spec fn encode_urange(r: crate::unicode::URange) -> Seq<u8> {
    varint_encode(r.singles().len()) + encode_singles(r.singles(), 0) + varint_encode(
        r.multis().len(),
    ) + encode_multis(r.multis(), 0)
}

/// The `urange_data` stream: every range of the partition in order.
pub open spec fn encode_urange_list(rs: Seq<crate::unicode::URange>) -> Seq<u8>
    decreases rs.len(),
{
    if rs.len() == 0 {
        Seq::empty()
    } else {
        encode_urange(rs[0]) + encode_urange_list(rs.skip(1))
    }
}

/// The `fid_data` stream: each identifier length-prefixed, in order.
pub open spec fn encode_fid_list(fids: Seq<Seq<u8>>) -> Seq<u8>
    decreases fids.len(),
{
    if fids.len() == 0 {
        Seq::empty()
    } else {
        varint_encode(fids[0].len()) + fids[0] + encode_fid_list(fids.skip(1))
    }
}

/// Appends the singleton count and deltas of one range.
#[verifier::rlimit(100)]
#[verifier::spinoff_prover]
fn write_singles(out: &mut Vec<u8>, r: &crate::unicode::URange)
    requires
        r.wf(),
        r.spans_view().len() < 0x1_0000_0000,
    ensures
        final(out)@ == old(out)@ + varint_encode(r.singles().len()) + encode_singles(
            r.singles(),
            0,
        ),
{
    let ghost base: Seq<u8> = out@;
    let spans: &Vec<crate::unicode::USpan> = r.as_spans();
    let ns: usize = r.single_count();
    proof {
        assert(r.singles().len() == ns);
        assert(r.singles().skip(0) =~= r.singles());
        assert(encode_singles(r.singles(), 0) =~= Seq::<u8>::empty() + encode_singles(
            r.singles().skip(0),
            0,
        ));
    }
    crate::varint::write_varint(out, ns as u32);
    let mut prev: u32 = 0;
    let mut k: usize = 0;
    let ghost singles: Seq<int> = r.singles();
    let ghost mut es: Seq<u8> = Seq::empty();
    while k < ns
        invariant
            k <= ns,
            ns <= spans@.len() < 0x1_0000_0000,
            crate::unicode::all_wf(spans@),
            spans_separated(r.spans_view().take(r.num_single_view())),
            forall|k2: int|
                0 <= k2 < r.num_single_view() ==> (#[trigger] r.spans_view()[k2]).spec_single(),
            spans@ == r.spans_view(),
            singles == r.singles(),
            ns == r.singles().len(),
            ns == r.num_single_view(),
            out@ == base + varint_encode(ns as nat) + es,
            encode_singles(singles, 0) == es + encode_singles(
                singles.skip(k as int),
                prev as int,
            ),
            k > 0 ==> prev == spans@[k - 1].start,
            k == 0 ==> prev == 0,
        decreases ns - k,
    {
        let cp: u32 = spans[k].start;
        proof {
            assert(r.spans_view().take(ns as int)[k as int] == spans@[k as int]);
            assert(singles[k as int] == spans@[k as int].lo());
            if k > 0 {
                assert(r.spans_view().take(ns as int)[k - 1] == spans@[k - 1]);
                assert(spans_separated(r.spans_view().take(r.num_single_view())));
                assert(spans@[k - 1].hi() + 1 < spans@[k as int].lo());
                assert(spans@[k - 1].spec_single());
            }
            assert(prev <= cp);
            assert(singles.skip(k as int)[0] == singles[k as int]);
            assert(singles.skip(k as int).skip(1) =~= singles.skip(k + 1));
        }
        crate::varint::write_varint(out, cp - prev);
        proof {
            es = es + varint_encode((cp - prev) as nat);
            assert(out@ =~= base + varint_encode(ns as nat) + es);
            assert(encode_singles(singles.skip(k as int), prev as int) == varint_encode(
                (cp - prev) as nat,
            ) + encode_singles(singles.skip(k + 1), cp as int));
            assert(encode_singles(singles, 0) =~= es + encode_singles(
                singles.skip(k + 1),
                cp as int,
            ));
        }
        prev = cp;
        k = k + 1;
    }
    proof {
        assert(singles.skip(ns as int) =~= Seq::<int>::empty());
        assert(encode_singles(singles, 0) =~= es);
        assert(out@ =~= old(out)@ + varint_encode(r.singles().len()) + encode_singles(
            r.singles(),
            0,
        ));
    }
}

/// Appends the span count and delta pairs of one range.
#[verifier::rlimit(100)]
#[verifier::spinoff_prover]
fn write_multis(out: &mut Vec<u8>, r: &crate::unicode::URange)
    requires
        r.wf(),
        r.spans_view().len() < 0x1_0000_0000,
    ensures
        final(out)@ == old(out)@ + varint_encode(r.multis().len()) + encode_multis(r.multis(), 0),
{
    let spans: &Vec<crate::unicode::USpan> = r.as_spans();
    let ns: usize = r.single_count();
    let nm: usize = r.multi_count();
    proof {
        assert(r.multis().len() == nm);
    }
    proof {
        assert(r.multis().skip(0) =~= r.multis());
        assert(encode_multis(r.multis(), 0) =~= Seq::<u8>::empty() + encode_multis(
            r.multis().skip(0),
            0,
        ));
    }
    crate::varint::write_varint(out, nm as u32);
    let ghost multis: Seq<(int, int)> = r.multis();
    let ghost base2: Seq<u8> = out@;
    let mut prev_end: u32 = 0;
    let mut j: usize = 0;
    let ghost mut ems: Seq<u8> = Seq::empty();
    while j < nm
        invariant
            j <= nm,
            crate::unicode::all_wf(spans@),
            spans_separated(r.spans_view().skip(r.num_single_view())),
            spans@ == r.spans_view(),
            multis == r.multis(),
            ns == r.singles().len(),
            nm == r.multis().len(),
            ns + nm == spans@.len() < 0x1_0000_0000,
            ns == r.num_single_view(),
            out@ == base2 + ems,
            encode_multis(multis, 0) == ems + encode_multis(multis.skip(j as int), prev_end as int),
            j > 0 ==> prev_end == spans@[ns + j - 1].end,
            j == 0 ==> prev_end == 0,
        decreases nm - j,
    {
        let lo: u32 = spans[ns + j].start;
        let hi: u32 = spans[ns + j].end;
        proof {
            assert(r.spans_view().skip(ns as int)[j as int] == spans@[ns + j]);
            assert(multis[j as int] == (spans@[ns + j].lo(), spans@[ns + j].hi()));
            assert(spans@[ns + j].wf());
            if j > 0 {
                assert(r.spans_view().skip(ns as int)[j - 1] == spans@[ns + j - 1]);
                assert(spans_separated(r.spans_view().skip(r.num_single_view())));
                assert(spans@[ns + j - 1].hi() + 1 < spans@[ns + j].lo());
            }
            assert(prev_end <= lo);
            assert(multis.skip(j as int)[0] == multis[j as int]);
            assert(multis.skip(j as int).skip(1) =~= multis.skip(j + 1));
        }
        crate::varint::write_varint(out, lo - prev_end);
        crate::varint::write_varint(out, hi - lo);
        proof {
            ems = ems + varint_encode((lo - prev_end) as nat) + varint_encode((hi - lo) as nat);
            assert(out@ =~= base2 + ems);
            assert(encode_multis(multis.skip(j as int), prev_end as int) == varint_encode(
                (lo - prev_end) as nat,
            ) + varint_encode((hi - lo) as nat) + encode_multis(multis.skip(j + 1), hi as int));
            assert(encode_multis(multis, 0) =~= ems + encode_multis(multis.skip(j + 1), hi as int));
        }
        prev_end = hi;
        j = j + 1;
    }
    proof {
        assert(multis.skip(nm as int) =~= Seq::<(int, int)>::empty());
        assert(encode_multis(multis, 0) =~= ems);
        assert(out@ =~= old(out)@ + varint_encode(r.multis().len()) + encode_multis(
            r.multis(),
            0,
        ));
    }
}

/// Two appended pieces of four parts land as one concatenation.
proof fn lemma_two_appends(
    base: Seq<u8>,
    a: Seq<u8>,
    b: Seq<u8>,
    c: Seq<u8>,
    d: Seq<u8>,
    mid: Seq<u8>,
    fin: Seq<u8>,
)
    requires
        mid == base + a + b,
        fin == mid + c + d,
    ensures
        fin == base + (a + b + c + d),
{
    assert(fin =~= base + (a + b + c + d));
}

/// Appends one range's encoding.
fn encode_one_urange(out: &mut Vec<u8>, r: &crate::unicode::URange)
    requires
        r.wf(),
        r.spans_view().len() < 0x1_0000_0000,
    ensures
        final(out)@ == old(out)@ + encode_urange(*r),
{
    write_singles(out, r);
    let ghost mid: Seq<u8> = out@;
    write_multis(out, r);
    proof {
        lemma_two_appends(
            old(out)@,
            varint_encode(r.singles().len()),
            encode_singles(r.singles(), 0),
            varint_encode(r.multis().len()),
            encode_multis(r.multis(), 0),
            mid,
            out@,
        );
    }
}

/// Encodes the `urange_data` stream for a partition, range by range.
pub fn encode_urange_data(partition: &Vec<crate::unicode::URange>) -> (r: Vec<u8>)
    requires
        forall|k: int|
            0 <= k < partition@.len() ==> (#[trigger] partition@[k]).wf()
                && partition@[k].spans_view().len() < 0x1_0000_0000,
    ensures
        r@ == encode_urange_list(partition@),
{
    let mut out: Vec<u8> = Vec::new();
    let mut k: usize = 0;
    let ghost mut em: Seq<u8> = Seq::empty();
    proof {
        assert(partition@.skip(0) =~= partition@);
        assert(encode_urange_list(partition@) =~= Seq::<u8>::empty() + encode_urange_list(
            partition@.skip(0),
        ));
    }
    while k < partition.len()
        invariant
            k <= partition@.len(),
            forall|k2: int|
                0 <= k2 < partition@.len() ==> (#[trigger] partition@[k2]).wf()
                    && partition@[k2].spans_view().len() < 0x1_0000_0000,
            out@ == em,
            encode_urange_list(partition@) == em + encode_urange_list(partition@.skip(k as int)),
        decreases partition@.len() - k,
    {
        encode_one_urange(&mut out, &partition[k]);
        proof {
            em = em + encode_urange(partition@[k as int]);
            assert(partition@.skip(k as int)[0] == partition@[k as int]);
            assert(partition@.skip(k as int).skip(1) =~= partition@.skip(k + 1));
            assert(encode_urange_list(partition@.skip(k as int)) == encode_urange(
                partition@[k as int],
            ) + encode_urange_list(partition@.skip(k + 1)));
            assert(encode_urange_list(partition@) =~= em + encode_urange_list(
                partition@.skip(k + 1),
            ));
        }
        k = k + 1;
    }
    proof {
        assert(partition@.skip(partition@.len() as int) =~= Seq::<crate::unicode::URange>::empty());
        assert(encode_urange_list(partition@) =~= em);
    }
    out
}

/// Encodes the `fid_data` stream: each identifier length-prefixed.
pub fn encode_fid_data(fids: &Vec<Vec<u8>>) -> (r: Vec<u8>)
    requires
        forall|k: int| 0 <= k < fids@.len() ==> (#[trigger] fids@[k])@.len() < 0x1_0000_0000,
    ensures
        r@ == encode_fid_list(fids.deep_view()),
{
    let mut out: Vec<u8> = Vec::new();
    let ghost all: Seq<Seq<u8>> = fids.deep_view();
    let mut k: usize = 0;
    let ghost mut em: Seq<u8> = Seq::empty();
    proof {
        assert(all.len() == fids@.len());
        assert(forall|k2: int| 0 <= k2 < all.len() ==> all[k2] == (#[trigger] fids@[k2])@);
    }
    proof {
        assert(all.skip(0) =~= all);
        assert(encode_fid_list(all) =~= Seq::<u8>::empty() + encode_fid_list(all.skip(0)));
    }
    while k < fids.len()
        invariant
            k <= all.len(),
            all == fids.deep_view(),
            all.len() == fids@.len(),
            forall|k2: int| 0 <= k2 < all.len() ==> all[k2] == (#[trigger] fids@[k2])@,
            forall|k2: int| 0 <= k2 < fids@.len() ==> (#[trigger] fids@[k2])@.len() < 0x1_0000_0000,
            out@ == em,
            encode_fid_list(all) == em + encode_fid_list(all.skip(k as int)),
        decreases all.len() - k,
    {
        let f: &Vec<u8> = &fids[k];
        crate::varint::write_varint(&mut out, f.len() as u32);
        out.extend_from_slice(f.as_slice());
        proof {
            assert(out@ =~= em + varint_encode(f@.len() as nat) + f@);
            em = em + varint_encode(f@.len() as nat) + f@;
            assert(all.skip(k as int)[0] == all[k as int]);
            assert(all.skip(k as int).skip(1) =~= all.skip(k + 1));
            assert(encode_fid_list(all.skip(k as int)) == varint_encode(all[k as int].len())
                + all[k as int] + encode_fid_list(all.skip(k + 1)));
            assert(encode_fid_list(all) =~= em + encode_fid_list(all.skip(k + 1)));
        }
        k = k + 1;
    }
    proof {
        assert(all.skip(all.len() as int) =~= Seq::<Seq<u8>>::empty());
        assert(encode_fid_list(all) =~= em);
    }
    out
}

} // verus!
