//! Parsing of the W3C `unicode-range` grammar: comma-separated pieces, each
//! `U+HHHH`, `U+HHHH-HHHH`, or a wildcard form whose trailing `?`s expand to
//! a whole aligned block. The leading `u`/`U` and `+` are optional together.

use crate::unicode::{URangeBuilder, USpan};
use vstd::prelude::*;

verus! {

/// Why a `unicode-range` string was rejected.
#[derive(Clone, Copy, Debug, PartialEq, Eq, Structural)]
pub enum CssParseError {
    /// A piece is not a code point, range or wildcard, or lies outside the
    /// Unicode scalar values.
    InvalidPiece,
    /// A piece holds more than one `-`.
    TooManyDashes,
}

pub open spec fn is_css_ws(b: u8) -> bool {
    b == 32 || b == 9 || b == 10 || b == 11 || b == 12 || b == 13
}

pub open spec fn trim_start_spec(s: Seq<u8>) -> Seq<u8>
    decreases s.len(),
{
    if s.len() > 0 && is_css_ws(s[0]) {
        trim_start_spec(s.skip(1))
    } else {
        s
    }
}

pub open spec fn trim_end_spec(s: Seq<u8>) -> Seq<u8>
    decreases s.len(),
{
    if s.len() > 0 && is_css_ws(s.last()) {
        trim_end_spec(s.drop_last())
    } else {
        s
    }
}

pub open spec fn trim_spec(s: Seq<u8>) -> Seq<u8> {
    trim_end_spec(trim_start_spec(s))
}

/// Index of the first `d` in `s`, or `-1`.
pub open spec fn find_byte(s: Seq<u8>, d: u8) -> int
    decreases s.len(),
{
    if s.len() == 0 {
        -1
    } else if s[0] == d {
        0
    } else {
        let r = find_byte(s.skip(1), d);
        if r == -1 {
            -1
        } else {
            r + 1
        }
    }
}

pub proof fn lemma_find_byte_range(s: Seq<u8>, d: u8)
    ensures
        -1 <= find_byte(s, d) < s.len(),
        find_byte(s, d) >= 0 ==> s[find_byte(s, d)] == d,
    decreases s.len(),
{
    if s.len() > 0 && s[0] != d {
        lemma_find_byte_range(s.skip(1), d);
    }
}

/// How many copies of `b` end the sequence.
pub open spec fn count_trailing(s: Seq<u8>, b: u8) -> int
    decreases s.len(),
{
    if s.len() > 0 && s.last() == b {
        1 + count_trailing(s.drop_last(), b)
    } else {
        0
    }
}

pub proof fn lemma_count_trailing_range(s: Seq<u8>, b: u8)
    ensures
        0 <= count_trailing(s, b) <= s.len(),
    decreases s.len(),
{
    if s.len() > 0 && s.last() == b {
        lemma_count_trailing_range(s.drop_last(), b);
    }
}

pub open spec fn is_hex_digit(b: u8) -> bool {
    (48 <= b <= 57) || (97 <= b <= 102) || (65 <= b <= 70)
}

/// The value of a hex digit; zero on anything else.
pub open spec fn hex_digit_val(b: u8) -> int {
    if 48 <= b <= 57 {
        b - 48
    } else if 97 <= b <= 102 {
        b - 87
    } else if 65 <= b <= 70 {
        b - 55
    } else {
        0
    }
}

pub open spec fn all_hex(s: Seq<u8>) -> bool {
    forall|i: int| 0 <= i < s.len() ==> is_hex_digit(#[trigger] s[i])
}

/// The number the digits spell, most significant first.
pub open spec fn hex_value(s: Seq<u8>) -> int
    decreases s.len(),
{
    if s.len() == 0 {
        0
    } else {
        16 * hex_value(s.drop_last()) + hex_digit_val(s.last())
    }
}

pub proof fn lemma_hex_value_nonneg(s: Seq<u8>)
    ensures
        hex_value(s) >= 0,
    decreases s.len(),
{
    if s.len() > 0 {
        lemma_hex_value_nonneg(s.drop_last());
    }
}

/// A longer digit string never spells a smaller number.
proof fn lemma_hex_value_prefix(s: Seq<u8>, i: int)
    requires
        0 <= i <= s.len(),
    ensures
        hex_value(s.take(i)) <= hex_value(s),
    decreases s.len() - i,
{
    if i < s.len() {
        lemma_hex_value_prefix(s, i + 1);
        assert(s.take(i + 1).drop_last() =~= s.take(i));
        assert(s.take(i + 1).last() == s[i]);
        lemma_hex_value_nonneg(s.take(i));
        assert(hex_value(s.take(i + 1)) == 16 * hex_value(s.take(i)) + hex_digit_val(s[i]));
        assert(hex_digit_val(s[i]) >= 0);
        assert(hex_value(s.take(i)) <= hex_value(s.take(i + 1)));
    } else {
        assert(s.take(i) =~= s);
    }
}

/// The digits of a number literal: everything after an optional `+`.
pub open spec fn hex_digits_of(s: Seq<u8>) -> Seq<u8> {
    if s.len() > 0 && s[0] == 43 {
        s.skip(1)
    } else {
        s
    }
}

/// What `u32::from_str_radix(s, 16)` accepts: an optional `+`, then one or
/// more hex digits spelling a value below 2^32.
pub open spec fn parse_hex_spec(s: Seq<u8>) -> Option<int> {
    let t = hex_digits_of(s);
    if t.len() >= 1 && all_hex(t) && hex_value(t) <= 0xFFFF_FFFF {
        Some(hex_value(t))
    } else {
        None
    }
}

pub open spec fn pow16(n: nat) -> int
    decreases n,
{
    if n == 0 {
        1
    } else {
        16 * pow16((n - 1) as nat)
    }
}

/// A code point that a `char` can carry.
pub open spec fn is_scalar_int(v: int) -> bool {
    0 <= v <= 0x10FFFF && !(0xD800 <= v <= 0xDFFF)
}

/// One side of a piece: `HHHH` or `HH??`, with the `u+`/`U+` prefix
/// stripped after trimming; without the prefix the raw, untrimmed text
/// must parse as it stands.
pub open spec fn parse_part_spec(s: Seq<u8>) -> Option<USpan> {
    let t = trim_spec(s);
    let body = if t.len() >= 2 && (t[0] == 117 || t[0] == 85) && t[1] == 43 {
        t.skip(2)
    } else {
        s
    };
    let n_wc = count_trailing(body, 63);
    let core = body.take(body.len() - n_wc);
    if n_wc > 0 {
        let num = if core.len() == 0 {
            Some(0)
        } else {
            parse_hex_spec(core)
        };
        match num {
            None => None,
            Some(v) => {
                if n_wc >= 8 {
                    None
                } else {
                    let start = v * pow16(n_wc as nat);
                    let end = (v + 1) * pow16(n_wc as nat) - 1;
                    if end > 0xFFFF_FFFF || !is_scalar_int(start) || !is_scalar_int(end) {
                        None
                    } else {
                        Some(USpan { start: start as u32, end: end as u32 })
                    }
                }
            },
        }
    } else {
        if core.len() == 0 {
            None
        } else {
            match parse_hex_spec(core) {
                None => None,
                Some(v) => {
                    if is_scalar_int(v) {
                        Some(USpan { start: v as u32, end: v as u32 })
                    } else {
                        None
                    }
                },
            }
        }
    }
}

/// One comma-separated piece: a single part, or two parts joined by `-`
/// where each side is a single code point in nondecreasing order. The
/// error, when there is one, and the span otherwise.
pub open spec fn parse_piece_spec(piece: Seq<u8>) -> (Option<CssParseError>, USpan) {
    let p = trim_spec(piece);
    let f = find_byte(p, 45);
    if f == -1 {
        match parse_part_spec(p) {
            Some(sp) => (None, sp),
            None => (Some(CssParseError::InvalidPiece), USpan { start: 0, end: 0 }),
        }
    } else {
        let first = p.take(f);
        let rest = p.skip(f + 1);
        let f2 = find_byte(rest, 45);
        let second = if f2 == -1 {
            rest
        } else {
            rest.take(f2)
        };
        match parse_part_spec(first) {
            None => (Some(CssParseError::InvalidPiece), USpan { start: 0, end: 0 }),
            Some(s0) => match parse_part_spec(second) {
                None => (Some(CssParseError::InvalidPiece), USpan { start: 0, end: 0 }),
                Some(s1) => {
                    if s0.spec_single() && s1.spec_single() && s0.lo() <= s1.lo() {
                        if f2 == -1 {
                            (None, USpan { start: s0.start, end: s1.end })
                        } else {
                            (Some(CssParseError::TooManyDashes), USpan { start: 0, end: 0 })
                        }
                    } else {
                        (Some(CssParseError::InvalidPiece), USpan { start: 0, end: 0 })
                    }
                },
            },
        }
    }
}

/// The whole comma-separated list: the first failing piece's error, or the
/// spans of every piece in order.
pub open spec fn parse_ranges_spec(input: Seq<u8>) -> (Option<CssParseError>, Seq<USpan>)
    decreases input.len(),
{
    let f = find_byte(input, 44);
    if !(0 <= f < input.len()) {
        let (e, sp) = parse_piece_spec(input);
        match e {
            Some(err) => (Some(err), Seq::empty()),
            None => (None, seq![sp]),
        }
    } else {
        let (e, sp) = parse_piece_spec(input.take(f));
        match e {
            Some(err) => (Some(err), Seq::empty()),
            None => {
                let (erest, rest) = parse_ranges_spec(input.skip(f + 1));
                match erest {
                    Some(err) => (Some(err), Seq::empty()),
                    None => (None, seq![sp] + rest),
                }
            },
        }
    }
}

fn trim_start(s: &[u8]) -> (r: &[u8])
    ensures
        r@ == trim_start_spec(s@),
    decreases s@.len(),
{
    if s.len() > 0 {
        let b: u8 = s[0];
        if b == 32 || b == 9 || b == 10 || b == 11 || b == 12 || b == 13 {
            let (_, tail) = s.split_at(1);
            proof {
                assert(tail@ =~= s@.skip(1));
            }
            return trim_start(tail);
        }
    }
    s
}

fn trim_end(s: &[u8]) -> (r: &[u8])
    ensures
        r@ == trim_end_spec(s@),
    decreases s@.len(),
{
    if s.len() > 0 {
        let b: u8 = s[s.len() - 1];
        if b == 32 || b == 9 || b == 10 || b == 11 || b == 12 || b == 13 {
            let (head, _) = s.split_at(s.len() - 1);
            proof {
                assert(head@ =~= s@.drop_last());
            }
            return trim_end(head);
        }
    }
    s
}

fn trim(s: &[u8]) -> (r: &[u8])
    ensures
        r@ == trim_spec(s@),
{
    trim_end(trim_start(s))
}

fn find(s: &[u8], d: u8) -> (r: Option<usize>)
    ensures
        find_byte(s@, d) == -1 ==> r is None,
        find_byte(s@, d) >= 0 ==> r == Some(find_byte(s@, d) as usize),
        r matches Some(i) ==> 0 <= find_byte(s@, d) && i == find_byte(s@, d) && i < s@.len(),
    decreases s@.len(),
{
    if s.len() == 0 {
        None
    } else if s[0] == d {
        Some(0)
    } else {
        let (_, tail) = s.split_at(1);
        proof {
            assert(tail@ =~= s@.skip(1));
        }
        match find(tail, d) {
            None => None,
            Some(i) => {
                proof {
                    lemma_find_byte_range(tail@, d);
                }
                Some(i + 1)
            },
        }
    }
}

fn count_trailing_exec(s: &[u8], b: u8) -> (r: usize)
    ensures
        r == count_trailing(s@, b),
        r <= s@.len(),
    decreases s@.len(),
{
    if s.len() > 0 && s[s.len() - 1] == b {
        let (head, _) = s.split_at(s.len() - 1);
        proof {
            assert(head@ =~= s@.drop_last());
        }
        1 + count_trailing_exec(head, b)
    } else {
        0
    }
}

fn parse_hex(s: &[u8]) -> (r: Option<u32>)
    ensures
        match parse_hex_spec(s@) {
            Some(v) => r matches Some(x) && x == v,
            None => r is None,
        },
{
    let t: &[u8] = if s.len() > 0 && s[0] == 43 {
        let (_, tail) = s.split_at(1);
        proof {
            assert(tail@ =~= s@.skip(1));
        }
        tail
    } else {
        s
    };
    if t.len() == 0 {
        return None;
    }
    let mut acc: u64 = 0;
    let mut i: usize = 0;
    while i < t.len()
        invariant
            i <= t@.len(),
            t@.len() >= 1,
            t@ == hex_digits_of(s@),
            all_hex(t@.take(i as int)),
            acc == hex_value(t@.take(i as int)),
            acc <= 0xFFFF_FFFF,
        decreases t@.len() - i,
    {
        let b: u8 = t[i];
        let v: u8 = if 48 <= b && b <= 57 {
            b - 48
        } else if 97 <= b && b <= 102 {
            b - 87
        } else if 65 <= b && b <= 70 {
            b - 55
        } else {
            proof {
                assert(!is_hex_digit(t@[i as int]));
                assert(!all_hex(t@));
            }
            return None;
        };
        proof {
            assert(is_hex_digit(b));
            assert(v == hex_digit_val(b));
            assert(t@.take(i + 1).drop_last() =~= t@.take(i as int));
            assert(t@.take(i + 1).last() == t@[i as int]);
        }
        acc = acc * 16 + v as u64;
        proof {
            assert(acc == hex_value(t@.take(i + 1)));
        }
        if acc > 0xFFFF_FFFF {
            proof {
                lemma_hex_value_prefix(t@, i + 1);
                assert(hex_value(t@) > 0xFFFF_FFFF);
            }
            return None;
        }
        i = i + 1;
    }
    proof {
        assert(t@.take(t@.len() as int) =~= t@);
    }
    Some(acc as u32)
}

/// The powers of 16 a wildcard of up to seven `?`s can need.
fn pow16_exec(n: usize) -> (r: u64)
    requires
        n < 8,
    ensures
        r == pow16(n as nat),
{
    proof {
        reveal_with_fuel(pow16, 9);
    }
    if n == 0 {
        1
    } else if n == 1 {
        16
    } else if n == 2 {
        256
    } else if n == 3 {
        4096
    } else if n == 4 {
        65536
    } else if n == 5 {
        1048576
    } else if n == 6 {
        16777216
    } else {
        268435456
    }
}

fn is_scalar_exec(v: u64) -> (r: bool)
    ensures
        r == is_scalar_int(v as int),
{
    v < 0xD800 || (0xE000 <= v && v <= 0x10FFFF)
}

fn parse_part(s: &[u8]) -> (r: Option<USpan>)
    ensures
        r == parse_part_spec(s@),
        r matches Some(sp) ==> sp.wf(),
    decreases s@.len(),
{
    let t: &[u8] = trim(s);
    let body: &[u8] = if t.len() >= 2 && (t[0] == 117 || t[0] == 85) && t[1] == 43 {
        let (_, tail) = t.split_at(2);
        proof {
            assert(tail@ =~= trim_spec(s@).skip(2));
        }
        tail
    } else {
        s
    };
    let n_wc: usize = count_trailing_exec(body, 63);
    let (core, _) = body.split_at(body.len() - n_wc);
    proof {
        assert(core@ =~= body@.take(body@.len() - count_trailing(body@, 63)));
    }
    if n_wc > 0 {
        let num: Option<u32> = if core.len() == 0 {
            Some(0)
        } else {
            parse_hex(core)
        };
        let v: u32 = match num {
            Some(v) => v,
            None => {
                return None;
            },
        };
        if n_wc >= 8 {
            return None;
        }
        let mult: u64 = pow16_exec(n_wc);
        proof {
            assert(1 <= mult <= 268435456) by {
                reveal_with_fuel(pow16, 9);
            }
            assert((v as u64 + 1) * mult <= 0x1_0000_0000u64 * 0x1000_0000u64 && v as u64 * mult
                <= (v as u64 + 1) * mult && 1 <= (v as u64 + 1) * mult) by (nonlinear_arith)
                requires
                    v as u64 + 1 <= 0x1_0000_0000u64,
                    1 <= mult <= 0x1000_0000u64,
            ;
        }
        let start: u64 = v as u64 * mult;
        let end: u64 = (v as u64 + 1) * mult - 1;
        proof {
            assert(start <= end) by (nonlinear_arith)
                requires
                    mult >= 1,
                    start == v as u64 * mult,
                    end == (v as u64 + 1) * mult - 1,
            ;
        }
        if end > 0xFFFF_FFFF || !is_scalar_exec(start) || !is_scalar_exec(end) {
            return None;
        }
        Some(USpan { start: start as u32, end: end as u32 })
    } else {
        if core.len() == 0 {
            return None;
        }
        let v: u32 = match parse_hex(core) {
            Some(v) => v,
            None => {
                return None;
            },
        };
        if is_scalar_exec(v as u64) {
            Some(USpan { start: v, end: v })
        } else {
            None
        }
    }
}

fn parse_piece(piece: &[u8]) -> (r: Result<USpan, CssParseError>)
    ensures
        match parse_piece_spec(piece@) {
            (Some(e), _) => r == Err::<USpan, CssParseError>(e),
            (None, sp) => r == Ok::<USpan, CssParseError>(sp) && sp.wf(),
        },
{
    let p: &[u8] = trim(piece);
    match find(p, 45) {
        None => {
            proof {
                lemma_find_byte_range(p@, 45);
            }
            match parse_part(p) {
                Some(sp) => Ok(sp),
                None => Err(CssParseError::InvalidPiece),
            }
        },
        Some(f) => {
            proof {
                lemma_find_byte_range(p@, 45);
                vstd::slice::axiom_spec_len::<u8>(p);
            }
            let (first, _) = p.split_at(f);
            let (_, rest) = p.split_at(f + 1);
            proof {
                assert(first@ =~= p@.take(find_byte(p@, 45)));
                assert(rest@ =~= p@.skip(find_byte(p@, 45) + 1));
                lemma_find_byte_range(rest@, 45);
            }
            let second: &[u8] = match find(rest, 45) {
                None => rest,
                Some(f2) => {
                    let (sec, _) = rest.split_at(f2);
                    proof {
                        assert(sec@ =~= rest@.take(find_byte(rest@, 45)));
                    }
                    sec
                },
            };
            let s0: USpan = match parse_part(first) {
                Some(s0) => s0,
                None => {
                    return Err(CssParseError::InvalidPiece);
                },
            };
            let s1: USpan = match parse_part(second) {
                Some(s1) => s1,
                None => {
                    return Err(CssParseError::InvalidPiece);
                },
            };
            if s0.is_single() && s1.is_single() && s0.start <= s1.start {
                match find(rest, 45) {
                    None => Ok(USpan { start: s0.start, end: s1.end }),
                    Some(_) => Err(CssParseError::TooManyDashes),
                }
            } else {
                Err(CssParseError::InvalidPiece)
            }
        },
    }
}

fn parse_ranges(input: &[u8]) -> (r: Result<Vec<USpan>, CssParseError>)
    ensures
        match parse_ranges_spec(input@) {
            (Some(e), _) => r == Err::<Vec<USpan>, CssParseError>(e),
            (None, sps) => r matches Ok(v) && v@ == sps && crate::unicode::all_wf(v@),
        },
    decreases input@.len(),
{
    match find(input, 44) {
        None => {
            proof {
                lemma_find_byte_range(input@, 44);
            }
            let sp: USpan = match parse_piece(input) {
                Ok(sp) => sp,
                Err(e) => {
                    return Err(e);
                },
            };
            let mut out: Vec<USpan> = Vec::new();
            out.push(sp);
            proof {
                assert(out@ =~= seq![sp]);
            }
            Ok(out)
        },
        Some(f) => {
            proof {
                lemma_find_byte_range(input@, 44);
                vstd::slice::axiom_spec_len::<u8>(input);
            }
            let (piece, _) = input.split_at(f);
            let (_, rest) = input.split_at(f + 1);
            proof {
                assert(piece@ =~= input@.take(find_byte(input@, 44)));
                assert(rest@ =~= input@.skip(find_byte(input@, 44) + 1));
            }
            let sp: USpan = match parse_piece(piece) {
                Ok(sp) => sp,
                Err(e) => {
                    return Err(e);
                },
            };
            let mut tail: Vec<USpan> = match parse_ranges(rest) {
                Ok(tail) => tail,
                Err(e) => {
                    return Err(e);
                },
            };
            let mut out: Vec<USpan> = Vec::new();
            out.push(sp);
            out.append(&mut tail);
            proof {
                assert(out@ =~= seq![sp] + parse_ranges_spec(rest@).1);
            }
            Ok(out)
        },
    }
}

impl URangeBuilder {
    /// Parses a CSS `unicode-range` value into a builder holding one span
    /// per comma-separated piece, in source order.
    pub fn from_css_syntax(input: &[u8]) -> (r: Result<URangeBuilder, CssParseError>)
        ensures
            match parse_ranges_spec(input@) {
                (Some(e), _) => r == Err::<URangeBuilder, CssParseError>(e),
                (None, sps) => r matches Ok(b) && b.spans_view() == sps && crate::unicode::all_wf(
                    b.spans_view(),
                ),
            },
    {
        match parse_ranges(input) {
            Ok(spans) => Ok(URangeBuilder::from_spans(spans)),
            Err(e) => Err(e),
        }
    }
}

} // verus!
