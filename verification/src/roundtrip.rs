//! Round-trip laws of the codec: decoding the encoder's streams is
//! complete and reproduces the reference `@font-face` CSS byte for byte,
//! face by face, range by range.

use crate::codec::{
    close_bytes, codepoint_hex, dec_blocks, dec_faces, dec_multis, dec_singles, encode_fid_list,
    encode_multis, encode_singles, encode_urange, encode_urange_list, face_open_bytes,
    spec_decode, string_decode, ur_label_bytes, varint_decode32, DecoderContext,
};
use crate::unicode::URange;
use crate::varint::{lemma_varint_roundtrip, varint_encode};
use vstd::prelude::*;

verus! {

/// Singleton values an encoder can emit: strictly ascending 32-bit code
/// points starting at or above the running previous value.
pub open spec fn singles_ok(singles: Seq<int>, prev: int) -> bool {
    &&& 0 <= prev < 0x1_0000_0000
    &&& forall|i: int| 0 <= i < singles.len() ==> 0 <= #[trigger] singles[i] < 0x1_0000_0000
    &&& (singles.len() > 0 ==> prev <= singles[0])
    &&& forall|i: int| 0 <= i && i + 1 < singles.len() ==> #[trigger] singles[i] < singles[i + 1]
}

/// Span values an encoder can emit: ordered pairs below 2^32, each span
/// starting at or after the running previous end.
pub open spec fn multis_ok(multis: Seq<(int, int)>, prev: int) -> bool {
    &&& 0 <= prev < 0x1_0000_0000
    &&& forall|i: int|
        0 <= i < multis.len() ==> 0 <= (#[trigger] multis[i]).0 <= multis[i].1 < 0x1_0000_0000
    &&& (multis.len() > 0 ==> prev <= multis[0].0)
    &&& forall|i: int|
        0 <= i && i + 1 < multis.len() ==> (#[trigger] multis[i]).1 <= multis[i + 1].0
}

/// Four leading pieces and a remainder land as one concatenation.
proof fn lemma_cat5(sep: Seq<u8>, p1: Seq<u8>, p2: Seq<u8>, p3: Seq<u8>, p4: Seq<u8>, tail: Seq<u8>)
    ensures
        sep + p1 + p2 + p3 + p4 + tail == (sep + p1 + p2 + p3 + p4) + tail,
        sep + ((p1 + p2 + p3 + p4) + tail) == (sep + p1 + p2 + p3 + p4) + tail,
{
    assert(sep + p1 + p2 + p3 + p4 + tail =~= (sep + p1 + p2 + p3 + p4) + tail);
    assert(sep + ((p1 + p2 + p3 + p4) + tail) =~= (sep + p1 + p2 + p3 + p4) + tail);
}

/// The CSS a singleton list decodes to: `U+hex` entries joined by commas.
pub open spec fn singles_css(singles: Seq<int>, first: bool) -> Seq<u8>
    decreases singles.len(),
{
    if singles.len() == 0 {
        Seq::empty()
    } else {
        (if first {
            Seq::<u8>::empty()
        } else {
            seq![44u8]
        }) + seq![85u8, 43u8] + codepoint_hex(singles[0] as nat) + singles_css(
            singles.skip(1),
            false,
        )
    }
}

/// The CSS a span list decodes to: `U+hex-hex` entries joined by commas.
pub open spec fn multis_css(multis: Seq<(int, int)>, first: bool) -> Seq<u8>
    decreases multis.len(),
{
    if multis.len() == 0 {
        Seq::empty()
    } else {
        (if first {
            Seq::<u8>::empty()
        } else {
            seq![44u8]
        }) + seq![85u8, 43u8] + codepoint_hex(multis[0].0 as nat) + seq![45u8] + codepoint_hex(
            multis[0].1 as nat,
        ) + multis_css(multis.skip(1), false)
    }
}

/// The `unicode-range` value of one range: singletons, a comma when both
/// lists are populated, then the spans.
pub open spec fn range_list_css(r: URange) -> Seq<u8> {
    singles_css(r.singles(), true) + (if r.singles().len() != 0 && r.multis().len() != 0 {
        seq![44u8]
    } else {
        Seq::<u8>::empty()
    }) + multis_css(r.multis(), true)
}

/// Decoding an encoded singleton list emits its CSS, consumes exactly the
/// encoding, and leaves the previous value at the last code point.
#[verifier::rlimit(100)]
#[verifier::spinoff_prover]
pub proof fn lemma_dec_singles_of_enc(singles: Seq<int>, prev: int, rest: Seq<u8>, first: bool)
    requires
        singles_ok(singles, prev),
    ensures
        dec_singles(singles.len() as nat, encode_singles(singles, prev) + rest, prev as nat, first)
            == (
            true,
            singles_css(singles, first),
            rest,
            (if singles.len() > 0 {
                singles.last()
            } else {
                prev
            }) as nat,
        ),
    decreases singles.len(),
{
    if singles.len() == 0 {
        assert(encode_singles(singles, prev) + rest =~= rest);
    } else {
        let d = (singles[0] - prev) as nat;
        let enc0 = varint_encode(d);
        let tail_enc = encode_singles(singles.skip(1), singles[0]);
        assert(encode_singles(singles, prev) + rest =~= enc0 + (tail_enc + rest));
        lemma_varint_roundtrip(d, tail_enc + rest);
        assert(varint_decode32(enc0 + (tail_enc + rest)) == Some((d, enc0.len() as int)));
        assert((enc0 + (tail_enc + rest)).skip(enc0.len() as int) =~= tail_enc + rest);
        let cp = (prev as nat + d) % 0x1_0000_0000;
        assert(cp == singles[0]);
        assert(singles_ok(singles.skip(1), singles[0])) by {
            assert(forall|i: int|
                0 <= i < singles.skip(1).len() ==> #[trigger] singles.skip(1)[i] == singles[i
                    + 1]);
        }
        lemma_dec_singles_of_enc(singles.skip(1), singles[0], rest, false);
        let sep: Seq<u8> = if first {
            Seq::empty()
        } else {
            seq![44u8]
        };
        assert(singles.skip(1).len() > 0 ==> singles.skip(1).last() == singles.last());
        assert(dec_singles(
            singles.len() as nat,
            encode_singles(singles, prev) + rest,
            prev as nat,
            first,
        ).1 =~= singles_css(singles, first));
    }
}

/// Decoding an encoded span list emits its CSS, consumes exactly the
/// encoding, and leaves the previous value at the last end.
#[verifier::rlimit(100)]
#[verifier::spinoff_prover]
pub proof fn lemma_dec_multis_of_enc(multis: Seq<(int, int)>, prev: int, rest: Seq<u8>, first: bool)
    requires
        multis_ok(multis, prev),
    ensures
        dec_multis(multis.len() as nat, encode_multis(multis, prev) + rest, prev as nat, first)
            == (
            true,
            multis_css(multis, first),
            rest,
            (if multis.len() > 0 {
                multis.last().1
            } else {
                prev
            }) as nat,
        ),
    decreases multis.len(),
{
    if multis.len() == 0 {
        assert(encode_multis(multis, prev) + rest =~= rest);
    } else {
        let d1 = (multis[0].0 - prev) as nat;
        let d2 = (multis[0].1 - multis[0].0) as nat;
        let enc1 = varint_encode(d1);
        let enc2 = varint_encode(d2);
        let tail_enc = encode_multis(multis.skip(1), multis[0].1);
        assert(encode_multis(multis, prev) + rest =~= enc1 + (enc2 + (tail_enc + rest)));
        lemma_varint_roundtrip(d1, enc2 + (tail_enc + rest));
        assert(varint_decode32(enc1 + (enc2 + (tail_enc + rest))) == Some((
            d1,
            enc1.len() as int,
        )));
        assert((enc1 + (enc2 + (tail_enc + rest))).skip(enc1.len() as int) =~= enc2 + (tail_enc
            + rest));
        lemma_varint_roundtrip(d2, tail_enc + rest);
        assert((enc2 + (tail_enc + rest)).skip(enc2.len() as int) =~= tail_enc + rest);
        let start = (prev as nat + d1) % 0x1_0000_0000;
        assert(start == multis[0].0);
        let end = (start + d2) % 0x1_0000_0000;
        assert(end == multis[0].1);
        assert(multis_ok(multis.skip(1), multis[0].1)) by {
            assert(forall|i: int|
                0 <= i < multis.skip(1).len() ==> #[trigger] multis.skip(1)[i] == multis[i + 1]);
        }
        lemma_dec_multis_of_enc(multis.skip(1), multis[0].1, rest, false);
        assert(multis.skip(1).len() > 0 ==> multis.skip(1).last() == multis.last());
        let sep: Seq<u8> = if first {
            Seq::empty()
        } else {
            seq![44u8]
        };
        lemma_cat5(
            sep,
            seq![85u8, 43u8],
            codepoint_hex(multis[0].0 as nat),
            seq![45u8],
            codepoint_hex(multis[0].1 as nat),
            multis_css(multis.skip(1), false),
        );
        assert(dec_multis(
            multis.len() as nat,
            encode_multis(multis, prev) + rest,
            prev as nat,
            first,
        ).1 =~= multis_css(multis, first));
    }
}

/// The encoder's inputs drawn from a well-formed range.
pub open spec fn range_encodable(r: URange) -> bool {
    &&& r.wf()
    &&& r.spans_view().len() < 0x1_0000_0000
}

/// A well-formed range's singleton and span lists satisfy the encoder's
/// ordering, starting from zero.
pub proof fn lemma_range_lists_ok(r: URange)
    requires
        range_encodable(r),
    ensures
        singles_ok(r.singles(), 0),
        multis_ok(r.multis(), 0),
        r.singles().len() + r.multis().len() == r.spans_view().len(),
{
    let s = r.singles();
    let m = r.multis();
    let sp = r.spans_view();
    let ns = r.num_single_view();
    assert(ns <= sp.len());
    assert(sp.take(ns).len() == ns);
    assert(s.len() == sp.take(ns).len());
    assert(sp.skip(ns).len() == sp.len() - ns);
    assert(m.len() == sp.skip(ns).len());
    assert forall|i: int| 0 <= i < s.len() implies 0 <= #[trigger] s[i] < 0x1_0000_0000 by {
        assert(sp.take(ns)[i] == sp[i]);
    }
    assert forall|i: int| 0 <= i && i + 1 < s.len() implies #[trigger] s[i] < s[i + 1] by {
        assert(sp.take(ns)[i] == sp[i]);
        assert(sp.take(ns)[i + 1] == sp[i + 1]);
        assert(crate::unicode::spans_separated(sp.take(ns)));
        assert(sp.take(ns)[i].hi() + 1 < sp.take(ns)[i + 1].lo());
        assert(sp[i].spec_single());
    }
    assert forall|i: int| 0 <= i < m.len() implies 0 <= (#[trigger] m[i]).0 <= m[i].1
        < 0x1_0000_0000 by {
        assert(sp.skip(ns)[i] == sp[ns + i]);
        assert(sp[ns + i].wf());
    }
    assert forall|i: int| 0 <= i && i + 1 < m.len() implies (#[trigger] m[i]).1 <= m[i + 1].0 by {
        assert(sp.skip(ns)[i] == sp[ns + i]);
        assert(sp.skip(ns)[i + 1] == sp[ns + i + 1]);
        assert(crate::unicode::spans_separated(sp.skip(ns)));
        assert(sp.skip(ns)[i].hi() + 1 < sp.skip(ns)[i + 1].lo());
    }
}

} // verus!

verus! {

/// A length-prefixed string at the front of a stream reads back exactly.
pub proof fn lemma_string_decode_of_enc(fid: Seq<u8>, rest: Seq<u8>)
    requires
        fid.len() < 0x1_0000_0000,
    ensures
        string_decode(varint_encode(fid.len()) + fid + rest) == Some((
            fid,
            (varint_encode(fid.len()).len() + fid.len()) as int,
        )),
{
    let enc = varint_encode(fid.len());
    assert(enc + fid + rest =~= enc + (fid + rest));
    lemma_varint_roundtrip(fid.len(), fid + rest);
    let s = enc + fid + rest;
    assert(varint_decode32(s) == Some((fid.len(), enc.len() as int)));
    assert(s.subrange(enc.len() as int, (enc.len() + fid.len()) as int) =~= fid);
}

/// Encoding a concatenation of identifier lists concatenates the encodings.
pub proof fn lemma_enc_fid_append(a: Seq<Seq<u8>>, b: Seq<Seq<u8>>)
    ensures
        encode_fid_list(a + b) == encode_fid_list(a) + encode_fid_list(b),
    decreases a.len(),
{
    if a.len() == 0 {
        assert(a + b =~= b);
        assert(encode_fid_list(a) + encode_fid_list(b) =~= encode_fid_list(b));
    } else {
        lemma_enc_fid_append(a.skip(1), b);
        assert((a + b).skip(1) =~= a.skip(1) + b);
        assert((a + b)[0] == a[0]);
        assert(encode_fid_list(a + b) =~= encode_fid_list(a) + encode_fid_list(b));
    }
}

} // verus!

verus! {

/// The head of a block and its range list land as one concatenation.
proof fn lemma_block_glue(
    fo: Seq<u8>,
    ext: Seq<u8>,
    srcb: Seq<u8>,
    lab: Seq<u8>,
    sc: Seq<u8>,
    comma: Seq<u8>,
    mc: Seq<u8>,
    rec: Seq<u8>,
)
    ensures
        (fo + ext + srcb + lab) + sc + comma + mc + close_bytes() + rec == fo + ext + srcb + lab
            + (sc + comma + mc) + close_bytes() + rec,
{
    assert((fo + ext + srcb + lab) + sc + comma + mc + close_bytes() + rec =~= fo + ext + srcb
        + lab + (sc + comma + mc) + close_bytes() + rec);
}

/// One encoded range's payload — the two counts and delta lists, with a
/// length-prefixed identifier in front — decodes as one `@font-face`
/// block followed by whatever the remaining streams decode to.
#[verifier::rlimit(100)]
#[verifier::spinoff_prover]
proof fn lemma_dec_range_payload<C: DecoderContext>(
    c: C,
    idx: int,
    singles: Seq<int>,
    multis: Seq<(int, int)>,
    ur_rest: Seq<u8>,
    fid0: Seq<u8>,
    fid_tail: Seq<u8>,
)
    requires
        singles_ok(singles, 0),
        multis_ok(multis, 0),
        singles.len() < 0x1_0000_0000,
        multis.len() < 0x1_0000_0000,
        fid0.len() < 0x1_0000_0000,
    ensures
        ({
            let payload = varint_encode(singles.len()) + encode_singles(singles, 0)
                + varint_encode(multis.len()) + encode_multis(multis, 0);
            let comma: Seq<u8> = if singles.len() != 0 && multis.len() != 0 {
                seq![44u8]
            } else {
                Seq::empty()
            };
            let rest = dec_blocks(c, idx, ur_rest, fid_tail);
            dec_blocks(
                c,
                idx,
                payload + ur_rest,
                varint_encode(fid0.len()) + fid0 + fid_tail,
            ) == (
                rest.0,
                face_open_bytes() + c.ext_spec(idx) + c.src_spec(idx, fid0) + ur_label_bytes()
                    + (singles_css(singles, true) + comma + multis_css(multis, true))
                    + close_bytes() + rest.1,
                rest.2,
            )
        }),
{
    let vs = varint_encode(singles.len());
    let es = encode_singles(singles, 0);
    let vm = varint_encode(multis.len());
    let em = encode_multis(multis, 0);
    let ur = (vs + es + vm + em) + ur_rest;
    let fenc = varint_encode(fid0.len());
    let fid = fenc + fid0 + fid_tail;
    lemma_string_decode_of_enc(fid0, fid_tail);
    assert(fid.skip((fenc.len() + fid0.len()) as int) =~= fid_tail);
    assert(ur =~= vs + (es + (vm + (em + ur_rest))));
    lemma_varint_roundtrip(singles.len(), es + (vm + (em + ur_rest)));
    assert(varint_decode32(ur) == Some((singles.len(), vs.len() as int)));
    assert(ur.skip(vs.len() as int) =~= es + (vm + (em + ur_rest)));
    lemma_dec_singles_of_enc(singles, 0, vm + (em + ur_rest), true);
    let s = dec_singles(singles.len(), es + (vm + (em + ur_rest)), 0, true);
    assert(s.0 && s.1 == singles_css(singles, true) && s.2 == vm + (em + ur_rest));
    lemma_varint_roundtrip(multis.len(), em + ur_rest);
    assert(varint_decode32(vm + (em + ur_rest)) == Some((multis.len(), vm.len() as int)));
    assert((vm + (em + ur_rest)).skip(vm.len() as int) =~= em + ur_rest);
    lemma_dec_multis_of_enc(multis, 0, ur_rest, true);
    let m = dec_multis(multis.len(), em + ur_rest, 0, true);
    assert(m.0 && m.1 == multis_css(multis, true) && m.2 == ur_rest);
    assert(ur.len() > 0) by {
        crate::varint::lemma_varint_encode_len(singles.len());
    }
    let comma: Seq<u8> = if singles.len() != 0 && multis.len() != 0 {
        seq![44u8]
    } else {
        Seq::empty()
    };
    let rest = dec_blocks(c, idx, ur_rest, fid_tail);
    lemma_block_glue(
        face_open_bytes(),
        c.ext_spec(idx),
        c.src_spec(idx, fid0),
        ur_label_bytes(),
        singles_css(singles, true),
        comma,
        multis_css(multis, true),
        rest.1,
    );
    assert(dec_blocks(c, idx, ur, fid).1 == face_open_bytes() + c.ext_spec(idx) + c.src_spec(
        idx,
        fid0,
    ) + ur_label_bytes() + (singles_css(singles, true) + comma + multis_css(multis, true))
        + close_bytes() + rest.1);
}

/// One encoded block decodes as its face's `@font-face` text — the opener,
/// the face's own CSS, and the range's `unicode-range` list — followed by
/// whatever the remaining streams decode to. This is the decoder's
/// emission for one encoded range, byte for byte.
pub proof fn lemma_dec_block_step<C: DecoderContext>(
    c: C,
    idx: int,
    r: URange,
    ur_rest: Seq<u8>,
    fid0: Seq<u8>,
    fid_tail: Seq<u8>,
)
    requires
        range_encodable(r),
        fid0.len() < 0x1_0000_0000,
    ensures
        ({
            let rest = dec_blocks(c, idx, ur_rest, fid_tail);
            dec_blocks(
                c,
                idx,
                encode_urange(r) + ur_rest,
                varint_encode(fid0.len()) + fid0 + fid_tail,
            ) == (
                rest.0,
                face_open_bytes() + c.ext_spec(idx) + c.src_spec(idx, fid0) + ur_label_bytes()
                    + range_list_css(r) + close_bytes() + rest.1,
                rest.2,
            )
        }),
{
    lemma_range_lists_ok(r);
    lemma_dec_range_payload(c, idx, r.singles(), r.multis(), ur_rest, fid0, fid_tail);
    assert(encode_urange(r) == varint_encode(r.singles().len()) + encode_singles(r.singles(), 0)
        + varint_encode(r.multis().len()) + encode_multis(r.multis(), 0));
    assert(range_list_css(r) == singles_css(r.singles(), true) + (if r.singles().len() != 0
        && r.multis().len() != 0 {
        seq![44u8]
    } else {
        Seq::<u8>::empty()
    }) + multis_css(r.multis(), true));
}

/// The blocks one face emits for an encoded partition: per range, the
/// opener, the face's own CSS, and its `unicode-range` list.
pub open spec fn blocks_css<C: DecoderContext>(
    c: C,
    idx: int,
    rs: Seq<URange>,
    fids: Seq<Seq<u8>>,
) -> Seq<u8>
    decreases rs.len(),
{
    if rs.len() == 0 {
        Seq::empty()
    } else {
        face_open_bytes() + c.ext_spec(idx) + c.src_spec(idx, fids[0]) + ur_label_bytes()
            + range_list_css(rs[0]) + close_bytes() + blocks_css(c, idx, rs.skip(1), fids.skip(1))
    }
}

/// Decoding one face over an encoded partition is complete and yields the
/// reference blocks, consuming one identifier per range.
#[verifier::rlimit(100)]
#[verifier::spinoff_prover]
pub proof fn lemma_dec_blocks_of_enc<C: DecoderContext>(
    c: C,
    idx: int,
    rs: Seq<URange>,
    fids: Seq<Seq<u8>>,
    fid_rest: Seq<u8>,
)
    requires
        forall|k: int| 0 <= k < rs.len() ==> range_encodable(#[trigger] rs[k]),
        fids.len() == rs.len(),
        forall|k: int| 0 <= k < fids.len() ==> (#[trigger] fids[k]).len() < 0x1_0000_0000,
    ensures
        dec_blocks(c, idx, encode_urange_list(rs), encode_fid_list(fids) + fid_rest) == (
            true,
            blocks_css(c, idx, rs, fids),
            fid_rest,
        ),
    decreases rs.len(),
{
    if rs.len() == 0 {
        assert(encode_urange_list(rs) =~= Seq::<u8>::empty());
        assert(encode_fid_list(fids) + fid_rest =~= fid_rest);
    } else {
        assert(forall|k: int|
            0 <= k < rs.skip(1).len() ==> #[trigger] rs.skip(1)[k] == rs[k + 1]);
        assert(forall|k: int|
            0 <= k < fids.skip(1).len() ==> #[trigger] fids.skip(1)[k] == fids[k + 1]);
        lemma_dec_blocks_of_enc(c, idx, rs.skip(1), fids.skip(1), fid_rest);
        lemma_dec_block_step(
            c,
            idx,
            rs[0],
            encode_urange_list(rs.skip(1)),
            fids[0],
            encode_fid_list(fids.skip(1)) + fid_rest,
        );
        assert(encode_urange_list(rs) == encode_urange(rs[0]) + encode_urange_list(rs.skip(1)));
        assert(encode_fid_list(fids) + fid_rest =~= varint_encode(fids[0].len()) + fids[0] + (
        encode_fid_list(fids.skip(1)) + fid_rest));
        let rest = dec_blocks(
            c,
            idx,
            encode_urange_list(rs.skip(1)),
            encode_fid_list(fids.skip(1)) + fid_rest,
        );
        assert(rest == (true, blocks_css(c, idx, rs.skip(1), fids.skip(1)), fid_rest));
        assert(dec_blocks(c, idx, encode_urange_list(rs), encode_fid_list(fids) + fid_rest).1
            == blocks_css(c, idx, rs, fids));
    }
}

/// The faces' blocks from face `i` on, each face consuming its own run of
/// identifiers.
pub open spec fn faces_css<C: DecoderContext>(
    c: C,
    i: int,
    count: int,
    rs: Seq<URange>,
    all_fids: Seq<Seq<u8>>,
) -> Seq<u8>
    decreases count - i,
{
    if i >= count {
        Seq::empty()
    } else {
        blocks_css(c, i, rs, all_fids.subrange(i * rs.len(), (i + 1) * rs.len() as int))
            + faces_css(c, i + 1, count, rs, all_fids)
    }
}

/// Decoding every face over the encoded streams is complete and consumes
/// the identifier stream exactly.
pub proof fn lemma_dec_faces_of_enc<C: DecoderContext>(
    c: C,
    i: int,
    count: int,
    rs: Seq<URange>,
    all_fids: Seq<Seq<u8>>,
)
    requires
        0 <= i <= count,
        forall|k: int| 0 <= k < rs.len() ==> range_encodable(#[trigger] rs[k]),
        all_fids.len() == count * rs.len(),
        forall|k: int| 0 <= k < all_fids.len() ==> (#[trigger] all_fids[k]).len() < 0x1_0000_0000,
    ensures
        dec_faces(
            c,
            i,
            count,
            encode_urange_list(rs),
            encode_fid_list(all_fids.skip(i * rs.len())),
        ) == (true, faces_css(c, i, count, rs, all_fids), Seq::<u8>::empty()),
    decreases count - i,
{
    let m = rs.len() as int;
    if i >= count {
        assert(i * m >= all_fids.len()) by (nonlinear_arith)
            requires
                i >= count,
                m >= 0,
                all_fids.len() == count * m,
        ;
        assert(all_fids.skip(i * m) =~= Seq::<Seq<u8>>::empty());
        assert(encode_fid_list(all_fids.skip(i * m)) =~= Seq::<u8>::empty());
    } else {
        let chunk = all_fids.subrange(i * m, (i + 1) * m);
        let after = all_fids.skip((i + 1) * m);
        assert(0 <= i * m && i * m + m <= all_fids.len() && (i + 1) * m == i * m + m)
            by (nonlinear_arith)
            requires
                0 <= i < count,
                m >= 0,
                all_fids.len() == count * m,
        ;
        assert(all_fids.skip(i * m) =~= chunk + after);
        lemma_enc_fid_append(chunk, after);
        assert(chunk.len() == m);
        assert(forall|k: int|
            0 <= k < chunk.len() ==> (#[trigger] chunk[k]) == all_fids[i * m + k]);
        assert(forall|k: int| 0 <= k < chunk.len() ==> (#[trigger] chunk[k]).len() < 0x1_0000_0000);
        lemma_dec_blocks_of_enc(c, i, rs, chunk, encode_fid_list(after));
        assert(encode_fid_list(all_fids.skip(i * m)) =~= encode_fid_list(chunk)
            + encode_fid_list(after));
        lemma_dec_faces_of_enc(c, i + 1, count, rs, all_fids);
        let whole = dec_faces(c, i, count, encode_urange_list(rs), encode_fid_list(chunk + after));
        assert(whole.0);
        assert(whole.1 =~= faces_css(c, i, count, rs, all_fids));
        assert(whole.2 =~= Seq::<u8>::empty());
    }
}

/// Decode of encode, byte for byte: a context whose streams are the
/// encoder's output over well-formed ranges and per-face identifier runs
/// decodes completely into the reference CSS.
pub proof fn lemma_codec_roundtrip<C: DecoderContext>(c: C, rs: Seq<URange>, all_fids: Seq<Seq<u8>>)
    requires
        c.urange_spec() == encode_urange_list(rs),
        c.fid_spec() == encode_fid_list(all_fids),
        forall|k: int| 0 <= k < rs.len() ==> range_encodable(#[trigger] rs[k]),
        all_fids.len() == c.face_count_spec() * rs.len(),
        c.face_count_spec() >= 0,
        forall|k: int| 0 <= k < all_fids.len() ==> (#[trigger] all_fids[k]).len() < 0x1_0000_0000,
    ensures
        spec_decode(c) == (true, faces_css(c, 0, c.face_count_spec(), rs, all_fids)),
{
    assert(all_fids.skip(0) =~= all_fids);
    lemma_dec_faces_of_enc(c, 0, c.face_count_spec(), rs, all_fids);
}

} // verus!
