use fontchan::codec::{
    encode_fid_data, encode_urange_data, Bytes, CSSFragments, CounterWriter, StdContext,
    VecWriter,
};
use fontchan::unicode::URangeBuilder;
use fontchan::varint::write_varint;

#[test]
fn varint_roundtrip_three_hundred() {
    let mut out: Vec<u8> = Vec::new();
    write_varint(&mut out, 300);
    assert_eq!(out, vec![0xAC, 0x02]);
    let mut b = Bytes::new(out.as_slice());
    assert_eq!(b.read_varint(), Some(300));
    assert!(b.is_empty());
}

#[test]
fn varint_extremes() {
    for v in [0u32, 1, 127, 128, 0xFFFF_FFFF] {
        let mut out: Vec<u8> = Vec::new();
        write_varint(&mut out, v);
        let mut b = Bytes::new(out.as_slice());
        assert_eq!(b.read_varint(), Some(v));
        assert!(b.is_empty());
    }
}

#[test]
fn varint_rejects_truncation() {
    let data = vec![0x80u8];
    let mut b = Bytes::new(data.as_slice());
    assert_eq!(b.read_varint(), None);
}

#[test]
fn codec_roundtrip_one_face() {
    let chars: Vec<char> = "ab".chars().collect();
    let ranges = vec![URangeBuilder::from_chars(&chars).build()];
    let urange_data = encode_urange_data(&ranges);
    let fid_data = encode_fid_data(&vec![b"0_abcdef01".to_vec()]);
    let faces = vec![CSSFragments { ext: b"".to_vec(), src: b"src:url(x);".to_vec() }];
    let out = StdContext {
        writer: VecWriter::new(),
        urange_data: urange_data.as_slice(),
        fid_data: fid_data.as_slice(),
        faces: faces.as_slice(),
    }
    .decode()
    .into_vec();
    assert_eq!(out, b"@font-face{src:url(x);unicode-range:U+61-62;}".to_vec());
}

#[test]
fn codec_emits_singles_then_ranges() {
    let chars: Vec<char> = "\u{0}mxyz".chars().collect();
    let ranges = vec![URangeBuilder::from_chars(&chars).build()];
    let urange_data = encode_urange_data(&ranges);
    let fid_data = encode_fid_data(&vec![b"f".to_vec()]);
    let faces = vec![CSSFragments { ext: b"E;".to_vec(), src: b"S;".to_vec() }];
    let out = StdContext {
        writer: VecWriter::new(),
        urange_data: urange_data.as_slice(),
        fid_data: fid_data.as_slice(),
        faces: faces.as_slice(),
    }
    .decode()
    .into_vec();
    // zero renders as "0"; singletons come before the span
    assert_eq!(
        String::from_utf8(out).unwrap(),
        "@font-face{E;S;unicode-range:U+0,U+6d,U+78-7a;}"
    );
}

#[test]
fn codec_replays_ranges_per_face() {
    let a: Vec<char> = "a".chars().collect();
    let ranges = vec![URangeBuilder::from_chars(&a).build()];
    let urange_data = encode_urange_data(&ranges);
    let fid_data = encode_fid_data(&vec![b"x".to_vec(), b"y".to_vec()]);
    let faces = vec![
        CSSFragments { ext: b"".to_vec(), src: b"1;".to_vec() },
        CSSFragments { ext: b"".to_vec(), src: b"2;".to_vec() },
    ];
    let out = StdContext {
        writer: VecWriter::new(),
        urange_data: urange_data.as_slice(),
        fid_data: fid_data.as_slice(),
        faces: faces.as_slice(),
    }
    .decode()
    .into_vec();
    assert_eq!(
        String::from_utf8(out).unwrap(),
        "@font-face{1;unicode-range:U+61;}@font-face{2;unicode-range:U+61;}"
    );
}

#[test]
fn counter_writer_counts_the_same_bytes() {
    let chars: Vec<char> = "ab".chars().collect();
    let ranges = vec![URangeBuilder::from_chars(&chars).build()];
    let urange_data = encode_urange_data(&ranges);
    let fid_data = encode_fid_data(&vec![b"0_abcdef01".to_vec()]);
    let faces = vec![CSSFragments { ext: b"".to_vec(), src: b"src:url(x);".to_vec() }];
    let n = StdContext {
        writer: CounterWriter::new(),
        urange_data: urange_data.as_slice(),
        fid_data: fid_data.as_slice(),
        faces: faces.as_slice(),
    }
    .decode()
    .value();
    assert_eq!(n, b"@font-face{src:url(x);unicode-range:U+61-62;}".len());
}

#[test]
fn encoder_wire_format() {
    // singles: m; multis: a-c (sorted singles-first by the builder)
    let chars: Vec<char> = "abcm".chars().collect();
    let ranges = vec![URangeBuilder::from_chars(&chars).build()];
    let data = encode_urange_data(&ranges);
    // 1 single: delta 0x6d; 1 range: start delta 0x61, length 2
    assert_eq!(data, vec![1, 0x6d, 1, 0x61, 2]);
    let fids = encode_fid_data(&vec![b"ab".to_vec()]);
    assert_eq!(fids, vec![2, 0x61, 0x62]);
}
