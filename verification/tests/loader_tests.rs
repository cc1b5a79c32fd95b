use fontchan::codec::{encode_fid_data, encode_urange_data, CSSFragments};
use fontchan::loader::{estimated_heap_size, render_loader};
use fontchan::unicode::URangeBuilder;
use fontchan::wasm::{patch_module, ModuleInfo, WasmPatchError};

#[test]
fn heap_size_is_output_plus_headroom() {
    let chars: Vec<char> = "ab".chars().collect();
    let ranges = vec![URangeBuilder::from_chars(&chars).build()];
    let urange_data = encode_urange_data(&ranges);
    let fid_data = encode_fid_data(&vec![b"0_abcdef01".to_vec()]);
    let faces = vec![CSSFragments { ext: b"".to_vec(), src: b"src:url(x);".to_vec() }];
    let n = estimated_heap_size(urange_data.as_slice(), fid_data.as_slice(), faces.as_slice())
        .unwrap();
    assert_eq!(n, b"@font-face{src:url(x);unicode-range:U+61-62;}".len() + 65536);
}

#[test]
fn loader_render_substitutes_all_three() {
    let template = b"m=\"{%WASM_BASE64%}\";f=\"{%FONT_SPECS%}\";s=\"{%SHA%}\";";
    let out = render_loader(template, b"WASM", b"[]");
    let expected = format!(
        "m={};f=[];s={};",
        "V0FTTQ==",
        "ijQeuCmwalJXGBKITZTtnTy5W2fQZUIBGZhF8k1DQHRoc7KurjtCLAJrYQ1-rJ9ZuysSZoTQ3aBwMNjAkNGB5w=="
    );
    assert_eq!(String::from_utf8(out).unwrap(), expected);
}

#[test]
fn patch_rewrites_slots_and_memory() {
    // a 24-byte segment at base 16; the five slots sit at its start
    let info = ModuleInfo {
        base: 16,
        segment: vec![0u8; 24],
        data_end: 40,
        urange_start: 16,
        urange_len: 20,
        fid_start: 24,
        fid_len: 28,
        heap_start: 32,
        mem_min_pages: 1,
    };
    let urange_data = vec![1u8, 2, 3];
    let fid_data = vec![4u8, 5];
    let m = patch_module(&info, urange_data.as_slice(), fid_data.as_slice(), 100_000).unwrap();
    // old bytes, then the two streams
    assert_eq!(m.segment.len(), 24 + 3 + 2);
    assert_eq!(&m.segment[24..27], &[1, 2, 3]);
    assert_eq!(&m.segment[27..29], &[4, 5]);
    // URANGE_START = base + 24 = 40
    assert_eq!(&m.segment[0..4], &40u32.to_le_bytes());
    // URANGE_LEN = 3
    assert_eq!(&m.segment[4..8], &3u32.to_le_bytes());
    // FID_START = 40 + 3
    assert_eq!(&m.segment[8..12], &43u32.to_le_bytes());
    // FID_LEN = 2
    assert_eq!(&m.segment[12..16], &2u32.to_le_bytes());
    // HEAP_START = 43 + 2
    assert_eq!(&m.segment[16..20], &45u32.to_le_bytes());
    // pages = ceil((40 + 100000 + 3 + 2) / 65536) = 2
    assert_eq!(m.min_pages, 2);
}

#[test]
fn patch_never_lowers_the_memory_floor() {
    let info = ModuleInfo {
        base: 0,
        segment: vec![0u8; 20],
        data_end: 20,
        urange_start: 0,
        urange_len: 4,
        fid_start: 8,
        fid_len: 12,
        heap_start: 16,
        mem_min_pages: 9,
    };
    let m = patch_module(&info, &[], &[], 10).unwrap();
    assert_eq!(m.min_pages, 9);
}

#[test]
fn patch_rejects_out_of_range_slots() {
    let info = ModuleInfo {
        base: 0,
        segment: vec![0u8; 4],
        data_end: 4,
        urange_start: 100,
        urange_len: 0,
        fid_start: 0,
        fid_len: 0,
        heap_start: 0,
        mem_min_pages: 1,
    };
    assert_eq!(
        patch_module(&info, &[], &[], 0).unwrap_err(),
        WasmPatchError::SlotOutOfRange
    );
}
