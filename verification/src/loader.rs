//! The loader artifact: sizes the decoder heap by a dry run with the
//! counting writer, and renders the loader template with the module, the
//! face data and their fingerprint.

use crate::codec::{spec_decode, CSSFragments, CounterWriter, SliceContext, StdContext};
use crate::digest::{base64std_exec, base64std_of, base64url_of, plus_remap, sha512_of, Digester};
use crate::tmpl::{render_spec, Tmpl};
use vstd::prelude::*;

verus! {

/// `the slot the module bytes fill`
pub open spec fn wasm_mvar_bytes() -> Seq<u8> {
    seq![34u8, 123u8, 37u8, 87u8, 65u8, 83u8, 77u8, 95u8, 66u8, 65u8, 83u8, 69u8, 54u8, 52u8, 37u8, 125u8, 34u8]
}

fn lit_wasm_mvar() -> (r: Vec<u8>)
    ensures
        r@ == wasm_mvar_bytes(),
{
    let mut v: Vec<u8> = Vec::new();
    v.push(34);
    v.push(123);
    v.push(37);
    v.push(87);
    v.push(65);
    v.push(83);
    v.push(77);
    v.push(95);
    v.push(66);
    v.push(65);
    v.push(83);
    v.push(69);
    v.push(54);
    v.push(52);
    v.push(37);
    v.push(125);
    v.push(34);
    proof {
        assert(v@ =~= wasm_mvar_bytes());
    }
    v
}

/// `the slot the face data fills`
pub open spec fn specs_mvar_bytes() -> Seq<u8> {
    seq![34u8, 123u8, 37u8, 70u8, 79u8, 78u8, 84u8, 95u8, 83u8, 80u8, 69u8, 67u8, 83u8, 37u8, 125u8, 34u8]
}

fn lit_specs_mvar() -> (r: Vec<u8>)
    ensures
        r@ == specs_mvar_bytes(),
{
    let mut v: Vec<u8> = Vec::new();
    v.push(34);
    v.push(123);
    v.push(37);
    v.push(70);
    v.push(79);
    v.push(78);
    v.push(84);
    v.push(95);
    v.push(83);
    v.push(80);
    v.push(69);
    v.push(67);
    v.push(83);
    v.push(37);
    v.push(125);
    v.push(34);
    proof {
        assert(v@ =~= specs_mvar_bytes());
    }
    v
}

/// `the slot the fingerprint fills`
pub open spec fn sha_mvar_bytes() -> Seq<u8> {
    seq![34u8, 123u8, 37u8, 83u8, 72u8, 65u8, 37u8, 125u8, 34u8]
}

fn lit_sha_mvar() -> (r: Vec<u8>)
    ensures
        r@ == sha_mvar_bytes(),
{
    let mut v: Vec<u8> = Vec::new();
    v.push(34);
    v.push(123);
    v.push(37);
    v.push(83);
    v.push(72);
    v.push(65);
    v.push(37);
    v.push(125);
    v.push(34);
    proof {
        assert(v@ =~= sha_mvar_bytes());
    }
    v
}

/// The decoder's output length for these streams and faces, plus a page of
/// headroom for the module's allocator; `None` when that sum cannot be
/// held.
pub fn estimated_heap_size(
    urange_data: &[u8],
    fid_data: &[u8],
    faces: &[CSSFragments],
) -> (r: Option<usize>)
    requires
        spec_decode(SliceContext { urange_data, fid_data, faces }).1.len() <= usize::MAX,
    ensures
        ({
            let n = spec_decode(SliceContext { urange_data, fid_data, faces }).1.len();
            if n + 65536 <= usize::MAX {
                r == Some((n + 65536) as usize)
            } else {
                r is None
            }
        }),
{
    let ctx = StdContext {
        writer: CounterWriter::new(),
        urange_data,
        fid_data,
        faces,
    };
    let counter: CounterWriter = ctx.decode();
    let n: usize = counter.value();
    if n <= usize::MAX - 65536 {
        Some(n + 65536)
    } else {
        None
    }
}

/// Renders the loader: the template with the module in standard base64,
/// the face data verbatim, and the SHA-512 of both in the project's base64
/// alphabet.
pub fn render_loader(template: &[u8], wasm_bin: &[u8], font_specs_json: &[u8]) -> (r: Vec<u8>)
    requires
        wasm_bin@.len() * 4 <= usize::MAX,
    ensures
        r@ == render_spec(
            template@,
            seq![
                (wasm_mvar_bytes(), base64std_of(wasm_bin@)),
                (specs_mvar_bytes(), font_specs_json@),
                (
                    sha_mvar_bytes(),
                    plus_remap(base64url_of(sha512_of(wasm_bin@ + font_specs_json@))),
                ),
            ],
        ),
{
    let sha = Digester::new().push(wasm_bin).push(font_specs_json).base64_result();
    let b64: Vec<u8> = base64std_exec(wasm_bin);
    let mut json: Vec<u8> = Vec::new();
    json.extend_from_slice(font_specs_json);
    let mut sha_bytes: Vec<u8> = Vec::new();
    sha_bytes.extend_from_slice(sha.as_bytes().as_slice());
    let mut vars: Vec<(Vec<u8>, Vec<u8>)> = Vec::new();
    vars.push((lit_wasm_mvar(), b64));
    vars.push((lit_specs_mvar(), json));
    vars.push((lit_sha_mvar(), sha_bytes));
    let mut tvec: Vec<u8> = Vec::new();
    tvec.extend_from_slice(template);
    let tm = Tmpl::new(tvec);
    proof {
        assert(json@ =~= font_specs_json@);
        assert(sha_bytes@ =~= plus_remap(base64url_of(sha512_of(wasm_bin@ + font_specs_json@))));
        assert(tvec@ =~= template@);
        assert(vars.deep_view() =~~= seq![
            (wasm_mvar_bytes(), base64std_of(wasm_bin@)),
            (specs_mvar_bytes(), font_specs_json@),
            (sha_mvar_bytes(), plus_remap(base64url_of(sha512_of(wasm_bin@ + font_specs_json@)))),
        ]);
    }
    tm.render(&vars)
}

} // verus!
