//! Per-output build records: the content fingerprint of a (font, bucket)
//! pair, the font identifier it yields, the destination it resolves to,
//! and the ordering of collected results.

use crate::digest::{base64url_of, plus_remap, sha512_of, DigestString, Digester};
use crate::tmpl::{render_spec, PathTmpl};
use crate::unicode::{URange, USpan};
use vstd::prelude::*;

verus! {

/// The external subsetter an output is produced with; its identity is part
/// of every fingerprint.
#[derive(Clone, Copy, Debug, PartialEq, Eq, Structural)]
pub enum Backend {
    Harfbuzz,
    Pyft,
}

/// What the fingerprint sees of the bundled shaper backend.
pub open spec fn harfbuzz_id_bytes() -> Seq<u8> {
    seq![104u8, 97u8, 114u8, 102u8, 98u8, 117u8, 122u8, 122u8, 95u8, 114u8, 115u8, 95u8, 110u8, 111u8, 119u8]
}

fn lit_harfbuzz_id() -> (r: Vec<u8>)
    ensures
        r@ == harfbuzz_id_bytes(),
{
    let mut v: Vec<u8> = Vec::new();
    v.push(104);
    v.push(97);
    v.push(114);
    v.push(102);
    v.push(98);
    v.push(117);
    v.push(122);
    v.push(122);
    v.push(95);
    v.push(114);
    v.push(115);
    v.push(95);
    v.push(110);
    v.push(111);
    v.push(119);
    proof {
        assert(v@ =~= harfbuzz_id_bytes());
    }
    v
}

/// What the fingerprint sees of the external subsetter backend:
/// its name and fixed arguments.
pub open spec fn pyft_id_bytes() -> Seq<u8> {
    seq![112u8, 121u8, 102u8, 116u8, 115u8, 117u8, 98u8, 115u8, 101u8, 116u8, 45u8, 45u8, 105u8, 103u8, 110u8, 111u8, 114u8, 101u8, 45u8, 109u8, 105u8, 115u8, 115u8, 105u8, 110u8, 103u8, 45u8, 103u8, 108u8, 121u8, 112u8, 104u8, 115u8, 45u8, 45u8, 110u8, 111u8, 45u8, 115u8, 117u8, 98u8, 115u8, 101u8, 116u8, 45u8, 116u8, 97u8, 98u8, 108u8, 101u8, 115u8, 43u8, 61u8, 70u8, 70u8, 84u8, 77u8, 44u8, 109u8, 111u8, 114u8, 120u8, 44u8, 102u8, 101u8, 97u8, 116u8]
}

fn lit_pyft_id() -> (r: Vec<u8>)
    ensures
        r@ == pyft_id_bytes(),
{
    let mut v: Vec<u8> = Vec::new();
    v.push(112);
    v.push(121);
    v.push(102);
    v.push(116);
    v.push(115);
    v.push(117);
    v.push(98);
    v.push(115);
    v.push(101);
    v.push(116);
    v.push(45);
    v.push(45);
    v.push(105);
    v.push(103);
    v.push(110);
    v.push(111);
    v.push(114);
    v.push(101);
    v.push(45);
    v.push(109);
    v.push(105);
    v.push(115);
    v.push(115);
    v.push(105);
    v.push(110);
    v.push(103);
    v.push(45);
    v.push(103);
    v.push(108);
    v.push(121);
    v.push(112);
    v.push(104);
    v.push(115);
    v.push(45);
    v.push(45);
    v.push(110);
    v.push(111);
    v.push(45);
    v.push(115);
    v.push(117);
    v.push(98);
    v.push(115);
    v.push(101);
    v.push(116);
    v.push(45);
    v.push(116);
    v.push(97);
    v.push(98);
    v.push(108);
    v.push(101);
    v.push(115);
    v.push(43);
    v.push(61);
    v.push(70);
    v.push(70);
    v.push(84);
    v.push(77);
    v.push(44);
    v.push(109);
    v.push(111);
    v.push(114);
    v.push(120);
    v.push(44);
    v.push(102);
    v.push(101);
    v.push(97);
    v.push(116);
    proof {
        assert(v@ =~= pyft_id_bytes());
    }
    v
}

/// The backend identity bytes mixed into every fingerprint.
pub open spec fn backend_id_bytes(b: Backend) -> Seq<u8> {
    match b {
        Backend::Harfbuzz => harfbuzz_id_bytes(),
        Backend::Pyft => pyft_id_bytes(),
    }
}

impl Backend {
    /// The identity bytes this backend contributes to fingerprints.
    pub fn identity_bytes(&self) -> (r: Vec<u8>)
        ensures
            r@ == backend_id_bytes(*self),
    {
        match self {
            Backend::Harfbuzz => lit_harfbuzz_id(),
            Backend::Pyft => lit_pyft_id(),
        }
    }
}

/// The metavariable an output path template carries.
pub open spec fn fid_mvar_bytes() -> Seq<u8> {
    seq![60u8, 70u8, 73u8, 68u8, 62u8]
}

fn lit_fid_mvar() -> (r: Vec<u8>)
    ensures
        r@ == fid_mvar_bytes(),
{
    let mut v: Vec<u8> = Vec::new();
    v.push(60);
    v.push(70);
    v.push(73);
    v.push(68);
    v.push(62);
    proof {
        assert(v@ =~= fid_mvar_bytes());
    }
    v
}

/// Each span's `(start, end)` pair as little-endian 32-bit words, in build
/// order.
pub open spec fn range_wire_bytes(spans: Seq<USpan>) -> Seq<u8>
    decreases spans.len(),
{
    if spans.len() == 0 {
        Seq::empty()
    } else {
        le32_bytes(spans[0].start) + le32_bytes(spans[0].end) + range_wire_bytes(spans.skip(1))
    }
}

pub open spec fn le32_bytes(v: u32) -> Seq<u8> {
    seq![
        (v % 256) as u8,
        ((v / 256) % 256) as u8,
        ((v / 65536) % 256) as u8,
        ((v / 16777216) % 256) as u8,
    ]
}

/// The bytes a range contributes to fingerprints.
pub fn range_update_bytes(range: &URange) -> (r: Vec<u8>)
    ensures
        r@ == range_wire_bytes(range.spans_view()),
{
    let spans: &Vec<USpan> = range.as_spans();
    let mut out: Vec<u8> = Vec::new();
    let mut k: usize = 0;
    proof {
        assert(spans@.skip(0) =~= spans@);
        assert(out@ + range_wire_bytes(spans@.skip(0)) =~= range_wire_bytes(spans@));
    }
    while k < spans.len()
        invariant
            k <= spans@.len(),
            spans@ == range.spans_view(),
            out@ + range_wire_bytes(spans@.skip(k as int)) == range_wire_bytes(spans@),
        decreases spans@.len() - k,
    {
        let s: USpan = spans[k];
        proof {
            assert(spans@.skip(k as int)[0] == s);
            assert(spans@.skip(k as int).skip(1) =~= spans@.skip(k + 1));
        }
        out.push((s.start % 256) as u8);
        out.push(((s.start / 256) % 256) as u8);
        out.push(((s.start / 65536) % 256) as u8);
        out.push(((s.start / 16777216) % 256) as u8);
        out.push((s.end % 256) as u8);
        out.push(((s.end / 256) % 256) as u8);
        out.push(((s.end / 65536) % 256) as u8);
        out.push(((s.end / 16777216) % 256) as u8);
        proof {
            assert(out@ + range_wire_bytes(spans@.skip(k + 1)) =~= range_wire_bytes(spans@));
        }
        k = k + 1;
    }
    proof {
        assert(spans@.skip(spans@.len() as int) =~= Seq::<USpan>::empty());
        assert(out@ =~= range_wire_bytes(spans@));
    }
    out
}

/// What one output's fingerprint covers: the font's digest, the range's
/// wire bytes, the backend identity.
pub open spec fn fingerprint_input(
    font_digest: Seq<u8>,
    spans: Seq<USpan>,
    backend: Backend,
) -> Seq<u8> {
    font_digest + range_wire_bytes(spans) + backend_id_bytes(backend)
}

/// The fingerprint of one (font, bucket, backend) triple.
pub fn compute_digest(font_digest: &[u8], range: &URange, backend: Backend) -> (r: DigestString)
    ensures
        r.bytes_view() == plus_remap(
            base64url_of(
                sha512_of(fingerprint_input(font_digest@, range.spans_view(), backend)),
            ),
        ),
        r.bytes_view().len() == 88,
{
    let wire: Vec<u8> = range_update_bytes(range);
    let id: Vec<u8> = backend.identity_bytes();
    let d = Digester::new().push(font_digest).push(wire.as_slice()).push(id.as_slice());
    proof {
        assert(d.data_view() =~= fingerprint_input(font_digest@, range.spans_view(), backend));
    }
    d.base64_result()
}

/// The font identifier CSS sees: the entry name, `_`, and the first eight
/// digest characters.
pub open spec fn fid_bytes(name: Seq<u8>, digest: Seq<u8>) -> Seq<u8> {
    name + seq![95u8] + digest.take(8)
}

/// Builds one font identifier.
pub fn make_fid(name: &[u8], digest: &DigestString) -> (r: Vec<u8>)
    requires
        digest.bytes_view().len() >= 8,
    ensures
        r@ == fid_bytes(name@, digest.bytes_view()),
{
    let mut out: Vec<u8> = Vec::new();
    out.extend_from_slice(name);
    out.push(95);
    let d: &Vec<u8> = digest.as_bytes();
    let mut k: usize = 0;
    while k < 8
        invariant
            k <= 8,
            digest.bytes_view().len() >= 8,
            d@ == digest.bytes_view(),
            out@ == name@ + seq![95u8] + d@.take(k as int),
        decreases 8 - k,
    {
        out.push(d[k]);
        proof {
            assert(d@.take(k + 1) =~= d@.take(k as int).push(d@[k as int]));
            assert(out@ =~= name@ + seq![95u8] + d@.take(k + 1));
        }
        k = k + 1;
    }
    out
}

/// The routine name of the bundled shaper backend.
pub open spec fn harfbuzz_name_bytes() -> Seq<u8> {
    seq![104u8, 97u8, 114u8, 102u8, 98u8, 117u8, 122u8, 122u8]
}

fn lit_harfbuzz_name() -> (r: Vec<u8>)
    ensures
        r@ == harfbuzz_name_bytes(),
{
    let mut v: Vec<u8> = Vec::new();
    v.push(104);
    v.push(97);
    v.push(114);
    v.push(102);
    v.push(98);
    v.push(117);
    v.push(122);
    v.push(122);
    proof {
        assert(v@ =~= harfbuzz_name_bytes());
    }
    v
}

/// The routine name of the external subsetter backend.
pub open spec fn pyft_name_bytes() -> Seq<u8> {
    seq![112u8, 121u8, 102u8, 116u8]
}

fn lit_pyft_name() -> (r: Vec<u8>)
    ensures
        r@ == pyft_name_bytes(),
{
    let mut v: Vec<u8> = Vec::new();
    v.push(112);
    v.push(121);
    v.push(102);
    v.push(116);
    proof {
        assert(v@ =~= pyft_name_bytes());
    }
    v
}

/// The backend a configured routine name selects: the bundled shaper when
/// none is named, else the matching backend; `None` for an unknown name.
pub fn backend_by_name(name: Option<&[u8]>) -> (r: Option<Backend>)
    ensures
        ({
            match name {
                None => r == Some(Backend::Harfbuzz),
                Some(n) => {
                    if n@ == harfbuzz_name_bytes() {
                        r == Some(Backend::Harfbuzz)
                    } else if n@ == pyft_name_bytes() {
                        r == Some(Backend::Pyft)
                    } else {
                        r is None
                    }
                },
            }
        }),
{
    match name {
        None => Some(Backend::Harfbuzz),
        Some(n) => {
            let hb: Vec<u8> = lit_harfbuzz_name();
            let py: Vec<u8> = lit_pyft_name();
            if crate::history::bytes_equal(n, hb.as_slice()) {
                Some(Backend::Harfbuzz)
            } else if crate::history::bytes_equal(n, py.as_slice()) {
                Some(Backend::Pyft)
            } else {
                None
            }
        },
    }
}

/// One planned output: its identifier, fingerprint, and resolved path.
#[derive(Clone, Debug, PartialEq, Eq)]
pub struct DestInfo {
    pub fid: Vec<u8>,
    pub digest: DigestString,
    pub file_path: Vec<u8>,
}

impl DestInfo {
    /// Resolves the output for one entry: the digest names the identifier,
    /// the identifier fills the path template.
    pub fn new(tmpl: &PathTmpl, name: &[u8], digest: DigestString) -> (r: DestInfo)
        requires
            digest.bytes_view().len() >= 8,
        ensures
            r.digest == digest,
            r.fid@ == fid_bytes(name@, digest.bytes_view()),
            r.file_path@ == tmpl.directory@ + seq![47u8] + render_spec(
                tmpl.name_template.template_view(),
                seq![(fid_mvar_bytes(), fid_bytes(name@, digest.bytes_view()))],
            ),
    {
        let fid: Vec<u8> = make_fid(name, &digest);
        let mut fid2: Vec<u8> = Vec::new();
        fid2.extend_from_slice(fid.as_slice());
        let mut vars: Vec<(Vec<u8>, Vec<u8>)> = Vec::new();
        vars.push((lit_fid_mvar(), fid2));
        let file_path: Vec<u8> = tmpl.render(&vars);
        proof {
            assert(vars.deep_view() =~~= seq![
                (fid_mvar_bytes(), fid_bytes(name@, digest.bytes_view())),
            ]);
        }
        DestInfo { fid, digest, file_path }
    }

    /// Whether the output must be produced: exactly when its file is
    /// absent.
    pub fn needs_subset(&self, file_exists: bool) -> (r: bool)
        ensures
            r == !file_exists,
    {
        !file_exists
    }
}

/// The paths a superseded output leaves behind: everything the history
/// lists for the slot except the new destination itself.
pub open spec fn stale_of(paths: Seq<Seq<u8>>, keep: Seq<u8>) -> Seq<Seq<u8>>
    decreases paths.len(),
{
    if paths.len() == 0 {
        Seq::empty()
    } else if paths[0] == keep {
        stale_of(paths.skip(1), keep)
    } else {
        seq![paths[0]] + stale_of(paths.skip(1), keep)
    }
}

/// The old paths to delete for a destination: those differing from it.
pub fn gc_paths(old_paths: &Vec<Vec<u8>>, keep: &[u8]) -> (r: Vec<Vec<u8>>)
    ensures
        r.deep_view() == stale_of(old_paths.deep_view(), keep@),
{
    let ghost all: Seq<Seq<u8>> = old_paths.deep_view();
    let mut out: Vec<Vec<u8>> = Vec::new();
    let mut k: usize = 0;
    proof {
        assert(all.skip(0) =~= all);
        assert(forall|k2: int| 0 <= k2 < all.len() ==> all[k2] == (#[trigger] old_paths@[k2])@);
        assert(out.deep_view() =~~= Seq::<Seq<u8>>::empty());
        assert(stale_of(all, keep@) =~= out.deep_view() + stale_of(all.skip(0), keep@));
    }
    while k < old_paths.len()
        invariant
            k <= all.len(),
            all == old_paths.deep_view(),
            all.len() == old_paths@.len(),
            forall|k2: int| 0 <= k2 < all.len() ==> all[k2] == (#[trigger] old_paths@[k2])@,
            stale_of(all, keep@) == out.deep_view() + stale_of(all.skip(k as int), keep@),
        decreases all.len() - k,
    {
        let p: &Vec<u8> = &old_paths[k];
        proof {
            assert(all.skip(k as int)[0] == all[k as int]);
            assert(all.skip(k as int).skip(1) =~= all.skip(k + 1));
        }
        if !crate::history::bytes_equal(p.as_slice(), keep) {
            let mut copy: Vec<u8> = Vec::new();
            copy.extend_from_slice(p.as_slice());
            let ghost pre: Seq<Seq<u8>> = out.deep_view();
            out.push(copy);
            proof {
                assert(out.deep_view() =~~= pre + seq![all[k as int]]);
                assert(stale_of(all.skip(k as int), keep@) == seq![all[k as int]] + stale_of(
                    all.skip(k + 1),
                    keep@,
                ));
                assert(stale_of(all, keep@) =~~= out.deep_view() + stale_of(
                    all.skip(k + 1),
                    keep@,
                ));
            }
        } else {
            proof {
                assert(stale_of(all.skip(k as int), keep@) == stale_of(all.skip(k + 1), keep@));
            }
        }
        k = k + 1;
    }
    proof {
        assert(all.skip(all.len() as int) =~= Seq::<Seq<u8>>::empty());
        assert(stale_of(all, keep@) =~~= out.deep_view());
    }
    out
}

/// A destination written through a sibling temporary file, so that no
/// reader observes a partial write; the write and rename stay with the
/// caller.
#[derive(Clone, Debug, PartialEq, Eq)]
pub struct AtomicPath {
    dest: Vec<u8>,
}

impl AtomicPath {
    pub closed spec fn dest_view(&self) -> Seq<u8> {
        self.dest@
    }

    pub fn new(dest: Vec<u8>) -> (r: AtomicPath)
        ensures
            r.dest_view() == dest@,
    {
        AtomicPath { dest }
    }

    pub fn as_bytes(&self) -> (r: &Vec<u8>)
        ensures
            r@ == self.dest_view(),
    {
        &self.dest
    }
}

/// A font file named by its path; the caller reads it and hands the bytes
/// back for fingerprinting.
#[derive(Clone, Debug, PartialEq, Eq)]
pub struct LazyFile {
    path: Vec<u8>,
}

impl LazyFile {
    pub closed spec fn path_view(&self) -> Seq<u8> {
        self.path@
    }

    pub fn new(path: Vec<u8>) -> (r: LazyFile)
        ensures
            r.path_view() == path@,
    {
        LazyFile { path }
    }

    pub fn path(&self) -> (r: &Vec<u8>)
        ensures
            r@ == self.path_view(),
    {
        &self.path
    }
}

/// One produced output: the identifier and fingerprint callers collect.
#[derive(Debug, PartialEq, Eq)]
pub struct BuildResult {
    pub fid: Vec<u8>,
    pub digest: DigestString,
}

/// Results in entry-major, context-minor order: all contexts of the first
/// entry, then all contexts of the second, and so on.
#[derive(Debug, PartialEq, Eq)]
pub struct BuildResults {
    ctx_count: usize,
    results: Vec<BuildResult>,
}

impl BuildResults {
    pub closed spec fn ctx_count_view(&self) -> int {
        self.ctx_count as int
    }

    pub closed spec fn results_view(&self) -> Seq<BuildResult> {
        self.results@
    }

    pub open spec fn wf(&self) -> bool {
        self.ctx_count_view() >= 1 && (self.results_view().len() as int) % self.ctx_count_view() == 0
    }

    pub fn new(ctx_count: usize, results: Vec<BuildResult>) -> (r: BuildResults)
        requires
            ctx_count >= 1,
            (results@.len() as int) % (ctx_count as int) == 0,
        ensures
            r.wf(),
            r.ctx_count_view() == ctx_count,
            r.results_view() == results@,
    {
        BuildResults { ctx_count, results }
    }

    pub fn results(&self) -> (r: &Vec<BuildResult>)
        ensures
            r@ == self.results_view(),
    {
        &self.results
    }

    /// The same results re-viewed context-major, entry-minor: position
    /// `i * entry_count + j` holds entry `j` under context `i`.
    pub fn entry_minor_iter(&self) -> (r: Vec<&BuildResult>)
        requires
            self.wf(),
        ensures
            r@.len() == self.results_view().len(),
            forall|i: int, j: int|
                #![trigger r@[i * ((self.results_view().len() as int) / self.ctx_count_view()) + j]]
                0 <= i < self.ctx_count_view() && 0 <= j < (self.results_view().len() as int)
                    / self.ctx_count_view() ==> r@[i * ((self.results_view().len() as int)
                    / self.ctx_count_view()) + j] == &self.results_view()[j * self.ctx_count_view()
                    + i],
    {
        let entry_count: usize = self.results.len() / self.ctx_count;
        let mut out: Vec<&BuildResult> = Vec::new();
        let mut i: usize = 0;
        proof {
            assert(self.results_view().len() == entry_count * self.ctx_count_view())
                by (nonlinear_arith)
                requires
                    self.ctx_count_view() >= 1,
                    (self.results_view().len() as int) % self.ctx_count_view() == 0,
                    entry_count == (self.results_view().len() as int) / self.ctx_count_view(),
            ;
        }
        while i < self.ctx_count
            invariant
                i <= self.ctx_count,
                self.wf(),
                self.results_view().len() <= usize::MAX,
                entry_count == (self.results_view().len() as int) / self.ctx_count_view(),
                self.results_view().len() == entry_count * self.ctx_count_view(),
                out@.len() == i * entry_count,
                forall|k: int|
                    0 <= k < out@.len() ==> #[trigger] out@[k] == &self.results_view()[(k
                        % (entry_count as int)) * self.ctx_count_view() + k / (
                    entry_count as int)],
            decreases self.ctx_count - i,
        {
            let mut j: usize = 0;
            while j < entry_count
                invariant
                    i < self.ctx_count,
                    j <= entry_count,
                    self.wf(),
                    self.results_view().len() <= usize::MAX,
                    entry_count == (self.results_view().len() as int) / self.ctx_count_view(),
                    self.results_view().len() == entry_count * self.ctx_count_view(),
                    out@.len() == i * entry_count + j,
                    forall|k: int|
                        0 <= k < out@.len() ==> #[trigger] out@[k] == &self.results_view()[(k
                            % (entry_count as int)) * self.ctx_count_view() + k / (
                        entry_count as int)],
                decreases entry_count - j,
            {
                proof {
                    assert(j * self.ctx_count_view() + i < self.results_view().len())
                        by (nonlinear_arith)
                        requires
                            0 <= i < self.ctx_count_view(),
                            0 <= j < entry_count,
                            self.results_view().len() == entry_count * self.ctx_count_view(),
                    ;
                }
                let idx: usize = j * self.ctx_count + i;
                out.push(&self.results[idx]);
                j = j + 1;
                proof {
                    let k0: int = i * entry_count + (j - 1);
                    assert(k0 % (entry_count as int) == j - 1 && k0 / (entry_count as int) == i)
                        by (nonlinear_arith)
                        requires
                            0 <= j - 1 < entry_count,
                            0 <= i,
                            k0 == i * entry_count + (j - 1),
                    ;
                    assert(out@[k0] == &self.results_view()[(j - 1) * self.ctx_count_view() + i]);
                }
            }
            i = i + 1;
            proof {
                assert(out@.len() == i * entry_count) by (nonlinear_arith)
                    requires
                        out@.len() == (i - 1) * entry_count + entry_count,
                ;
            }
        }
        proof {
            assert(out@.len() == self.results_view().len()) by (nonlinear_arith)
                requires
                    out@.len() == self.ctx_count_view() * entry_count,
                    self.results_view().len() == entry_count * self.ctx_count_view(),
            ;
            assert forall|i2: int, j2: int|
                0 <= i2 < self.ctx_count_view() && 0 <= j2 < (self.results_view().len() as int)
                    / self.ctx_count_view() implies #[trigger] out@[i2 * ((
            self.results_view().len() as int) / self.ctx_count_view()) + j2]
                == &self.results_view()[j2 * self.ctx_count_view() + i2] by {
                let k0: int = i2 * entry_count + j2;
                assert(0 <= k0 < out@.len() && k0 % (entry_count as int) == j2 && k0 / (
                entry_count as int) == i2) by (nonlinear_arith)
                    requires
                        0 <= j2 < entry_count,
                        0 <= i2 < self.ctx_count_view(),
                        k0 == i2 * entry_count + j2,
                        out@.len() == self.ctx_count_view() * entry_count,
                ;
                assert(out@[k0] == &self.results_view()[j2 * self.ctx_count_view() + i2]);
            }
        }
        out
    }
}

} // verus!
