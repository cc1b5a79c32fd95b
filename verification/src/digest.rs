//! Content fingerprints: SHA-512 over the inputs of one subset output,
//! rendered in URL-safe base64 with `_` rewritten to `+` — the exact
//! alphabet embedded in filenames and CSS, preserved byte for byte.

use base64ct::Encoding;
use sha2::Digest;
use vstd::prelude::*;

verus! {

/// The SHA-512 digest of a byte sequence.
pub uninterp spec fn sha512_of(data: Seq<u8>) -> Seq<u8>;

/// URL-safe base64 with `=` padding.
pub uninterp spec fn base64url_of(data: Seq<u8>) -> Seq<u8>;

/// Standard base64 with `=` padding.
pub uninterp spec fn base64std_of(data: Seq<u8>) -> Seq<u8>;

/// Relies on `sha2::Sha512::digest`: a 64-byte digest that depends on the
/// input bytes alone.
#[verifier::external_body]
fn sha512_exec(data: &[u8]) -> (r: Vec<u8>)
    ensures
        r@ == sha512_of(data@),
        r@.len() == 64,
{
    sha2::Sha512::digest(data).to_vec()
}

/// Relies on `base64ct::Base64Url::encode_string`: padded URL-safe base64,
/// four ASCII bytes for every three input bytes, depending on the input
/// alone.
#[verifier::external_body]
fn base64url_exec(data: &[u8]) -> (r: Vec<u8>)
    requires
        data@.len() * 4 <= usize::MAX,
    ensures
        r@ == base64url_of(data@),
        r@.len() == 4 * ((data@.len() + 2) / 3),
        forall|i: int| 0 <= i < r@.len() ==> 0 < #[trigger] r@[i] < 128,
{
    base64ct::Base64Url::encode_string(data).into_bytes()
}

/// Relies on `base64ct::Base64::encode_string`: padded standard base64,
/// four ASCII bytes for every three input bytes, depending on the input
/// alone.
#[verifier::external_body]
pub fn base64std_exec(data: &[u8]) -> (r: Vec<u8>)
    requires
        data@.len() * 4 <= usize::MAX,
    ensures
        r@ == base64std_of(data@),
        r@.len() == 4 * ((data@.len() + 2) / 3),
        forall|i: int| 0 <= i < r@.len() ==> 0 < #[trigger] r@[i] < 128,
{
    base64ct::Base64::encode_string(data).into_bytes()
}

/// `_` rewritten to `+`, everything else kept.
pub open spec fn plus_remap(s: Seq<u8>) -> Seq<u8> {
    s.map(|_i: int, b: u8| if b == 95 { 43u8 } else { b })
}

fn remap_underscores(v: &mut Vec<u8>)
    ensures
        final(v)@ == plus_remap(old(v)@),
{
    let mut i: usize = 0;
    while i < v.len()
        invariant
            i <= v@.len(),
            v@.len() == old(v)@.len(),
            forall|k: int| i <= k < v@.len() ==> v@[k] == old(v)@[k],
            forall|k: int| 0 <= k < i ==> v@[k] == plus_remap(old(v)@)[k],
        decreases v@.len() - i,
    {
        if v[i] == 95 {
            v[i] = 43;
        }
        i = i + 1;
    }
    proof {
        assert(v@ =~= plus_remap(old(v)@));
    }
}

/// A digest rendered in the project's base64 alphabet.
#[derive(Clone, Debug, PartialEq, Eq)]
pub struct DigestString {
    bytes: Vec<u8>,
}

impl DigestString {
    pub closed spec fn bytes_view(&self) -> Seq<u8> {
        self.bytes@
    }

    pub fn as_bytes(&self) -> (r: &Vec<u8>)
        ensures
            r@ == self.bytes_view(),
    {
        &self.bytes
    }
}

/// Accumulates the bytes whose SHA-512 becomes one fingerprint.
pub struct Digester {
    data: Vec<u8>,
}

impl Digester {
    pub closed spec fn data_view(&self) -> Seq<u8> {
        self.data@
    }

    pub fn new() -> (r: Digester)
        ensures
            r.data_view() == Seq::<u8>::empty(),
    {
        let r = Digester { data: Vec::new() };
        proof {
            assert(r.data_view() =~= Seq::<u8>::empty());
        }
        r
    }

    /// Feeds more bytes into the fingerprint.
    pub fn push(self, other: &[u8]) -> (r: Digester)
        ensures
            r.data_view() == self.data_view() + other@,
    {
        let mut data: Vec<u8> = self.data;
        data.extend_from_slice(other);
        let r = Digester { data };
        proof {
            assert(r.data_view() =~= self.data_view() + other@);
        }
        r
    }

    /// The digest in the project's base64 alphabet: URL-safe, padded, with
    /// `_` rewritten to `+`; always 88 bytes.
    pub fn base64_result(self) -> (r: DigestString)
        ensures
            r.bytes_view() == plus_remap(base64url_of(sha512_of(self.data_view()))),
            r.bytes_view().len() == 88,
    {
        let digest: Vec<u8> = sha512_exec(self.data.as_slice());
        let mut encoded: Vec<u8> = base64url_exec(digest.as_slice());
        remap_underscores(&mut encoded);
        DigestString { bytes: encoded }
    }

    /// The raw 64-byte digest.
    pub fn bytes_result(self) -> (r: Vec<u8>)
        ensures
            r@ == sha512_of(self.data_view()),
            r@.len() == 64,
    {
        sha512_exec(self.data.as_slice())
    }
}

} // verus!
