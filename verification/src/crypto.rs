//! SHA-256 hashing, behind one trusted wrapper around the `sha2` crate.

use vstd::prelude::*;
use sha2::Digest;

verus! {

/// The SHA-256 digest of `data`.  The digest is a function of the input
/// bytes alone; its definition is left to the `sha2` crate.
pub uninterp spec fn sha256_of(data: Seq<u8>) -> Seq<u8>;

/// Relies on sha2::Sha256: the digest depends on the input bytes alone and
/// is 32 bytes long.
#[verifier::external_body]
fn sha256_digest(data: &[u8]) -> (r: Vec<u8>)
    ensures
        r@ == sha256_of(data@),
        r@.len() == 32,
{
    let mut hasher = sha2::Sha256::new();
    hasher.update(data);
    hasher.finalize().to_vec()
}

/// SHA-256 of one buffer.
pub fn hash_bytes(data: &[u8]) -> (r: Vec<u8>)
    ensures
        r@ == sha256_of(data@),
        r@.len() == 32,
{
    sha256_digest(data)
}

/// SHA-256 of each buffer of a batch, in order.
pub fn hash_bytes_batch(data_items: &[&[u8]]) -> (r: Vec<Vec<u8>>)
    ensures
        r@.len() == data_items@.len(),
        forall|i: int| 0 <= i < r@.len()
            ==> #[trigger] r@[i]@ == sha256_of(data_items@[i]@) && r@[i]@.len() == 32,
{
    let mut results: Vec<Vec<u8>> = Vec::new();
    let n = data_items.len();
    let mut i: usize = 0;
    while i < n
        invariant
            n == data_items@.len(),
            i <= n,
            results@.len() == i,
            forall|j: int| 0 <= j < i
                ==> #[trigger] results@[j]@ == sha256_of(data_items@[j]@)
                    && results@[j]@.len() == 32,
        decreases n - i
    {
        results.push(sha256_digest(data_items[i]));
        i = i + 1;
    }
    results
}

/// The concatenation of `items[i..]`.
pub open spec fn concat_from(items: Seq<Seq<u8>>, i: int) -> Seq<u8>
    decreases items.len() - i when 0 <= i
{
    if i >= items.len() {
        Seq::empty()
    } else {
        items[i] + concat_from(items, i + 1)
    }
}

/// SHA-256 of the concatenation of all buffers.
pub fn hash_bytes_concat(data_items: &[&[u8]]) -> (r: Vec<u8>)
    ensures
        r@ == sha256_of(concat_from(data_items@.map_values(|s: &[u8]| s@), 0)),
        r@.len() == 32,
{
    let ghost views = data_items@.map_values(|s: &[u8]| s@);
    let mut all: Vec<u8> = Vec::new();
    let n = data_items.len();
    let mut i: usize = 0;
    while i < n
        invariant
            views == data_items@.map_values(|s: &[u8]| s@),
            n == data_items@.len(),
            i <= n,
            concat_from(views, 0) == all@ + concat_from(views, i as int),
        decreases n - i
    {
        let item = data_items[i];
        let ghost all0 = all@;
        proof {
            assert(all@ =~= all0 + item@.take(0));
        }
        let m = item.len();
        let mut k: usize = 0;
        while k < m
            invariant
                m == item@.len(),
                k <= m,
                all@ == all0 + item@.take(k as int),
            decreases m - k
        {
            all.push(item[k]);
            k = k + 1;
            proof {
                assert(item@.take(k as int) =~= item@.take(k - 1).push(item@[k - 1]));
            }
        }
        proof {
            assert(item@.take(m as int) =~= item@);
            assert(views[i as int] == item@);
            assert(concat_from(views, i as int) =~= item@ + concat_from(views, i + 1));
            assert(all0 + (item@ + concat_from(views, i + 1))
                =~= (all0 + item@) + concat_from(views, i + 1));
        }
        i = i + 1;
    }
    proof {
        assert(concat_from(views, n as int) =~= Seq::<u8>::empty());
        assert(all@ =~= concat_from(views, 0));
    }
    sha256_digest(all.as_slice())
}

/// The standard base64 encoding (with padding) of `data`, as ASCII bytes.
/// Its definition is left to the `base64` crate.
pub uninterp spec fn base64_of(data: Seq<u8>) -> Seq<u8>;

/// What standard base64 decoding yields on `s`: the decoded bytes, or
/// nothing when `s` is not valid base64.
pub uninterp spec fn base64_decode_of(s: Seq<u8>) -> Option<Seq<u8>>;

/// Relies on base64's STANDARD engine: the encoding is a function of the
/// input bytes alone.
#[verifier::external_body]
pub(crate) fn base64_encode_bytes(data: &[u8]) -> (r: Vec<u8>)
    ensures
        r@ == base64_of(data@),
{
    base64::Engine::encode(&base64::engine::general_purpose::STANDARD, data).into_bytes()
}

/// Relies on base64's STANDARD engine: decoding succeeds or fails as a
/// function of the input bytes alone.
#[verifier::external_body]
pub(crate) fn base64_decode_bytes(s: &[u8]) -> (r: Option<Vec<u8>>)
    ensures
        match r {
            Some(v) => base64_decode_of(s@) == Some(v@),
            None => base64_decode_of(s@) is None,
        },
{
    base64::Engine::decode(&base64::engine::general_purpose::STANDARD, s).ok()
}

/// SHA-256 of one buffer; small inputs take the direct path.
pub fn hash_bytes_small(data: &[u8]) -> (r: Vec<u8>)
    ensures
        r@ == sha256_of(data@),
        r@.len() == 32,
{
    if data.len() <= 64 {
        sha256_digest(data)
    } else {
        hash_bytes(data)
    }
}

} // verus!
