//! The externally observable output record and its fixed tuple encoding
//! for a settlement layer: two 32-byte hash words, then dynamic string
//! arrays, in the standard contract ABI layout (32-byte words, big-endian
//! lengths and offsets, zero padding).

use vstd::prelude::*;
use vstd::utf8::encode_utf8;
use crate::structs::EmailVerifierOutput;

verus! {

/// A length or offset as a 32-byte big-endian word.
pub open spec fn word32_of(v: u64) -> Seq<u8> {
    Seq::new(32, |i: int|
        if i < 24 {
            0u8
        } else {
            ((v >> (((31 - i) * 8) as u64)) & 0xff) as u8
        })
}

/// The padded length of `n` bytes: the next multiple of 32.
pub open spec fn pad32(n: int) -> int {
    ((n + 31) / 32) * 32
}

/// One string, encoded: its length word, its bytes, zero padding to a
/// word boundary.
pub open spec fn abi_string_of(s: Seq<u8>) -> Seq<u8> {
    word32_of(s.len() as u64) + s + Seq::new((pad32(s.len() as int) - s.len()) as nat, |i: int| 0u8)
}

/// The size of one encoded string.
pub open spec fn str_enc_size(s: Seq<u8>) -> int {
    32 + pad32(s.len() as int)
}

/// The summed sizes of the first `i` encoded strings.
pub open spec fn prefix_size(items: Seq<Seq<u8>>, i: int) -> int
    decreases i when i >= 0
{
    if i <= 0 {
        0
    } else {
        prefix_size(items, i - 1) + str_enc_size(items[i - 1])
    }
}

/// The offset words of the string array, for `items[i..]`.
pub open spec fn arr_heads(items: Seq<Seq<u8>>, i: int) -> Seq<u8>
    decreases items.len() - i when 0 <= i
{
    if i >= items.len() {
        Seq::empty()
    } else {
        word32_of((32 * items.len() + prefix_size(items, i)) as u64) + arr_heads(items, i + 1)
    }
}

/// The encoded strings of the array, for `items[i..]`.
pub open spec fn arr_tails(items: Seq<Seq<u8>>, i: int) -> Seq<u8>
    decreases items.len() - i when 0 <= i
{
    if i >= items.len() {
        Seq::empty()
    } else {
        abi_string_of(items[i]) + arr_tails(items, i + 1)
    }
}

/// A string array, encoded: its length word, the element offsets, the
/// elements.
pub open spec fn abi_string_arr(items: Seq<Seq<u8>>) -> Seq<u8> {
    word32_of(items.len() as u64) + arr_heads(items, 0) + arr_tails(items, 0)
}

/// The size of the encoded string array.
pub open spec fn arr_size(items: Seq<Seq<u8>>) -> int {
    32 + 32 * items.len() + prefix_size(items, items.len() as int)
}

/// The DKIM-only output record, encoded: the two hash words, the offset
/// of the string array, the array.
pub open spec fn abi_email_output(a: Seq<u8>, b: Seq<u8>, items: Seq<Seq<u8>>) -> Seq<u8> {
    a + b + word32_of(96u64) + abi_string_arr(items)
}

/// The pattern-flow output record, encoded: offsets of the inner record
/// and of the match array, then both encodings.
pub open spec fn abi_with_regex_output(
    a: Seq<u8>,
    b: Seq<u8>,
    items: Seq<Seq<u8>>,
    matches: Seq<Seq<u8>>,
) -> Seq<u8> {
    word32_of(64u64) + word32_of((64 + 96 + arr_size(items)) as u64)
        + abi_email_output(a, b, items) + abi_string_arr(matches)
}

/// The byte strings of a string list.
pub open spec fn strings_bytes(v: Seq<String>) -> Seq<Seq<u8>> {
    v.map_values(|s: String| encode_utf8(s@))
}

/// The machine bounds under which the encoding's offsets and sizes fit:
/// every length and the total stay far below the address-space limit.
pub open spec fn abi_sizes_ok(items: Seq<Seq<u8>>) -> bool {
    &&& forall|i: int| 0 <= i < items.len() ==> (#[trigger] items[i]).len() + 63 < usize::MAX
    &&& arr_size(items) + 256 < usize::MAX
}

/// A well-formed output record: both hashes are 32 bytes.
pub open spec fn email_output_wf(e: EmailVerifierOutput) -> bool {
    e.from_domain_hash@.len() == 32 && e.public_key_hash@.len() == 32
}

pub proof fn lemma_prefix_size_mono(items: Seq<Seq<u8>>, i: int)
    requires
        0 <= i <= items.len(),
    ensures
        0 <= prefix_size(items, i) <= prefix_size(items, items.len() as int),
    decreases items.len() - i, i
{
    lemma_prefix_size_nonneg(items, i);
    if i < items.len() {
        lemma_prefix_size_mono(items, i + 1);
        lemma_prefix_size_nonneg(items, i);
    }
}

pub proof fn lemma_prefix_size_nonneg(items: Seq<Seq<u8>>, i: int)
    ensures
        i >= 0 ==> prefix_size(items, i) >= 0,
    decreases i
{
    if i > 0 {
        lemma_prefix_size_nonneg(items, i - 1);
    }
}

/// Appends the 32-byte big-endian word of `v`.
fn push_word(out: &mut Vec<u8>, v: u64)
    ensures
        final(out)@ == old(out)@ + word32_of(v),
{
    let mut i: usize = 0;
    let ghost out0 = old(out)@;
    proof {
        assert(out@ =~= out0 + word32_of(v).take(0));
    }
    while i < 32
        invariant
            i <= 32,
            out@ == out0 + word32_of(v).take(i as int),
        decreases 32 - i
    {
        if i < 24 {
            out.push(0u8);
        } else {
            let sh: u64 = ((31 - i) * 8) as u64;
            out.push(((v >> sh) & 0xff) as u8);
        }
        i = i + 1;
        proof {
            assert(word32_of(v).take(i as int)
                =~= word32_of(v).take(i - 1).push(word32_of(v)[i - 1]));
        }
    }
    proof {
        assert(word32_of(v).take(32) =~= word32_of(v));
        assert(out@ =~= out0 + word32_of(v));
    }
}

/// Appends all of `s`.
fn push_all(out: &mut Vec<u8>, s: &[u8])
    ensures
        final(out)@ == old(out)@ + s@,
{
    let n = s.len();
    let mut i: usize = 0;
    let ghost out0 = old(out)@;
    proof {
        assert(out@ =~= out0 + s@.take(0));
    }
    while i < n
        invariant
            n == s@.len(),
            i <= n,
            out@ == out0 + s@.take(i as int),
        decreases n - i
    {
        out.push(s[i]);
        i = i + 1;
        proof {
            assert(s@.take(i as int) =~= s@.take(i - 1).push(s@[i - 1]));
        }
    }
    proof {
        assert(s@.take(n as int) =~= s@);
    }
}

/// Appends `count` zero bytes.
fn push_zeros(out: &mut Vec<u8>, count: usize)
    ensures
        final(out)@ == old(out)@ + Seq::new(count as nat, |i: int| 0u8),
{
    let mut i: usize = 0;
    let ghost out0 = old(out)@;
    proof {
        assert(out@ =~= out0 + Seq::new(count as nat, |i: int| 0u8).take(0));
    }
    while i < count
        invariant
            i <= count,
            out@ == out0 + Seq::new(count as nat, |j: int| 0u8).take(i as int),
        decreases count - i
    {
        out.push(0u8);
        i = i + 1;
        proof {
            assert(Seq::new(count as nat, |j: int| 0u8).take(i as int)
                =~= Seq::new(count as nat, |j: int| 0u8).take(i - 1).push(0u8));
        }
    }
    proof {
        assert(Seq::new(count as nat, |j: int| 0u8).take(count as int)
            =~= Seq::new(count as nat, |j: int| 0u8));
    }
}

/// The first `i` offset words of the array head.
pub open spec fn arr_heads_prefix(items: Seq<Seq<u8>>, i: int) -> Seq<u8>
    decreases i when i >= 0
{
    if i <= 0 {
        Seq::empty()
    } else {
        arr_heads_prefix(items, i - 1)
            + word32_of((32 * items.len() + prefix_size(items, i - 1)) as u64)
    }
}

proof fn lemma_arr_heads_split(items: Seq<Seq<u8>>, i: int)
    requires
        0 <= i <= items.len(),
    ensures
        arr_heads(items, 0) == arr_heads_prefix(items, i) + arr_heads(items, i),
    decreases i
{
    if i == 0 {
        assert(arr_heads_prefix(items, 0) + arr_heads(items, 0) =~= arr_heads(items, 0));
    } else {
        lemma_arr_heads_split(items, i - 1);
        assert(arr_heads(items, i - 1)
            =~= word32_of((32 * items.len() + prefix_size(items, i - 1)) as u64)
                + arr_heads(items, i));
        assert((arr_heads_prefix(items, i - 1)
            + (word32_of((32 * items.len() + prefix_size(items, i - 1)) as u64)
                + arr_heads(items, i)))
            =~= (arr_heads_prefix(items, i - 1)
                + word32_of((32 * items.len() + prefix_size(items, i - 1)) as u64))
                + arr_heads(items, i));
    }
}

/// Appends the encoding of a string array.
fn push_string_arr(out: &mut Vec<u8>, items: &Vec<String>)
    requires
        abi_sizes_ok(strings_bytes(items@)),
    ensures
        final(out)@ == old(out)@ + abi_string_arr(strings_bytes(items@)),
{
    let ghost iv = strings_bytes(items@);
    let n = items.len();
    proof {
        assert(iv.len() == n);
        lemma_prefix_size_mono(iv, 0);
    }
    push_word(out, n as u64);
    // offset words
    let ghost out1 = out@;
    let mut off: usize = 32 * n;
    let mut i: usize = 0;
    proof {
        assert(out@ =~= out1 + arr_heads_prefix(iv, 0));
    }
    while i < n
        invariant
            n == items@.len(),
            iv == strings_bytes(items@),
            abi_sizes_ok(iv),
            i <= n,
            off == 32 * n + prefix_size(iv, i as int),
            out@ == out1 + arr_heads_prefix(iv, i as int),
        decreases n - i
    {
        proof {
            lemma_prefix_size_mono(iv, i as int);
            lemma_prefix_size_mono(iv, i + 1);
            assert(prefix_size(iv, i + 1) == prefix_size(iv, i as int) + str_enc_size(iv[i as int]));
            assert(arr_size(iv) + 256 < usize::MAX);
        }
        push_word(out, off as u64);
        let len = items[i].as_str().as_bytes().len();
        proof {
            assert(iv[i as int].len() == len);
            assert(iv[i as int].len() + 63 < usize::MAX);
        }
        let padded = ((len + 31) / 32) * 32;
        proof {
            assert(padded == pad32(len as int));
        }
        off = off + 32 + padded;
        i = i + 1;
        proof {
            assert(arr_heads_prefix(iv, i as int)
                =~= arr_heads_prefix(iv, i - 1)
                    + word32_of((32 * iv.len() + prefix_size(iv, i - 1)) as u64));
            assert(out@ =~= out1 + arr_heads_prefix(iv, i as int));
        }
    }
    proof {
        lemma_arr_heads_split(iv, n as int);
        assert(arr_heads(iv, n as int) =~= Seq::<u8>::empty());
        assert(arr_heads_prefix(iv, n as int) =~= arr_heads_prefix(iv, n as int) + Seq::<u8>::empty());
        assert(arr_heads_prefix(iv, n as int) =~= arr_heads(iv, 0));
        assert(out@ =~= out1 + arr_heads(iv, 0));
    }
    // the strings themselves
    let ghost out2 = out@;
    let mut k: usize = 0;
    proof {
        assert(out@ =~= out2 + arr_tails_prefix(iv, 0));
    }
    while k < n
        invariant
            n == items@.len(),
            iv == strings_bytes(items@),
            abi_sizes_ok(iv),
            k <= n,
            out@ == out2 + arr_tails_prefix(iv, k as int),
        decreases n - k
    {
        let sb = items[k].as_str().as_bytes();
        let len = sb.len();
        proof {
            assert(iv[k as int] == sb@);
            assert(iv[k as int].len() + 63 < usize::MAX);
        }
        push_word(out, len as u64);
        push_all(out, sb);
        let padded = ((len + 31) / 32) * 32;
        proof {
            assert(padded == pad32(len as int));
        }
        push_zeros(out, padded - len);
        k = k + 1;
        proof {
            assert(Seq::new((pad32(len as int) - len) as nat, |i: int| 0u8)
                =~= Seq::new((padded - len) as nat, |i: int| 0u8));
            assert(arr_tails_prefix(iv, k as int)
                =~= arr_tails_prefix(iv, k - 1) + abi_string_of(iv[k - 1]));
            assert(out@ =~= out2 + arr_tails_prefix(iv, k as int));
        }
    }
    proof {
        lemma_arr_tails_prefix_full(iv);
        assert(out@ =~= (out1 + arr_heads(iv, 0)) + arr_tails(iv, 0));
        assert(out@ =~= old(out)@ + abi_string_arr(iv)) by {
            assert(out1 =~= old(out)@ + word32_of(iv.len() as u64));
        }
    }
}

/// The first `i` encoded strings of the array tail.
pub open spec fn arr_tails_prefix(items: Seq<Seq<u8>>, i: int) -> Seq<u8>
    decreases i when i >= 0
{
    if i <= 0 {
        Seq::empty()
    } else {
        arr_tails_prefix(items, i - 1) + abi_string_of(items[i - 1])
    }
}

proof fn lemma_arr_tails_split(items: Seq<Seq<u8>>, i: int)
    requires
        0 <= i <= items.len(),
    ensures
        arr_tails(items, 0) == arr_tails_prefix(items, i) + arr_tails(items, i),
    decreases i
{
    if i == 0 {
        assert(arr_tails_prefix(items, 0) + arr_tails(items, 0) =~= arr_tails(items, 0));
    } else {
        lemma_arr_tails_split(items, i - 1);
        assert(arr_tails(items, i - 1) =~= abi_string_of(items[i - 1]) + arr_tails(items, i));
        assert((arr_tails_prefix(items, i - 1) + (abi_string_of(items[i - 1]) + arr_tails(items, i)))
            =~= (arr_tails_prefix(items, i - 1) + abi_string_of(items[i - 1])) + arr_tails(items, i));
    }
}

proof fn lemma_arr_tails_prefix_full(items: Seq<Seq<u8>>)
    ensures
        arr_tails_prefix(items, items.len() as int) == arr_tails(items, 0),
{
    lemma_arr_tails_split(items, items.len() as int);
    assert(arr_tails(items, items.len() as int) =~= Seq::<u8>::empty());
    assert(arr_tails_prefix(items, items.len() as int) + Seq::<u8>::empty()
        =~= arr_tails_prefix(items, items.len() as int));
}

/// The sole externally observable result: the DKIM-only record, or the
/// record with its ordered matched literals.
#[derive(Debug, Clone)]
pub enum VerificationOutput {
    EmailOnly(EmailVerifierOutput),
    WithRegex { email: EmailVerifierOutput, matches: Vec<String> },
}

impl VerificationOutput {
    /// Wraps an output record, with its matched literals when the pattern
    /// flow ran.
    pub fn from_parts(email: EmailVerifierOutput, matched: Option<Vec<String>>) -> (r: Self)
        ensures
            match matched {
                None => (r matches VerificationOutput::EmailOnly(e) && e == email),
                Some(m) => (r matches VerificationOutput::WithRegex { email: e, matches: mm }
                    && e == email && mm == m),
            },
    {
        match matched {
            None => Self::EmailOnly(email),
            Some(m) => Self::WithRegex { email, matches: m },
        }
    }

    /// Encodes the record in the fixed tuple layout: 32-byte hash words
    /// and dynamic string arrays.
    pub fn abi_encode(&self) -> (r: Vec<u8>)
        requires
            match self {
                VerificationOutput::EmailOnly(e) => email_output_wf(*e)
                    && abi_sizes_ok(strings_bytes(e.external_inputs@)),
                VerificationOutput::WithRegex { email: e, matches: m } => email_output_wf(*e)
                    && abi_sizes_ok(strings_bytes(e.external_inputs@))
                    && abi_sizes_ok(strings_bytes(m@)),
            },
        ensures
            match self {
                VerificationOutput::EmailOnly(e) => r@ == abi_email_output(
                    e.from_domain_hash@,
                    e.public_key_hash@,
                    strings_bytes(e.external_inputs@),
                ),
                VerificationOutput::WithRegex { email: e, matches: m } => r@
                    == abi_with_regex_output(
                    e.from_domain_hash@,
                    e.public_key_hash@,
                    strings_bytes(e.external_inputs@),
                    strings_bytes(m@),
                ),
            },
    {
        let mut out: Vec<u8> = Vec::new();
        match self {
            VerificationOutput::EmailOnly(e) => {
                push_all(&mut out, e.from_domain_hash.as_slice());
                push_all(&mut out, e.public_key_hash.as_slice());
                push_word(&mut out, 96u64);
                push_string_arr(&mut out, &e.external_inputs);
                proof {
                    assert(out@ =~= abi_email_output(
                        e.from_domain_hash@,
                        e.public_key_hash@,
                        strings_bytes(e.external_inputs@),
                    ));
                }
                out
            },
            VerificationOutput::WithRegex { email: e, matches: m } => {
                let ghost iv = strings_bytes(e.external_inputs@);
                push_word(&mut out, 64u64);
                // the hash words, the array offset word, the array length word
                let mut inner_size: usize = 128;
                let ni = e.external_inputs.len();
                let mut i: usize = 0;
                proof {
                    lemma_prefix_size_mono(iv, 0);
                }
                while i < ni
                    invariant
                        ni == e.external_inputs@.len(),
                        iv == strings_bytes(e.external_inputs@),
                        abi_sizes_ok(iv),
                        i <= ni,
                        inner_size == 128 + 32 * i + prefix_size(iv, i as int),
                    decreases ni - i
                {
                    proof {
                        lemma_prefix_size_mono(iv, i as int);
                        lemma_prefix_size_mono(iv, i + 1);
                        assert(prefix_size(iv, i + 1)
                            == prefix_size(iv, i as int) + str_enc_size(iv[i as int]));
                        assert(iv[i as int].len() + 63 < usize::MAX);
                    }
                    let len = e.external_inputs[i].as_str().as_bytes().len();
                    proof {
                        assert(iv[i as int].len() == len);
                    }
                    let padded = ((len + 31) / 32) * 32;
                    proof {
                        assert(padded == pad32(len as int));
                    }
                    inner_size = inner_size + 32 + 32 + padded;
                    i = i + 1;
                }
                proof {
                    assert(inner_size == 96 + arr_size(iv));
                }
                push_word(&mut out, (64 + inner_size) as u64);
                push_all(&mut out, e.from_domain_hash.as_slice());
                push_all(&mut out, e.public_key_hash.as_slice());
                push_word(&mut out, 96u64);
                push_string_arr(&mut out, &e.external_inputs);
                push_string_arr(&mut out, m);
                proof {
                    assert(out@ =~= abi_with_regex_output(
                        e.from_domain_hash@,
                        e.public_key_hash@,
                        strings_bytes(e.external_inputs@),
                        strings_bytes(m@),
                    ));
                }
                out
            },
        }
    }
}

} // verus!
