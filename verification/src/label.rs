//! The label that tells one version of a spec from another.
use sha2::Digest;
use vstd::prelude::*;
use vstd::slice::slice_subrange;

verus! {

/// How many bytes of a digest a label shows.
pub const SHOWN: usize = 16;

/// The SHA-256 digest of bytes.
pub uninterp spec fn sha256_digest(bytes: Seq<u8>) -> Seq<u8>;

/// `sha2::Sha256::digest`, as a vector. A digest has 32 bytes and is a function of what it is
/// taken of.
#[verifier::external_body]
pub(crate) fn sha256(bytes: &[u8]) -> (r: Vec<u8>)
    ensures
        r@ == sha256_digest(bytes@),
        r@.len() == 32,
{
    sha2::Sha256::digest(bytes).to_vec()
}

/// The lowercase hexadecimal digit of a number below 16.
pub open spec fn hex_digit(n: int) -> char {
    if n < 10 {
        ('0' as int + n) as char
    } else {
        ('a' as int + (n - 10)) as char
    }
}

/// Bytes in hexadecimal, two lowercase digits each.
pub open spec fn hex_text(bytes: Seq<u8>) -> Seq<char> {
    Seq::new(
        2 * bytes.len(),
        |i: int|
            hex_digit(
                if i % 2 == 0 {
                    bytes[i / 2] as int / 16
                } else {
                    bytes[i / 2] as int % 16
                },
            ),
    )
}

/// `hex::encode`: it writes each byte as two lowercase hexadecimal digits, the high one first.
#[verifier::external_body]
fn encode_hex(bytes: &[u8]) -> (r: String)
    ensures
        r@ == hex_text(bytes@),
{
    hex::encode(bytes)
}

/// The hash of a spec whose canonical text is these bytes.
pub open spec fn spec_hash(canonical: Seq<u8>) -> Seq<char> {
    hex_text(sha256_digest(canonical).take(SHOWN as int))
}

/// The first bytes of a digest in hexadecimal.
pub fn short_hex(digest: &Vec<u8>) -> (r: String)
    requires
        digest@.len() >= SHOWN,
    ensures
        r@ == hex_text(digest@.take(SHOWN as int)),
{
    let shown = slice_subrange(digest.as_slice(), 0, SHOWN);
    encode_hex(shown)
}

/// Different bytes are written differently in hexadecimal.
pub proof fn law_hex_tells_bytes_apart(a: Seq<u8>, b: Seq<u8>)
    ensures
        hex_text(a) == hex_text(b) <==> a == b,
{
    if hex_text(a) == hex_text(b) {
        assert(hex_text(a).len() == hex_text(b).len());
        assert forall|i: int| 0 <= i < a.len() implies a[i] == b[i] by {
            assert(hex_text(a)[2 * i] == hex_text(b)[2 * i]);
            assert(hex_text(a)[2 * i + 1] == hex_text(b)[2 * i + 1]);
            lemma_hex_digits_differ(a[i] as int / 16, b[i] as int / 16);
            lemma_hex_digits_differ(a[i] as int % 16, b[i] as int % 16);
        }
        assert(a =~= b);
    }
}

/// Different digits are written differently.
proof fn lemma_hex_digits_differ(m: int, n: int)
    requires
        0 <= m < 16,
        0 <= n < 16,
        hex_digit(m) == hex_digit(n),
    ensures
        m == n,
{
}

/// Two specs have the same hash exactly where the shown bytes of their digests are the same: the
/// label loses nothing of these.
pub proof fn law_labels_tell_digests_apart(a: Seq<u8>, b: Seq<u8>)
    ensures
        spec_hash(a) == spec_hash(b) <==> sha256_digest(a).take(SHOWN as int) == sha256_digest(
            b,
        ).take(SHOWN as int),
        a == b ==> spec_hash(a) == spec_hash(b),
{
    law_hex_tells_bytes_apart(
        sha256_digest(a).take(SHOWN as int),
        sha256_digest(b).take(SHOWN as int),
    );
}

/// Hexadecimal text has two digits of `0123456789abcdef` for each byte, in the order of the bytes
/// and the high digit first.
pub proof fn law_hex_has_two_digits_for_each_byte(bytes: Seq<u8>)
    ensures
        hex_text(bytes).len() == 2 * bytes.len(),
        forall|i: int|
            0 <= i < bytes.len() ==> {
                let b = #[trigger] bytes[i];
                &&& hex_text(bytes)[2 * i] == "0123456789abcdef"@[b as int / 16]
                &&& hex_text(bytes)[2 * i + 1] == "0123456789abcdef"@[b as int % 16]
            },
{
    assert forall|i: int| 0 <= i < bytes.len() implies {
        let b = #[trigger] bytes[i];
        &&& hex_text(bytes)[2 * i] == "0123456789abcdef"@[b as int / 16]
        &&& hex_text(bytes)[2 * i + 1] == "0123456789abcdef"@[b as int % 16]
    } by {
        assert((2 * i) / 2 == i && (2 * i) % 2 == 0);
        assert((2 * i + 1) / 2 == i && (2 * i + 1) % 2 == 1);
        lemma_hex_digit_is(bytes[i] as int / 16);
        lemma_hex_digit_is(bytes[i] as int % 16);
    }
}

/// The label of a spec shows the first sixteen bytes of its digest, each as two digits of
/// `0123456789abcdef`, the high one first.
pub proof fn law_a_label_shows_the_digest(canonical: Seq<u8>)
    requires
        sha256_digest(canonical).len() == 32,
    ensures
        spec_hash(canonical).len() == 32,
        forall|i: int|
            0 <= i < 16 ==> {
                let b = #[trigger] sha256_digest(canonical)[i];
                &&& spec_hash(canonical)[2 * i] == "0123456789abcdef"@[b as int / 16]
                &&& spec_hash(canonical)[2 * i + 1] == "0123456789abcdef"@[b as int % 16]
            },
{
    let digest = sha256_digest(canonical);
    let shown = digest.take(SHOWN as int);
    law_hex_has_two_digits_for_each_byte(shown);
    assert forall|i: int| 0 <= i < 16 implies {
        let b = #[trigger] digest[i];
        &&& spec_hash(canonical)[2 * i] == "0123456789abcdef"@[b as int / 16]
        &&& spec_hash(canonical)[2 * i + 1] == "0123456789abcdef"@[b as int % 16]
    } by {
        assert(shown[i] == digest[i]);
    }
}

/// The digits of hexadecimal numbers.
proof fn lemma_hex_digit_is(n: int)
    requires
        0 <= n < 16,
    ensures
        hex_digit(n) == "0123456789abcdef"@[n],
{
    reveal_strlit("0123456789abcdef");
}

} // verus!
