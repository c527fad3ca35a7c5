//! The per-file digest: SHA-256 over a file's bytes (and, in combined mode,
//! its parent directory), reduced to a 64-bit bucketing key.
use vstd::prelude::*;

verus! {

/// How a file's digest is formed.
#[derive(PartialEq, Eq, Structural, Clone, Copy, Debug)]
pub enum Mode {
    /// The digest covers the file's bytes only.
    ContentOnly,
    /// The digest covers the file's bytes followed by its parent directory's
    /// bytes, so that equal files in different directories differ.
    Combined,
}

/// The SHA-256 digest of a byte sequence.
pub uninterp spec fn sha256_of(data: Seq<u8>) -> Seq<u8>;

/// Relies on `sha2::Sha256::digest`: a 32-byte value that depends on the
/// input bytes alone.
#[verifier::external_body]
fn sha256(data: &[u8]) -> (r: Vec<u8>)
    ensures
        r@ == sha256_of(data@),
        r@.len() == 32,
{
    <sha2::Sha256 as sha2::Digest>::digest(data).to_vec()
}

/// The eight bytes of `n`, most significant first.
pub open spec fn be_bytes(n: u64) -> Seq<u8> {
    Seq::new(8, |i: int| ((n >> ((56 - 8 * i) as u64)) & 0xff) as u8)
}

/// The bytes that are hashed for a file in the given mode. In combined mode
/// the contents' length comes first, so that no two pairs of contents and
/// parent directory give the same bytes.
pub open spec fn hash_input(contents: Seq<u8>, parent: Seq<u8>, mode: Mode) -> Seq<u8> {
    match mode {
        Mode::ContentOnly => contents,
        Mode::Combined => be_bytes(contents.len() as u64) + contents + parent,
    }
}

/// Combined mode hashes distinct pairs of contents and parent directory as
/// distinct byte sequences: equal inputs come only from equal contents and
/// equal parents.
pub proof fn lemma_combined_input_unambiguous(
    contents_a: Seq<u8>,
    parent_a: Seq<u8>,
    contents_b: Seq<u8>,
    parent_b: Seq<u8>,
)
    requires
        contents_a.len() <= u64::MAX,
        contents_b.len() <= u64::MAX,
        hash_input(contents_a, parent_a, Mode::Combined) == hash_input(
            contents_b,
            parent_b,
            Mode::Combined,
        ),
    ensures
        contents_a == contents_b,
        parent_a == parent_b,
{
    let x = hash_input(contents_a, parent_a, Mode::Combined);
    let y = hash_input(contents_b, parent_b, Mode::Combined);
    let a = contents_a.len() as u64;
    let b = contents_b.len() as u64;
    assert(x.take(8) =~= be_bytes(a));
    assert(y.take(8) =~= be_bytes(b));
    assert(be_bytes(a) == be_bytes(b));
    lemma_be_bytes_injective(a, b);
    let n = contents_a.len() as int;
    assert(x.subrange(8, 8 + n) =~= contents_a);
    assert(y.subrange(8, 8 + n) =~= contents_b);
    assert(x.skip(8 + n) =~= parent_a);
    assert(y.skip(8 + n) =~= parent_b);
}

proof fn lemma_byte_fits(a: u64, s: u64)
    by (bit_vector)
    ensures
        (a >> s) & 0xff <= 0xff,
{
}

proof fn lemma_byte_eq(a: u64, b: u64, i: int)
    requires
        be_bytes(a) == be_bytes(b),
        0 <= i < 8,
    ensures
        ((a >> ((56 - 8 * i) as u64)) & 0xff) == ((b >> ((56 - 8 * i) as u64)) & 0xff),
{
    let sh = (56 - 8 * i) as u64;
    let va = (a >> sh) & 0xff;
    let vb = (b >> sh) & 0xff;
    lemma_byte_fits(a, sh);
    lemma_byte_fits(b, sh);
    assert(be_bytes(a)[i] == va as u8);
    assert(be_bytes(b)[i] == vb as u8);
    assert(be_bytes(a)[i] == be_bytes(b)[i]);
}

proof fn lemma_be_bytes_injective(a: u64, b: u64)
    requires
        be_bytes(a) == be_bytes(b),
    ensures
        a == b,
{
    lemma_byte_eq(a, b, 0);
    lemma_byte_eq(a, b, 1);
    lemma_byte_eq(a, b, 2);
    lemma_byte_eq(a, b, 3);
    lemma_byte_eq(a, b, 4);
    lemma_byte_eq(a, b, 5);
    lemma_byte_eq(a, b, 6);
    lemma_byte_eq(a, b, 7);
    assert(((a >> 56u64) & 0xff) == ((b >> 56u64) & 0xff)) by { assert((56 - 8 * 0) as u64 == 56u64); }
    assert(((a >> 48u64) & 0xff) == ((b >> 48u64) & 0xff)) by { assert((56 - 8 * 1) as u64 == 48u64); }
    assert(((a >> 40u64) & 0xff) == ((b >> 40u64) & 0xff)) by { assert((56 - 8 * 2) as u64 == 40u64); }
    assert(((a >> 32u64) & 0xff) == ((b >> 32u64) & 0xff)) by { assert((56 - 8 * 3) as u64 == 32u64); }
    assert(((a >> 24u64) & 0xff) == ((b >> 24u64) & 0xff)) by { assert((56 - 8 * 4) as u64 == 24u64); }
    assert(((a >> 16u64) & 0xff) == ((b >> 16u64) & 0xff)) by { assert((56 - 8 * 5) as u64 == 16u64); }
    assert(((a >> 8u64) & 0xff) == ((b >> 8u64) & 0xff)) by { assert((56 - 8 * 6) as u64 == 8u64); }
    assert(((a >> 0u64) & 0xff) == ((b >> 0u64) & 0xff)) by { assert((56 - 8 * 7) as u64 == 0u64); }
    assert(a == b) by (bit_vector)
        requires
            ((a >> 56u64) & 0xff) == ((b >> 56u64) & 0xff),
            ((a >> 48u64) & 0xff) == ((b >> 48u64) & 0xff),
            ((a >> 40u64) & 0xff) == ((b >> 40u64) & 0xff),
            ((a >> 32u64) & 0xff) == ((b >> 32u64) & 0xff),
            ((a >> 24u64) & 0xff) == ((b >> 24u64) & 0xff),
            ((a >> 16u64) & 0xff) == ((b >> 16u64) & 0xff),
            ((a >> 8u64) & 0xff) == ((b >> 8u64) & 0xff),
            ((a >> 0u64) & 0xff) == ((b >> 0u64) & 0xff),
    ;
}

/// The big-endian value of the first `n` bytes of `b`.
pub open spec fn be_value(b: Seq<u8>, n: nat) -> nat
    decreases n,
{
    if n == 0 {
        0
    } else {
        be_value(b, (n - 1) as nat) * 256 + b[n - 1] as nat
    }
}

/// `256` to the power `n`.
pub open spec fn byte_range(n: nat) -> nat
    decreases n,
{
    if n == 0 {
        1
    } else {
        256 * byte_range((n - 1) as nat)
    }
}

/// The 64-bit key of a digest: its first eight bytes, read big-endian.
pub open spec fn key_of(d: Seq<u8>) -> u64 {
    be_value(d, 8) as u64
}

/// The key under which a file with these bytes and this parent directory
/// is grouped in the given mode.
pub open spec fn digest_of(contents: Seq<u8>, parent: Seq<u8>, mode: Mode) -> u64 {
    key_of(sha256_of(hash_input(contents, parent, mode)))
}

proof fn lemma_be_value_bound(b: Seq<u8>, n: nat)
    ensures
        be_value(b, n) < byte_range(n),
    decreases n,
{
    if n > 0 {
        let m = (n - 1) as nat;
        lemma_be_value_bound(b, m);
        let v = be_value(b, m);
        let r = byte_range(m);
        let x = b[m as int] as nat;
        assert(x < 256);
        assert(v * 256 + x < 256 * r) by (nonlinear_arith)
            requires
                v < r,
                x < 256,
        ;
    }
}

/// Reads the first eight bytes of `d` as a big-endian integer.
fn key_from_digest(d: &Vec<u8>) -> (r: u64)
    requires
        d@.len() >= 8,
    ensures
        r == key_of(d@),
{
    let mut acc: u64 = 0;
    let mut i: usize = 0;
    while i < 8
        invariant
            i <= 8,
            d@.len() >= 8,
            acc as nat == be_value(d@, i as nat),
        decreases 8 - i,
    {
        proof {
            lemma_be_value_bound(d@, i as nat);
            reveal_with_fuel(byte_range, 8);
            assert(byte_range(7) == 0x100000000000000nat);
            if i < 7 {
                assert(byte_range(i as nat) <= byte_range(7)) by {
                    lemma_byte_range_monotonic(i as nat, 7);
                }
            }
            assert(acc * 256 + d@[i as int] < 0x10000000000000000nat) by (nonlinear_arith)
                requires
                    acc < 0x100000000000000nat,
                    d@[i as int] < 256,
            ;
        }
        acc = acc * 256 + d[i] as u64;
        i = i + 1;
    }
    acc
}

proof fn lemma_byte_range_monotonic(a: nat, b: nat)
    requires
        a <= b,
    ensures
        byte_range(a) <= byte_range(b),
    decreases b - a,
{
    if a < b {
        lemma_byte_range_monotonic(a, (b - 1) as nat);
    }
}

/// The bucketing key of a file, from its bytes and its parent directory.
pub fn file_digest(contents: &[u8], parent: &[u8], mode: Mode) -> (r: u64)
    ensures
        r == digest_of(contents@, parent@, mode),
{
    let d = match mode {
        Mode::ContentOnly => sha256(contents),
        Mode::Combined => {
            let n: u64 = contents.len() as u64;
            let ghost prefix = be_bytes(n);
            let mut joined: Vec<u8> = Vec::with_capacity(contents.len());
            let mut k: u64 = 0;
            while k < 8
                invariant
                    k <= 8,
                    n == contents@.len() as u64,
                    prefix == be_bytes(n),
                    joined@ == prefix.take(k as int),
                decreases 8 - k,
            {
                let shift: u64 = 56 - 8 * k;
                proof {
                    lemma_byte_fits(n, shift);
                }
                assert(shift == (56 - 8 * (k as int)) as u64);
                let byte: u8 = ((n >> shift) & 0xff) as u8;
                assert(byte == prefix[k as int]);
                joined.push(byte);
                k = k + 1;
                assert(joined@ =~= prefix.take(k as int));
            }
            let mut i: usize = 0;
            while i < contents.len()
                invariant
                    i <= contents@.len(),
                    joined@ == prefix + contents@.take(i as int),
                decreases contents@.len() - i,
            {
                joined.push(contents[i]);
                i = i + 1;
                assert(joined@ =~= prefix + contents@.take(i as int));
            }
            let mut j: usize = 0;
            while j < parent.len()
                invariant
                    j <= parent@.len(),
                    joined@ == prefix + contents@ + parent@.take(j as int),
                decreases parent@.len() - j,
            {
                joined.push(parent[j]);
                j = j + 1;
                assert(joined@ =~= prefix + contents@ + parent@.take(j as int));
            }
            assert(prefix.take(8) =~= prefix);
            assert(contents@.take(contents@.len() as int) =~= contents@);
            assert(joined@ =~= prefix + contents@ + parent@);
            sha256(joined.as_slice())
        },
    };
    key_from_digest(&d)
}

} // verus!
