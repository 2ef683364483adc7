//! SHA-256 digests and their lowercase hexadecimal form.

use vstd::prelude::*;

verus! {

/// The SHA-256 digest of some bytes, as `sha2` computes it.
pub uninterp spec fn sha256_digest(bytes: Seq<u8>) -> Seq<u8>;

/// Computes SHA-256 with `sha2::Sha256::digest`; the digest is always 32
/// bytes long and depends on the input alone.
#[verifier::external_body]
fn sha256_raw(bytes: &[u8]) -> (r: Vec<u8>)
    ensures
        r@ == sha256_digest(bytes@),
        r@.len() == 32,
{
    <sha2::Sha256 as sha2::Digest>::digest(bytes).to_vec()
}

/// The lowercase hexadecimal digit of a value below sixteen.
pub open spec fn hex_digit(n: u8) -> u8 {
    if n < 10 {
        (48 + n) as u8
    } else {
        (87 + n) as u8
    }
}

/// Two lowercase hexadecimal digits per byte, most significant first.
pub open spec fn hex_lower(bytes: Seq<u8>) -> Seq<u8>
    decreases bytes.len(),
{
    if bytes.len() == 0 {
        Seq::empty()
    } else {
        hex_lower(bytes.drop_last()) + seq![
            hex_digit(bytes.last() / 16),
            hex_digit(bytes.last() % 16),
        ]
    }
}

/// The lowercase hexadecimal SHA-256 of some bytes.
pub open spec fn spec_sha256_hex(bytes: Seq<u8>) -> Seq<u8> {
    hex_lower(sha256_digest(bytes))
}

/// A digest in the form this project writes: 64 lowercase hexadecimal digits.
pub open spec fn spec_valid_sha256(value: Seq<u8>) -> bool {
    value.len() == 64 && forall|i: int| 0 <= i < value.len() ==> is_hex_lower(#[trigger] value[i])
}

/// A lowercase hexadecimal digit.
pub open spec fn is_hex_lower(b: u8) -> bool {
    (48 <= b <= 57) || (97 <= b <= 102)
}

/// Encodes bytes as lowercase hexadecimal.
pub fn to_hex_lower(bytes: &[u8]) -> (r: Vec<u8>)
    ensures
        r@ == hex_lower(bytes@),
        r@.len() == 2 * bytes@.len(),
        forall|i: int| 0 <= i < r@.len() ==> is_hex_lower(#[trigger] r@[i]),
{
    let mut out: Vec<u8> = Vec::new();
    let mut i: usize = 0;
    while i < bytes.len()
        invariant
            i <= bytes@.len(),
            out@ == hex_lower(bytes@.take(i as int)),
            out@.len() == 2 * i,
            forall|k: int| 0 <= k < out@.len() ==> is_hex_lower(#[trigger] out@[k]),
        decreases bytes@.len() - i,
    {
        let b = bytes[i];
        let hi = b / 16;
        let lo = b % 16;
        let hd: u8 = if hi < 10 { 48 + hi } else { 87 + hi };
        let ld: u8 = if lo < 10 { 48 + lo } else { 87 + lo };
        assert(bytes@.take(i + 1).drop_last() == bytes@.take(i as int));
        out.push(hd);
        out.push(ld);
        i += 1;
    }
    assert(bytes@.take(bytes@.len() as int) == bytes@);
    out
}

/// Returns the lowercase hexadecimal SHA-256 of `bytes`.
pub fn sha256_hex(bytes: &[u8]) -> (r: Vec<u8>)
    ensures
        r@ == spec_sha256_hex(bytes@),
        spec_valid_sha256(r@),
{
    let digest = sha256_raw(bytes);
    to_hex_lower(digest.as_slice())
}

/// Returns whether `value` is 64 lowercase hexadecimal digits.
pub fn valid_sha256(value: &[u8]) -> (r: bool)
    ensures
        r == spec_valid_sha256(value@),
{
    if value.len() != 64 {
        return false;
    }
    let mut i: usize = 0;
    while i < value.len()
        invariant
            i <= value@.len(),
            forall|k: int| 0 <= k < i ==> is_hex_lower(#[trigger] value@[k]),
        decreases value@.len() - i,
    {
        let b = value[i];
        if !((48 <= b && b <= 57) || (97 <= b && b <= 102)) {
            assert(!is_hex_lower(value@[i as int]));
            return false;
        }
        i += 1;
    }
    true
}

/// Returns the SHA-256 digest of `bytes`.
pub fn sha256(bytes: &[u8]) -> (r: Vec<u8>)
    ensures
        r@ == sha256_digest(bytes@),
        r@.len() == 32,
{
    sha256_raw(bytes)
}

/// The unsigned value of `b[i..8]` read least significant byte first.
pub open spec fn le_value(b: Seq<u8>, i: nat) -> nat
    decreases 8 - i,
{
    if i >= 8 {
        0
    } else {
        b[i as int] as nat + 256 * le_value(b, i + 1)
    }
}

/// `256` raised to the power `k`.
pub open spec fn pow256(k: nat) -> nat
    decreases k,
{
    if k == 0 {
        1
    } else {
        256 * pow256((k - 1) as nat)
    }
}

/// The bytes `b[i..8]` read least significant first are below `256^(8 - i)`.
pub proof fn lemma_le_value_bound(b: Seq<u8>, i: nat)
    requires
        i <= 8,
    ensures
        le_value(b, i) < pow256((8 - i) as nat),
    decreases 8 - i,
{
    if i < 8 {
        lemma_le_value_bound(b, i + 1);
        let p = pow256((8 - i - 1) as nat);
        let v = le_value(b, i + 1);
        let x = b[i as int] as nat;
        assert(x + 256 * v < 256 * p) by (nonlinear_arith)
            requires
                v < p,
                x < 256,
        ;
    }
}

/// `256^k` grows with `k`.
pub proof fn lemma_pow256_monotone(j: nat, k: nat)
    requires
        j <= k,
    ensures
        pow256(j) <= pow256(k),
    decreases k,
{
    if j < k {
        lemma_pow256_monotone(j, (k - 1) as nat);
    }
}

/// Reads the first eight bytes of `b` as an unsigned integer, least
/// significant byte first.
pub fn le_u64_prefix(b: &[u8]) -> (r: u64)
    requires
        b@.len() >= 8,
    ensures
        r == le_value(b@, 0),
{
    let mut v: u64 = 0;
    let mut i: usize = 8;
    assert(pow256(8) == 0x1_0000_0000_0000_0000) by {
        reveal_with_fuel(pow256, 9);
    }
    while i > 0
        invariant
            i <= 8,
            b@.len() >= 8,
            v == le_value(b@, i as nat),
            pow256(8) == 0x1_0000_0000_0000_0000,
        decreases i,
    {
        i -= 1;
        proof {
            lemma_le_value_bound(b@, i as nat);
            lemma_pow256_monotone((8 - i) as nat, 8);
        }
        v = b[i] as u64 + 256 * v;
    }
    v
}

/// The eight bytes of `x`, least significant first.
pub open spec fn le_bytes(x: nat, n: nat) -> Seq<u8>
    decreases n,
{
    if n == 0 {
        Seq::empty()
    } else {
        seq![(x % 256) as u8] + le_bytes(x / 256, (n - 1) as nat)
    }
}

/// Appends the eight bytes of `x`, least significant first.
pub fn push_le_u64(out: &mut Vec<u8>, x: u64)
    ensures
        final(out)@ == old(out)@ + le_bytes(x as nat, 8),
{
    let mut rest: u64 = x;
    let mut n: usize = 0;
    let ghost start = out@;
    while n < 8
        invariant
            n <= 8,
            out@ + le_bytes(rest as nat, (8 - n) as nat) == start + le_bytes(x as nat, 8),
        decreases 8 - n,
    {
        let ghost before = out@;
        assert(le_bytes(rest as nat, (8 - n) as nat) == seq![(rest % 256) as u8] + le_bytes((rest / 256) as nat, (8 - n - 1) as nat));
        out.push((rest % 256) as u8);
        assert(out@ + le_bytes((rest / 256) as nat, (8 - n - 1) as nat) =~= before + le_bytes(rest as nat, (8 - n) as nat));
        rest = rest / 256;
        n += 1;
    }
    assert(le_bytes(rest as nat, 0) =~= Seq::<u8>::empty());
    assert(out@ =~= out@ + le_bytes(rest as nat, 0));
}

} // verus!
