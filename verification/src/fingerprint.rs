//! Content fingerprints: a 64-bit FNV-1a hash rendered as sixteen hex digits.
//!
//! Every node renders the same bytes to the same fingerprint, so a fingerprint
//! can stand in for the content when two nodes ask whether a file changed.

use vstd::prelude::*;
use vstd::string::*;

verus! {

/// The FNV-1a offset basis for 64-bit hashes.
pub const FNV_OFFSET: u64 = 14695981039346656037;

/// The FNV-1a prime for 64-bit hashes.
pub const FNV_PRIME: u64 = 1099511628211;

/// One FNV-1a round: xor the byte in, then multiply by the prime modulo 2^64.
pub open spec fn fnv_step(h: u64, b: u8) -> u64 {
    (((h ^ (b as u64)) as int * (FNV_PRIME as int)) % 0x1_0000_0000_0000_0000) as u64
}

/// The FNV-1a state after feeding `bytes`, first to last, into state `h`.
pub open spec fn fnv_fold(h: u64, bytes: Seq<u8>) -> u64
    decreases bytes.len(),
{
    if bytes.len() == 0 {
        h
    } else {
        fnv_step(fnv_fold(h, bytes.drop_last()), bytes.last())
    }
}

/// A length as eight bytes, least significant first.
pub open spec fn len_prefix(n: nat) -> Seq<u8> {
    seq![
        (n % 0x100) as u8,
        (n / 0x100 % 0x100) as u8,
        (n / 0x1_0000 % 0x100) as u8,
        (n / 0x100_0000 % 0x100) as u8,
        (n / 0x1_0000_0000 % 0x100) as u8,
        (n / 0x100_0000_0000 % 0x100) as u8,
        (n / 0x1_0000_0000_0000 % 0x100) as u8,
        (n / 0x100_0000_0000_0000 % 0x100) as u8,
    ]
}

/// The 64-bit hash of a byte string: FNV-1a over its length, then its bytes.
pub open spec fn content_hash(content: Seq<u8>) -> u64 {
    fnv_fold(fnv_fold(FNV_OFFSET, len_prefix(content.len())), content)
}

/// The `i`-th group of four bits of `h`, counted from the most significant.
pub open spec fn nibble(h: u64, i: int) -> u64 {
    (h >> ((60 - 4 * i) as u64)) & 0xf
}

/// The lowercase hex digit for a value below sixteen.
pub open spec fn hex_digit(n: u64) -> char {
    "0123456789abcdef"@[n as int]
}

/// `h` as sixteen lowercase hex digits, zero-padded, most significant first.
pub open spec fn hex16(h: u64) -> Seq<char> {
    Seq::new(16, |i: int| hex_digit(nibble(h, i)))
}

/// The fingerprint of a byte string: its hash as sixteen hex digits.
#[verifier::opaque]
pub open spec fn fingerprint(content: Seq<u8>) -> Seq<char> {
    hex16(content_hash(content))
}

/// Whether `c` is one of `0`-`9` or `a`-`f`.
pub open spec fn is_lower_hex(c: char) -> bool {
    ('0' <= c && c <= '9') || ('a' <= c && c <= 'f')
}

/// Feeds `bytes` into the running FNV-1a state `h`.
pub fn fnv_feed(h: u64, bytes: &[u8]) -> (r: u64)
    ensures
        r == fnv_fold(h, bytes@),
{
    let mut acc: u64 = h;
    let mut i: usize = 0;
    while i < bytes.len()
        invariant
            i <= bytes.len(),
            acc == fnv_fold(h, bytes@.take(i as int)),
        decreases bytes.len() - i,
    {
        proof {
            assert(bytes@.take(i + 1).drop_last() =~= bytes@.take(i as int));
        }
        acc = (acc ^ (bytes[i] as u64)).wrapping_mul(FNV_PRIME);
        i += 1;
    }
    proof {
        assert(bytes@.take(i as int) =~= bytes@);
    }
    acc
}

/// Renders `h` as sixteen lowercase hex digits.
pub fn render_hex16(h: u64) -> (r: String)
    ensures
        r@ == hex16(h),
{
    let digits = "0123456789abcdef";
    proof {
        reveal_strlit("0123456789abcdef");
    }
    let mut out = String::new();
    let mut i: usize = 0;
    while i < 16
        invariant
            i <= 16,
            digits@ == "0123456789abcdef"@,
            digits@.len() == 16,
            digits.is_ascii(),
            out@ == hex16(h).take(i as int),
        decreases 16 - i,
    {
        let shift: u64 = 60 - 4 * (i as u64);
        let n: u64 = (h >> shift) & 0xf;
        assert(n < 16) by (bit_vector)
            requires
                n == (h >> shift) & 0xf,
        ;
        out.append(digits.substring_ascii(n as usize, n as usize + 1));
        proof {
            assert(digits@.subrange(n as int, n as int + 1) =~= seq![
                hex_digit(nibble(h, i as int)),
            ]);
            assert(out@ =~= hex16(h).take(i as int + 1));
        }
        i += 1;
    }
    out
}

/// Produces the fingerprint of `content`: sixteen lowercase hex digits that
/// depend on the bytes alone.
pub fn hash_content(content: &[u8]) -> (r: String)
    ensures
        r@ == fingerprint(content@),
{
    let n: u64 = content.len() as u64;
    let prefix: Vec<u8> = vec![
        (n % 0x100) as u8,
        (n / 0x100 % 0x100) as u8,
        (n / 0x1_0000 % 0x100) as u8,
        (n / 0x100_0000 % 0x100) as u8,
        (n / 0x1_0000_0000 % 0x100) as u8,
        (n / 0x100_0000_0000 % 0x100) as u8,
        (n / 0x1_0000_0000_0000 % 0x100) as u8,
        (n / 0x100_0000_0000_0000 % 0x100) as u8,
    ];
    proof {
        assert(prefix@ =~= len_prefix(content@.len()));
    }
    let h0 = fnv_feed(FNV_OFFSET, prefix.as_slice());
    let h1 = fnv_feed(h0, content);
    proof {
        reveal(fingerprint);
    }
    render_hex16(h1)
}

/// A fingerprint is always sixteen lowercase hex digits.
pub proof fn lemma_fingerprint_shape(content: Seq<u8>)
    ensures
        fingerprint(content).len() == 16,
        forall|i: int| 0 <= i < 16 ==> is_lower_hex(#[trigger] fingerprint(content)[i]),
{
    let h = content_hash(content);
    reveal(fingerprint);
    reveal_strlit("0123456789abcdef");
    assert forall|i: int| 0 <= i < 16 implies is_lower_hex(#[trigger] hex16(h)[i]) by {
        let s = (60 - 4 * i) as u64;
        let n = nibble(h, i);
        assert(n < 16) by (bit_vector)
            requires
                n == (h >> s) & 0xf,
        ;
    }
}

/// The hex rendering loses nothing: two hashes render alike only if they are
/// the same hash.
pub proof fn lemma_hex16_injective(a: u64, b: u64)
    requires
        hex16(a) == hex16(b),
    ensures
        a == b,
{
    reveal_strlit("0123456789abcdef");
    assert forall|i: int| 0 <= i < 16 implies nibble(a, i) == nibble(b, i) by {
        let s = (60 - 4 * i) as u64;
        let x = nibble(a, i);
        let y = nibble(b, i);
        assert(x < 16) by (bit_vector)
            requires
                x == (a >> s) & 0xf,
        ;
        assert(y < 16) by (bit_vector)
            requires
                y == (b >> s) & 0xf,
        ;
        assert(hex16(a)[i] == hex_digit(x));
        assert(hex16(b)[i] == hex_digit(y));
    }
    assert(nibble(a, 0) == nibble(b, 0));
    assert(nibble(a, 1) == nibble(b, 1));
    assert(nibble(a, 2) == nibble(b, 2));
    assert(nibble(a, 3) == nibble(b, 3));
    assert(nibble(a, 4) == nibble(b, 4));
    assert(nibble(a, 5) == nibble(b, 5));
    assert(nibble(a, 6) == nibble(b, 6));
    assert(nibble(a, 7) == nibble(b, 7));
    assert(nibble(a, 8) == nibble(b, 8));
    assert(nibble(a, 9) == nibble(b, 9));
    assert(nibble(a, 10) == nibble(b, 10));
    assert(nibble(a, 11) == nibble(b, 11));
    assert(nibble(a, 12) == nibble(b, 12));
    assert(nibble(a, 13) == nibble(b, 13));
    assert(nibble(a, 14) == nibble(b, 14));
    assert(nibble(a, 15) == nibble(b, 15));
    assert(a == b) by (bit_vector)
        requires
            (a >> 60) & 0xf == (b >> 60) & 0xf,
            (a >> 56) & 0xf == (b >> 56) & 0xf,
            (a >> 52) & 0xf == (b >> 52) & 0xf,
            (a >> 48) & 0xf == (b >> 48) & 0xf,
            (a >> 44) & 0xf == (b >> 44) & 0xf,
            (a >> 40) & 0xf == (b >> 40) & 0xf,
            (a >> 36) & 0xf == (b >> 36) & 0xf,
            (a >> 32) & 0xf == (b >> 32) & 0xf,
            (a >> 28) & 0xf == (b >> 28) & 0xf,
            (a >> 24) & 0xf == (b >> 24) & 0xf,
            (a >> 20) & 0xf == (b >> 20) & 0xf,
            (a >> 16) & 0xf == (b >> 16) & 0xf,
            (a >> 12) & 0xf == (b >> 12) & 0xf,
            (a >> 8) & 0xf == (b >> 8) & 0xf,
            (a >> 4) & 0xf == (b >> 4) & 0xf,
            (a >> 0) & 0xf == (b >> 0) & 0xf,
    ;
}

/// Two byte strings have the same fingerprint exactly when they have the same
/// 64-bit hash.
pub proof fn lemma_fingerprint_eq_iff_hash_eq(x: Seq<u8>, y: Seq<u8>)
    ensures
        fingerprint(x) == fingerprint(y) <==> content_hash(x) == content_hash(y),
{
    reveal(fingerprint);
    if fingerprint(x) == fingerprint(y) {
        lemma_hex16_injective(content_hash(x), content_hash(y));
    }
}

} // verus!
