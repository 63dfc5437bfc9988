use vstd::prelude::*;

use crate::exceptions::Exceptions;

verus! {

/// A QR Code version, identified by its number (1 to 40).
#[derive(Debug, Clone, Copy, PartialEq, Eq, Structural)]
pub struct Version {
    versionNumber: u32,
}

/// The first module offset of a symbol: 17 for QR Code, 9 for Micro QR Code.
pub open spec fn dimension_offset(is_micro: bool) -> int {
    if is_micro { 9 } else { 17 }
}

/// How many modules each version adds to a side: 4 for QR Code, 2 for Micro QR Code.
pub open spec fn dimension_step(is_micro: bool) -> int {
    if is_micro { 2 } else { 4 }
}

/// The 18-bit version information codeword of version `i + 7`, for `i` from 0 to 33.
pub open spec fn codeword(i: u32) -> u32 {
    if i == 0u32 {
        0x07C94u32
    } else if i == 1u32 {
        0x085BCu32
    } else if i == 2u32 {
        0x09A99u32
    } else if i == 3u32 {
        0x0A4D3u32
    } else if i == 4u32 {
        0x0BBF6u32
    } else if i == 5u32 {
        0x0C762u32
    } else if i == 6u32 {
        0x0D847u32
    } else if i == 7u32 {
        0x0E60Du32
    } else if i == 8u32 {
        0x0F928u32
    } else if i == 9u32 {
        0x10B78u32
    } else if i == 10u32 {
        0x1145Du32
    } else if i == 11u32 {
        0x12A17u32
    } else if i == 12u32 {
        0x13532u32
    } else if i == 13u32 {
        0x149A6u32
    } else if i == 14u32 {
        0x15683u32
    } else if i == 15u32 {
        0x168C9u32
    } else if i == 16u32 {
        0x177ECu32
    } else if i == 17u32 {
        0x18EC4u32
    } else if i == 18u32 {
        0x191E1u32
    } else if i == 19u32 {
        0x1AFABu32
    } else if i == 20u32 {
        0x1B08Eu32
    } else if i == 21u32 {
        0x1CC1Au32
    } else if i == 22u32 {
        0x1D33Fu32
    } else if i == 23u32 {
        0x1ED75u32
    } else if i == 24u32 {
        0x1F250u32
    } else if i == 25u32 {
        0x209D5u32
    } else if i == 26u32 {
        0x216F0u32
    } else if i == 27u32 {
        0x228BAu32
    } else if i == 28u32 {
        0x2379Fu32
    } else if i == 29u32 {
        0x24B0Bu32
    } else if i == 30u32 {
        0x2542Eu32
    } else if i == 31u32 {
        0x26A64u32
    } else if i == 32u32 {
        0x27541u32
    } else {
        0x28C69u32
    }
}

/// The version information codewords of versions 7 to 40, in order.
pub open spec fn version_decode_info() -> Seq<u32> {
    Seq::new(34, |i: int| codeword(i as u32))
}

/// The number of set bits among the `n` lowest bits of `x`.
pub open spec fn ones_below(x: u32, n: u32) -> int
    decreases n,
{
    if n == 0 {
        0
    } else {
        ones_below(x, (n - 1) as u32) + ((x >> ((n - 1) as u32)) & 1u32)
    }
}

/// The number of bit positions in which `a` and `b` differ (their Hamming distance).
pub open spec fn bit_distance(a: u32, b: u32) -> int {
    ones_below(a ^ b, 32)
}

/// How far a read of version bits lies from the codeword at `index`.
pub open spec fn read_distance(bits: i32, index: int) -> int {
    bit_distance(bits as u32, version_decode_info()[index])
}

/// Whether one of the two reads equals the codeword at `index` exactly.
pub open spec fn exact_read(a: i32, b: i32, index: int) -> bool {
    version_decode_info()[index] == a as u32 || version_decode_info()[index] == b as u32
}

/// The distance of the nearer of the two reads to the codeword at `index`.
pub open spec fn pair_distance(a: i32, b: i32, index: int) -> int {
    if read_distance(a, index) <= read_distance(b, index) {
        read_distance(a, index)
    } else {
        read_distance(b, index)
    }
}

/// The codeword index that decoding the reads `a` and `b` selects: the first exact match, or
/// else the first codeword at the least distance when that distance is at most 3.
pub open spec fn decoded_index(a: i32, b: i32, i: int) -> bool {
    &&& 0 <= i < 34
    &&& ((exact_read(a, b, i) && forall|j: int| 0 <= j < i ==> !exact_read(a, b, j))
        || ((forall|j: int| 0 <= j < 34 ==> !exact_read(a, b, j))
            && pair_distance(a, b, i) <= 3
            && (forall|j: int| 0 <= j < i ==> pair_distance(a, b, j) > pair_distance(a, b, i))
            && (forall|j: int| 0 <= j < 34 ==> pair_distance(a, b, j) >= pair_distance(a, b, i))))
}

/// Neither read matches a codeword, nor lies within 3 bits of one.
pub open spec fn undecodable(a: i32, b: i32) -> bool {
    &&& forall|j: int| 0 <= j < 34 ==> !exact_read(a, b, j)
    &&& forall|j: int| 0 <= j < 34 ==> pair_distance(a, b, j) > 3
}

proof fn lemma_bit_at_most_one(x: u32, k: u32)
    by (bit_vector)
    ensures
        (x >> k) & 1u32 <= 1u32,
{
}

proof fn lemma_xor_bit_triangle(x: u32, y: u32, z: u32, k: u32)
    by (bit_vector)
    ensures
        ((x ^ z) >> k) & 1u32 <= (((x ^ y) >> k) & 1u32) + (((y ^ z) >> k) & 1u32),
{
}

proof fn lemma_xor_facts(x: u32, y: u32, k: u32)
    by (bit_vector)
    ensures
        x ^ y == y ^ x,
        x ^ x == 0u32,
        (0u32 >> k) & 1u32 == 0u32,
{
}

proof fn lemma_ones_below_bound(x: u32, n: u32)
    ensures
        0 <= ones_below(x, n) <= n,
    decreases n,
{
    if n > 0 {
        lemma_ones_below_bound(x, (n - 1) as u32);
        lemma_bit_at_most_one(x, (n - 1) as u32);
    }
}

proof fn lemma_ones_below_zero(n: u32)
    ensures
        ones_below(0, n) == 0,
    decreases n,
{
    if n > 0 {
        lemma_ones_below_zero((n - 1) as u32);
        lemma_xor_facts(0, 0, (n - 1) as u32);
    }
}

proof fn lemma_ones_below_triangle(x: u32, y: u32, z: u32, n: u32)
    ensures
        ones_below(x ^ z, n) <= ones_below(x ^ y, n) + ones_below(y ^ z, n),
    decreases n,
{
    if n > 0 {
        lemma_ones_below_triangle(x, y, z, (n - 1) as u32);
        lemma_xor_bit_triangle(x, y, z, (n - 1) as u32);
    }
}

/// Hamming distance is a metric on words: it is zero from a word to itself, symmetric, and
/// obeys the triangle inequality.
pub proof fn lemma_bit_distance_metric(x: u32, y: u32, z: u32)
    ensures
        bit_distance(x, x) == 0,
        bit_distance(x, y) == bit_distance(y, x),
        0 <= bit_distance(x, y) <= 32,
        bit_distance(x, z) <= bit_distance(x, y) + bit_distance(y, z),
{
    lemma_xor_facts(x, y, 0);
    lemma_xor_facts(x, x, 0);
    lemma_ones_below_zero(32);
    lemma_ones_below_bound(x ^ y, 32);
    lemma_ones_below_triangle(x, y, z, 32);
}

proof fn lemma_codeword_pairs(i: u32, j: u32)
    by (bit_vector)
    requires
        i < 34,
        j < 34,
        i != j,
    ensures
        ones_below(codeword(i) ^ codeword(j), 32) >= 8,
{
}

/// No two version information codewords differ in fewer than 8 bits.
pub proof fn lemma_codewords_far_apart(i: int, j: int)
    requires
        0 <= i < 34,
        0 <= j < 34,
        i != j,
    ensures
        bit_distance(version_decode_info()[i], version_decode_info()[j]) >= 8,
{
    lemma_codeword_pairs(i as u32, j as u32);
}

/// Decoding picks at most one codeword: the version it reports is determined by the reads.
pub proof fn lemma_decoded_index_unique(a: i32, b: i32, i: int, k: int)
    requires
        decoded_index(a, b, i),
        decoded_index(a, b, k),
    ensures
        i == k,
{
}

proof fn lemma_reads_far_from_other_codewords(a: i32, b: i32, i: int, j: int)
    requires
        0 <= i < 34,
        0 <= j < 34,
        i != j,
        read_distance(a, i) <= 3,
        read_distance(b, i) <= 3,
    ensures
        read_distance(a, j) >= 5,
        read_distance(b, j) >= 5,
        !exact_read(a, b, j),
{
    let t = version_decode_info();
    lemma_codewords_far_apart(i, j);
    lemma_bit_distance_metric(t[i], a as u32, t[j]);
    lemma_bit_distance_metric(a as u32, t[i], t[j]);
    lemma_bit_distance_metric(t[i], b as u32, t[j]);
    lemma_bit_distance_metric(b as u32, t[i], t[j]);
    lemma_bit_distance_metric(t[j], t[j], t[j]);
}

/// A decoded version is never more than 3 bits from the nearer read: either a read equals its
/// codeword, or one read differs from it in at most 3 bits; and no codeword is nearer to either
/// read when no read matches exactly.
pub proof fn lemma_decoded_within_three_bits(a: i32, b: i32, i: int)
    requires
        decoded_index(a, b, i),
    ensures
        0 <= i < 34,
        version_decode_info()[i] == a as u32 || version_decode_info()[i] == b as u32
            || bit_distance(a as u32, version_decode_info()[i]) <= 3
            || bit_distance(b as u32, version_decode_info()[i]) <= 3,
        !exact_read(a, b, i) ==> forall|j: int|
            0 <= j < 34 ==> bit_distance(a as u32, version_decode_info()[j]) >= pair_distance(a, b, i)
                && bit_distance(b as u32, version_decode_info()[j]) >= pair_distance(a, b, i),
        !exact_read(a, b, i) ==> forall|j: int|
            0 <= j < i ==> bit_distance(a as u32, version_decode_info()[j]) > pair_distance(a, b, i)
                && bit_distance(b as u32, version_decode_info()[j]) > pair_distance(a, b, i),
        forall|j: int|
            0 <= j < i ==> version_decode_info()[j] != a as u32 && version_decode_info()[j] != b as u32,
{
    if !exact_read(a, b, i) {
        assert forall|j: int| 0 <= j < 34 implies bit_distance(a as u32, version_decode_info()[j])
            >= pair_distance(a, b, i) && bit_distance(b as u32, version_decode_info()[j])
            >= pair_distance(a, b, i) by {
            assert(pair_distance(a, b, j) >= pair_distance(a, b, i));
        }
        assert forall|j: int| 0 <= j < i implies bit_distance(a as u32, version_decode_info()[j])
            > pair_distance(a, b, i) && bit_distance(b as u32, version_decode_info()[j])
            > pair_distance(a, b, i) by {
            assert(pair_distance(a, b, j) > pair_distance(a, b, i));
        }
    }
    assert forall|j: int| 0 <= j < i implies version_decode_info()[j] != a as u32
        && version_decode_info()[j] != b as u32 by {
        assert(!exact_read(a, b, j));
    }
}

/// When every codeword is more than 3 bits from both reads and neither read matches one, the
/// reads are undecodable.
pub proof fn lemma_far_reads_undecodable(a: i32, b: i32)
    requires
        forall|j: int| 0 <= j < 34 ==> version_decode_info()[j] != a as u32
            && version_decode_info()[j] != b as u32
            && bit_distance(a as u32, version_decode_info()[j]) > 3
            && bit_distance(b as u32, version_decode_info()[j]) > 3,
    ensures
        undecodable(a, b),
        forall|i: int| !decoded_index(a, b, i),
{
    assert forall|j: int| 0 <= j < 34 implies pair_distance(a, b, j) > 3 by {
        assert(read_distance(a, j) > 3 && read_distance(b, j) > 3);
    }
}

/// Words at distance zero are equal.
pub proof fn lemma_bit_distance_zero(x: u32, y: u32)
    ensures
        bit_distance(x, y) == 0 <==> x == y,
{
    lemma_bit_distance_metric(x, y, y);
    if bit_distance(x, y) == 0 {
        lemma_ones_below_zero_word(x ^ y, 32);
        assert(x ^ y == 0u32 ==> x == y) by (bit_vector);
    }
}

proof fn lemma_ones_below_zero_word(w: u32, n: u32)
    requires
        n <= 32,
        ones_below(w, n) == 0,
    ensures
        n == 32 ==> w == 0,
        forall|k: u32| k < n ==> #[trigger] ((w >> k) & 1u32) == 0u32,
    decreases n,
{
    if n > 0 {
        lemma_ones_below_bound(w, (n - 1) as u32);
        lemma_bit_at_most_one(w, (n - 1) as u32);
        lemma_ones_below_zero_word(w, (n - 1) as u32);
    }
    if n == 32 {
        assert((w >> 0u32) & 1u32 == 0u32);
        assert((w >> 1u32) & 1u32 == 0u32);
        assert((w >> 2u32) & 1u32 == 0u32);
        assert((w >> 3u32) & 1u32 == 0u32);
        assert((w >> 4u32) & 1u32 == 0u32);
        assert((w >> 5u32) & 1u32 == 0u32);
        assert((w >> 6u32) & 1u32 == 0u32);
        assert((w >> 7u32) & 1u32 == 0u32);
        assert((w >> 8u32) & 1u32 == 0u32);
        assert((w >> 9u32) & 1u32 == 0u32);
        assert((w >> 10u32) & 1u32 == 0u32);
        assert((w >> 11u32) & 1u32 == 0u32);
        assert((w >> 12u32) & 1u32 == 0u32);
        assert((w >> 13u32) & 1u32 == 0u32);
        assert((w >> 14u32) & 1u32 == 0u32);
        assert((w >> 15u32) & 1u32 == 0u32);
        assert((w >> 16u32) & 1u32 == 0u32);
        assert((w >> 17u32) & 1u32 == 0u32);
        assert((w >> 18u32) & 1u32 == 0u32);
        assert((w >> 19u32) & 1u32 == 0u32);
        assert((w >> 20u32) & 1u32 == 0u32);
        assert((w >> 21u32) & 1u32 == 0u32);
        assert((w >> 22u32) & 1u32 == 0u32);
        assert((w >> 23u32) & 1u32 == 0u32);
        assert((w >> 24u32) & 1u32 == 0u32);
        assert((w >> 25u32) & 1u32 == 0u32);
        assert((w >> 26u32) & 1u32 == 0u32);
        assert((w >> 27u32) & 1u32 == 0u32);
        assert((w >> 28u32) & 1u32 == 0u32);
        assert((w >> 29u32) & 1u32 == 0u32);
        assert((w >> 30u32) & 1u32 == 0u32);
        assert((w >> 31u32) & 1u32 == 0u32);
        lemma_all_bits_clear(w);
    }
}

proof fn lemma_all_bits_clear(w: u32)
    by (bit_vector)
    requires
        (w >> 0u32) & 1u32 == 0u32,
        (w >> 1u32) & 1u32 == 0u32,
        (w >> 2u32) & 1u32 == 0u32,
        (w >> 3u32) & 1u32 == 0u32,
        (w >> 4u32) & 1u32 == 0u32,
        (w >> 5u32) & 1u32 == 0u32,
        (w >> 6u32) & 1u32 == 0u32,
        (w >> 7u32) & 1u32 == 0u32,
        (w >> 8u32) & 1u32 == 0u32,
        (w >> 9u32) & 1u32 == 0u32,
        (w >> 10u32) & 1u32 == 0u32,
        (w >> 11u32) & 1u32 == 0u32,
        (w >> 12u32) & 1u32 == 0u32,
        (w >> 13u32) & 1u32 == 0u32,
        (w >> 14u32) & 1u32 == 0u32,
        (w >> 15u32) & 1u32 == 0u32,
        (w >> 16u32) & 1u32 == 0u32,
        (w >> 17u32) & 1u32 == 0u32,
        (w >> 18u32) & 1u32 == 0u32,
        (w >> 19u32) & 1u32 == 0u32,
        (w >> 20u32) & 1u32 == 0u32,
        (w >> 21u32) & 1u32 == 0u32,
        (w >> 22u32) & 1u32 == 0u32,
        (w >> 23u32) & 1u32 == 0u32,
        (w >> 24u32) & 1u32 == 0u32,
        (w >> 25u32) & 1u32 == 0u32,
        (w >> 26u32) & 1u32 == 0u32,
        (w >> 27u32) & 1u32 == 0u32,
        (w >> 28u32) & 1u32 == 0u32,
        (w >> 29u32) & 1u32 == 0u32,
        (w >> 30u32) & 1u32 == 0u32,
        (w >> 31u32) & 1u32 == 0u32,
    ensures
        w == 0,
{
}

/// Two reads that each lie within 3 bits of the codeword of a version decode to that version
/// and to no other: up to 3 bit errors per read are tolerated.
pub proof fn lemma_decode_tolerates_three_bit_errors(a: i32, b: i32, i: int)
    requires
        0 <= i < 34,
        read_distance(a, i) <= 3,
        read_distance(b, i) <= 3,
    ensures
        decoded_index(a, b, i),
        forall|k: int| decoded_index(a, b, k) ==> k == i,
{
    assert forall|j: int| 0 <= j < 34 && j != i implies !exact_read(a, b, j) by {
        lemma_reads_far_from_other_codewords(a, b, i, j);
    }
    if !exact_read(a, b, i) {
        assert(forall|j: int| 0 <= j < 34 ==> !exact_read(a, b, j));
        assert forall|j: int| 0 <= j < 34 && j != i implies pair_distance(a, b, j) > pair_distance(a, b, i) by {
            lemma_reads_far_from_other_codewords(a, b, i, j);
        }
    }
    assert forall|k: int| decoded_index(a, b, k) implies k == i by {
        if k != i {
            lemma_reads_far_from_other_codewords(a, b, i, k);
        }
    }
}

/// The number of set bits of a word.
fn count_ones(x: u32) -> (n: u32)
    ensures
        n == ones_below(x, 32),
        n <= 32,
{
    let mut n: u32 = 0;
    let mut k: u32 = 0;
    while k < 32
        invariant
            k <= 32,
            n == ones_below(x, k),
            n <= k,
        decreases 32 - k,
    {
        proof {
            lemma_bit_at_most_one(x, k);
        }
        n = n + ((x >> k) & 1);
        k = k + 1;
    }
    n
}

/// The version information codewords as a vector.
fn version_decode_table() -> (t: Vec<u32>)
    ensures
        t@ == version_decode_info(),
{
    let t: Vec<u32> = vec![
        0x07C94u32, 0x085BC, 0x09A99, 0x0A4D3, 0x0BBF6, 0x0C762, 0x0D847, 0x0E60D,
        0x0F928, 0x10B78, 0x1145D, 0x12A17, 0x13532, 0x149A6, 0x15683, 0x168C9,
        0x177EC, 0x18EC4, 0x191E1, 0x1AFAB, 0x1B08E, 0x1CC1A, 0x1D33F, 0x1ED75,
        0x1F250, 0x209D5, 0x216F0, 0x228BA, 0x2379F, 0x24B0B, 0x2542E, 0x26A64,
        0x27541, 0x28C69,
    ];
    assert(t@ =~= version_decode_info());
    t
}

impl Version {
    pub closed spec fn number(&self) -> u32 {
        self.versionNumber
    }

    pub fn getVersionNumber(&self) -> (n: u32)
        ensures n == self.number(),
    {
        self.versionNumber
    }

    /// The version with the given number; numbers outside 1 to 40 are refused.
    pub fn getVersionForNumber(versionNumber: u32) -> (r: Result<Version, Exceptions>)
        ensures
            match r {
                Ok(v) => 1 <= versionNumber <= 40 && v.number() == versionNumber,
                Err(e) => !(1 <= versionNumber <= 40) && e == Exceptions::IllegalArgumentException,
            },
    {
        if versionNumber < 1 || versionNumber > 40 {
            Err(Exceptions::IllegalArgumentException)
        } else {
            Ok(Version { versionNumber })
        }
    }

    /// Decodes the version of a QR Code from two reads of its version information bits.
    ///
    /// A read that equals a codeword decides at once; otherwise the codeword nearest to either
    /// read is taken, provided it lies within 3 bits.
    pub fn DecodeVersionInformation(versionBitsA: i32, versionBitsB: i32) -> (r: Result<Version, Exceptions>)
        ensures
            match r {
                Ok(v) => exists|i: int| #[trigger] decoded_index(versionBitsA, versionBitsB, i) && v.number() == i + 7,
                Err(e) => e == Exceptions::IllegalStateException && undecodable(versionBitsA, versionBitsB),
            },
    {
        let table = version_decode_table();
        let a: u32 = #[verifier::truncate] (versionBitsA as u32);
        let b: u32 = #[verifier::truncate] (versionBitsB as u32);
        let mut bestDifference: u32 = u32::MAX;
        let mut bestVersion: u32 = 0;
        let mut i: usize = 0;
        while i < 34
            invariant
                table@ == version_decode_info(),
                a == versionBitsA as u32,
                b == versionBitsB as u32,
                0 <= i <= 34,
                forall|j: int| 0 <= j < i ==> !exact_read(versionBitsA, versionBitsB, j),
                i == 0 ==> bestDifference == u32::MAX,
                i > 0 ==> {
                    &&& 7 <= bestVersion < i + 7
                    &&& bestDifference == pair_distance(versionBitsA, versionBitsB, bestVersion - 7)
                    &&& forall|j: int| 0 <= j < i ==> pair_distance(versionBitsA, versionBitsB, j) >= bestDifference
                    &&& forall|j: int| 0 <= j < bestVersion - 7 ==> pair_distance(versionBitsA, versionBitsB, j) > bestDifference
                },
            decreases 34 - i,
        {
            let targetVersion = table[i];
            if targetVersion == a || targetVersion == b {
                let r = Self::getVersionForNumber(i as u32 + 7);
                assert(decoded_index(versionBitsA, versionBitsB, i as int));
                return r;
            }
            let da = count_ones(a ^ targetVersion);
            let db = count_ones(b ^ targetVersion);
            assert(da == read_distance(versionBitsA, i as int));
            assert(db == read_distance(versionBitsB, i as int));
            let ghost oldBest = bestDifference;
            if da < bestDifference {
                bestVersion = i as u32 + 7;
                bestDifference = da;
            }
            if db < bestDifference {
                bestVersion = i as u32 + 7;
                bestDifference = db;
            }
            assert forall|j: int| 0 <= j < i + 1 implies pair_distance(versionBitsA, versionBitsB, j) >= bestDifference by {
                if j < i {
                    assert(pair_distance(versionBitsA, versionBitsB, j) >= oldBest);
                }
            }
            i = i + 1;
        }
        if bestDifference <= 3 {
            let r = Self::getVersionForNumber(bestVersion);
            assert(decoded_index(versionBitsA, versionBitsB, bestVersion - 7));
            return r;
        }
        Err(Exceptions::IllegalStateException)
    }

    /// The number of modules on each side of a symbol of the given version.
    pub fn DimensionOfVersion(version: u32, is_micro: bool) -> (d: u32)
        requires
            dimension_offset(is_micro) + dimension_step(is_micro) * version <= u32::MAX,
        ensures
            d == dimension_offset(is_micro) + dimension_step(is_micro) * version,
    {
        Self::DimensionOffset(is_micro) + Self::DimensionStep(is_micro) * version
    }

    pub fn DimensionOffset(is_micro: bool) -> (o: u32)
        ensures o == dimension_offset(is_micro),
    {
        match is_micro {
            true => 9,
            false => 17,
        }
    }

    pub fn DimensionStep(is_micro: bool) -> (s: u32)
        ensures s == dimension_step(is_micro),
    {
        match is_micro {
            true => 2,
            false => 4,
        }
    }
}

} // verus!
