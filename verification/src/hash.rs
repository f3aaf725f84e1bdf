//! Field-element digests: the values that label the leaves and inner nodes of
//! the note commitment tree, and that name a tree by its root.

use vstd::arithmetic::power::pow;
use vstd::prelude::*;

verus! {

/// The little-endian encoding of the order of the scalar field of BLS12-381,
/// `0x73eda753299d7d483339d80809a1d80553bda402fffe5bfeffffffff00000001`.
pub open spec fn modulus_bytes() -> Seq<u8> {
    seq![
        0x01u8, 0x00u8, 0x00u8, 0x00u8, 0xffu8, 0xffu8, 0xffu8, 0xffu8,
        0xfeu8, 0x5bu8, 0xfeu8, 0xffu8, 0x02u8, 0xa4u8, 0xbdu8, 0x53u8,
        0x05u8, 0xd8u8, 0xa1u8, 0x09u8, 0x08u8, 0xd8u8, 0x39u8, 0x33u8,
        0x48u8, 0x7du8, 0x9du8, 0x29u8, 0x53u8, 0xa7u8, 0xedu8, 0x73u8,
    ]
}

/// The number that `b` encodes, least significant byte first.
pub open spec fn le_value(b: Seq<u8>) -> int
    decreases b.len(),
{
    if b.len() == 0 {
        0
    } else {
        le_value(b.drop_last()) + b.last() as int * pow(256, (b.len() - 1) as nat)
    }
}

/// A digest is canonical when it is the reduced encoding of a field element:
/// 32 bytes whose little-endian value is below the field modulus.
pub open spec fn is_canonical(b: Seq<u8>) -> bool {
    b.len() == 32 && le_value(b) < le_value(modulus_bytes())
}

/// The label of a leaf that holds no commitment: the field element one.
pub open spec fn empty_leaf() -> Seq<u8> {
    Seq::new(32, |i: int| if i == 0 { 1u8 } else { 0u8 })
}

/// The label of the parent of two nodes at height `level`, as computed by the
/// Sapling Merkle hash (a Pedersen hash personalised by the height).
pub uninterp spec fn merkle_hash_spec(level: nat, lhs: Seq<u8>, rhs: Seq<u8>) -> Seq<u8>;

/// Hashes two sibling labels at height `level` into the label of their parent.
///
/// Calls `sapling_crypto::merkle_hash`. That function is deterministic in its
/// three arguments, so its result is named by [`merkle_hash_spec`]; it returns
/// the `to_repr` encoding of a field element, which is always reduced. It
/// panics for heights of 63 and above, which the precondition excludes.
#[verifier::external_body]
fn merkle_hash(level: usize, lhs: &[u8; 32], rhs: &[u8; 32]) -> (out: [u8; 32])
    requires
        level < 63,
    ensures
        out@ == merkle_hash_spec(level as nat, lhs@, rhs@),
        is_canonical(out@),
{
    sapling_crypto::merkle_hash(level, lhs, rhs)
}

/// An encoding of `n` bytes encodes a number below `256^n`.
proof fn lemma_le_value_bound(b: Seq<u8>)
    ensures
        0 <= le_value(b) < pow(256, b.len()),
    decreases b.len(),
{
    if b.len() == 0 {
        vstd::arithmetic::power::lemma_pow0(256);
    } else {
        let n: nat = (b.len() - 1) as nat;
        lemma_le_value_bound(b.drop_last());
        vstd::arithmetic::power::lemma_pow_positive(256, n);
        vstd::arithmetic::power::lemma_pow_adds(256, n, 1);
        vstd::arithmetic::power::lemma_pow1(256);
        let p: int = pow(256, n);
        let top: int = b.last() as int;
        assert(0 <= top * p <= 255 * p) by (nonlinear_arith)
            requires
                0 <= top <= 255,
                p > 0,
        ;
        assert(pow(256, b.len()) == p * 256);
    }
}

/// Two encodings of one length that agree from byte `i` upwards compare as
/// their first `i` bytes do.
proof fn lemma_le_value_common_suffix(a: Seq<u8>, b: Seq<u8>, i: int)
    requires
        a.len() == b.len(),
        0 <= i <= a.len(),
        forall|j: int| i <= j < a.len() ==> a[j] == b[j],
    ensures
        le_value(a) - le_value(a.take(i)) == le_value(b) - le_value(b.take(i)),
    decreases a.len() - i,
{
    if i == a.len() {
        assert(a.take(i) =~= a);
        assert(b.take(i) =~= b);
    } else {
        lemma_le_value_common_suffix(a, b, i + 1);
        let x: Seq<u8> = a.take(i + 1);
        let y: Seq<u8> = b.take(i + 1);
        assert(x.drop_last() =~= a.take(i));
        assert(y.drop_last() =~= b.take(i));
        assert(x.last() == a[i] && y.last() == b[i]);
        assert(le_value(x) == le_value(a.take(i)) + a[i] as int * pow(256, i as nat));
        assert(le_value(y) == le_value(b.take(i)) + b[i] as int * pow(256, i as nat));
    }
}

/// The byte at index `i` decides the order of two prefixes of length `i + 1`
/// when it differs.
proof fn lemma_le_value_top_byte(a: Seq<u8>, b: Seq<u8>, i: int)
    requires
        0 <= i < a.len(),
        0 <= i < b.len(),
        a[i] < b[i],
    ensures
        le_value(a.take(i + 1)) < le_value(b.take(i + 1)),
{
    let p: int = pow(256, i as nat);
    assert(a.take(i + 1).drop_last() =~= a.take(i));
    assert(b.take(i + 1).drop_last() =~= b.take(i));
    lemma_le_value_bound(a.take(i));
    lemma_le_value_bound(b.take(i));
    vstd::arithmetic::power::lemma_pow_positive(256, i as nat);
    let x: int = a[i] as int;
    let y: int = b[i] as int;
    assert(x * p + p <= y * p) by (nonlinear_arith)
        requires
            x + 1 <= y,
            p >= 0,
    ;
}

/// Whether the number that `bytes` encodes, least significant byte first, is
/// below the number that `bound` encodes.
pub fn is_below(bytes: &[u8; 32], bound: &[u8; 32]) -> (out: bool)
    ensures
        out == (le_value(bytes@) < le_value(bound@)),
{
    let mut i: usize = 32;
    while i > 0
        invariant
            i <= 32,
            forall|j: int| i <= j < 32 ==> bytes@[j] == bound@[j],
        decreases i,
    {
        i = i - 1;
        if bytes[i] != bound[i] {
            proof {
                let k: int = i as int;
                lemma_le_value_common_suffix(bytes@, bound@, k + 1);
                if bytes@[k] < bound@[k] {
                    lemma_le_value_top_byte(bytes@, bound@, k);
                } else {
                    lemma_le_value_top_byte(bound@, bytes@, k);
                }
            }
            return bytes[i] < bound[i];
        }
    }
    proof {
        assert(bytes@ =~= bound@);
    }
    false
}

/// A canonical 32-byte digest: a reduced element of the scalar field.
///
/// Two digests are equal exactly when their encodings are, and they hash by
/// their encoding, so equal field elements always compare and hash alike.
#[derive(Clone, Copy, Debug, Hash)]
pub struct FrHash {
    bytes: [u8; 32],
}

impl View for FrHash {
    type V = Seq<u8>;

    closed spec fn view(&self) -> Seq<u8> {
        self.bytes@
    }
}

impl FrHash {
    #[verifier::type_invariant]
    spec fn canonical(self) -> bool {
        is_canonical(self.bytes@)
    }

    /// The digest with the given encoding, or `None` when the bytes are not the
    /// reduced encoding of a field element.
    pub fn from_bytes(bytes: [u8; 32]) -> (out: Option<FrHash>)
        ensures
            out.is_some() == is_canonical(bytes@),
            out matches Some(h) ==> h@ == bytes@,
    {
        let modulus: [u8; 32] = [
            0x01, 0x00, 0x00, 0x00, 0xff, 0xff, 0xff, 0xff,
            0xfe, 0x5b, 0xfe, 0xff, 0x02, 0xa4, 0xbd, 0x53,
            0x05, 0xd8, 0xa1, 0x09, 0x08, 0xd8, 0x39, 0x33,
            0x48, 0x7d, 0x9d, 0x29, 0x53, 0xa7, 0xed, 0x73,
        ];
        assert(modulus@ =~= modulus_bytes());
        if is_below(&bytes, &modulus) {
            Some(FrHash { bytes })
        } else {
            None
        }
    }

    /// The 32-byte encoding of this digest.
    pub fn to_bytes(&self) -> (out: [u8; 32])
        ensures
            out@ == self@,
            is_canonical(out@),
    {
        proof {
            use_type_invariant(self);
        }
        self.bytes
    }

    /// The label of a leaf that holds no commitment.
    pub fn empty_leaf() -> (out: FrHash)
        ensures
            out@ == empty_leaf(),
    {
        let bytes: [u8; 32] = [
            1, 0, 0, 0, 0, 0, 0, 0, 0, 0, 0, 0, 0, 0, 0, 0,
            0, 0, 0, 0, 0, 0, 0, 0, 0, 0, 0, 0, 0, 0, 0, 0,
        ];
        proof {
            assert(bytes@ =~= empty_leaf());
            lemma_le_value_top_byte(bytes@, modulus_bytes(), 31);
            assert(bytes@.take(32) =~= bytes@);
            assert(modulus_bytes().take(32) =~= modulus_bytes());
        }
        FrHash { bytes }
    }

    /// The label of the parent of `lhs` and `rhs`, two siblings at height
    /// `level` of the tree.
    pub fn combine(level: usize, lhs: &FrHash, rhs: &FrHash) -> (out: FrHash)
        requires
            level < 63,
        ensures
            out@ == merkle_hash_spec(level as nat, lhs@, rhs@),
    {
        let bytes: [u8; 32] = merkle_hash(level, &lhs.bytes, &rhs.bytes);
        FrHash { bytes }
    }
}

impl PartialEq for FrHash {
    fn eq(&self, other: &FrHash) -> (r: bool) {
        bytes_equal(&self.bytes, &other.bytes)
    }
}

impl Eq for FrHash {

}

impl vstd::std_specs::cmp::PartialEqSpecImpl for FrHash {
    open spec fn obeys_eq_spec() -> bool {
        true
    }

    open spec fn eq_spec(&self, other: &FrHash) -> bool {
        self@ == other@
    }
}

/// Whether two 32-byte strings hold the same bytes.
pub fn bytes_equal(a: &[u8; 32], b: &[u8; 32]) -> (r: bool)
    ensures
        r == (a@ == b@),
{
    let mut i: usize = 0;
    while i < 32
        invariant
            i <= 32,
            forall|j: int| 0 <= j < i ==> a@[j] == b@[j],
        decreases 32 - i,
    {
        if a[i] != b[i] {
            return false;
        }
        i = i + 1;
    }
    assert(a@ =~= b@);
    true
}

/// A 256-bit value with no structure of its own: a nullifier, or the hash of a
/// block.
#[derive(Clone, Copy, Debug, Hash)]
pub struct Uint256 {
    pub bytes: [u8; 32],
}

impl View for Uint256 {
    type V = Seq<u8>;

    open spec fn view(&self) -> Seq<u8> {
        self.bytes@
    }
}

impl Uint256 {
    /// The value with these bytes.
    pub fn new(bytes: [u8; 32]) -> (out: Uint256)
        ensures
            out@ == bytes@,
    {
        Uint256 { bytes }
    }

    /// The value whose bytes are all zero.
    pub fn zero() -> (out: Uint256)
        ensures
            out@ == Seq::new(32, |i: int| 0u8),
    {
        let bytes: [u8; 32] = [
            0, 0, 0, 0, 0, 0, 0, 0, 0, 0, 0, 0, 0, 0, 0, 0,
            0, 0, 0, 0, 0, 0, 0, 0, 0, 0, 0, 0, 0, 0, 0, 0,
        ];
        assert(bytes@ =~= Seq::new(32, |i: int| 0u8));
        Uint256 { bytes }
    }
}

impl PartialEq for Uint256 {
    fn eq(&self, other: &Uint256) -> (r: bool) {
        bytes_equal(&self.bytes, &other.bytes)
    }
}

impl Eq for Uint256 {

}

impl vstd::std_specs::cmp::PartialEqSpecImpl for Uint256 {
    open spec fn obeys_eq_spec() -> bool {
        true
    }

    open spec fn eq_spec(&self, other: &Uint256) -> bool {
        self@ == other@
    }
}

} // verus!
