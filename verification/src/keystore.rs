//! The spending keys of the wallet and the payment addresses that belong to
//! them, kept as their encodings.

use crate::hash::{is_below, le_value};
use vstd::prelude::*;

verus! {

/// Length in bytes of an encoded extended spending key.
pub const SPENDING_KEY_LENGTH: usize = 169;

/// Length in bytes of an encoded payment address: a diversifier of 11 bytes
/// and a key of 32.
pub const PAYMENT_ADDRESS_LENGTH: usize = 43;

/// The encoding of the master extended spending key that belongs to a seed,
/// where the seed gives a valid key.
pub uninterp spec fn master_key_spec(seed: Seq<u8>) -> Option<Seq<u8>>;

/// The encoding of the default payment address of the extended spending key
/// with the encoding `key`, where `key` is the encoding of a valid key.
pub uninterp spec fn default_address_spec(key: Seq<u8>) -> Option<Seq<u8>>;

/// The master extended spending key of `seed`, encoded.
///
/// Calls `ExtendedSpendingKey::master`, which derives the key from the seed
/// alone and gives none where the derived key is invalid, and encodes the key
/// with `to_bytes`.
#[verifier::external_body]
fn master_spending_key(seed: &[u8; 32]) -> (out: Option<[u8; 169]>)
    ensures
        match out {
            Some(key) => master_key_spec(seed@) == Some(key@),
            None => master_key_spec(seed@).is_none(),
        },
{
    match sapling_crypto::zip32::ExtendedSpendingKey::master(seed) {
        Some(xsk) => Some(xsk.to_bytes()),
        None => None,
    }
}

/// The little-endian encoding of the order of the scalar field of Jubjub,
/// `0x0e7db4ea6533afa906673b0101343b00a6682093ccc81082d0970e5ed6f72cb7`.
pub open spec fn scalar_order_bytes() -> Seq<u8> {
    seq![
        0xb7u8, 0x2cu8, 0xf7u8, 0xd6u8, 0x5eu8, 0x0eu8, 0x97u8, 0xd0u8,
        0x82u8, 0x10u8, 0xc8u8, 0xccu8, 0x93u8, 0x20u8, 0x68u8, 0xa6u8,
        0x00u8, 0x3bu8, 0x34u8, 0x01u8, 0x01u8, 0x3bu8, 0x67u8, 0x06u8,
        0xa9u8, 0xafu8, 0x33u8, 0x65u8, 0xeau8, 0xb4u8, 0x7du8, 0x0eu8,
    ]
}

/// The part of an encoded extended spending key that holds the spend
/// authorising key.
pub open spec fn authorising_part(key: Seq<u8>) -> Seq<u8> {
    key.subrange(41, 73)
}

/// Whether the spend authorising key in the encoded extended spending key
/// `key` is the reduced encoding of a scalar of Jubjub.
pub open spec fn has_reduced_scalar(key: Seq<u8>) -> bool {
    key.len() == 169 && le_value(authorising_part(key)) < le_value(scalar_order_bytes())
}

/// The default payment address of the extended spending key `key`, encoded.
///
/// Decodes the key with `ExtendedSpendingKey::from_bytes`, which fails for
/// an invalid key, calls `default_address`, which finds the address with the
/// lowest valid diversifier index of that key, and encodes it with `to_bytes`.
/// The decoding panics where the spend authorising key is not the reduced
/// encoding of a scalar, which the precondition excludes.
#[verifier::external_body]
fn default_address(key: &[u8; 169]) -> (out: Option<[u8; 43]>)
    requires
        has_reduced_scalar(key@),
    ensures
        match out {
            Some(address) => default_address_spec(key@) == Some(address@),
            None => default_address_spec(key@).is_none(),
        },
{
    match sapling_crypto::zip32::ExtendedSpendingKey::from_bytes(key) {
        Ok(xsk) => Some(xsk.default_address().1.to_bytes()),
        Err(_) => None,
    }
}

/// Fresh random bytes for a seed.
///
/// Calls `rand::random`. The bytes differ from call to call, so nothing is
/// claimed of them.
#[verifier::external_body]
pub(crate) fn random_seed() -> [u8; 32] {
    rand::random::<[u8; 32]>()
}

/// The default payment address of the extended spending key with the
/// encoding `key`, where `key` is the encoding of a valid key.
pub open spec fn address_of_key_spec(key: Seq<u8>) -> Option<Seq<u8>> {
    if has_reduced_scalar(key) {
        default_address_spec(key)
    } else {
        None
    }
}

/// The default payment address of the extended spending key `key`, encoded;
/// `None` where `key` is not the encoding of a valid key.
pub fn address_of_key(key: &[u8; 169]) -> (out: Option<[u8; 43]>)
    ensures
        match out {
            Some(address) => address_of_key_spec(key@) == Some(address@),
            None => address_of_key_spec(key@).is_none(),
        },
{
    let order: [u8; 32] = [
        0xb7, 0x2c, 0xf7, 0xd6, 0x5e, 0x0e, 0x97, 0xd0,
        0x82, 0x10, 0xc8, 0xcc, 0x93, 0x20, 0x68, 0xa6,
        0x00, 0x3b, 0x34, 0x01, 0x01, 0x3b, 0x67, 0x06,
        0xa9, 0xaf, 0x33, 0x65, 0xea, 0xb4, 0x7d, 0x0e,
    ];
    assert(order@ =~= scalar_order_bytes());
    let mut part: [u8; 32] = order;
    let mut i: usize = 0;
    while i < 32
        invariant
            i <= 32,
            forall|j: int| 0 <= j < i ==> part@[j] == key@[41 + j],
        decreases 32 - i,
    {
        part[i] = key[41 + i];
        i = i + 1;
    }
    assert(part@ =~= authorising_part(key@));
    if is_below(&part, &order) {
        default_address(key)
    } else {
        None
    }
}

/// The key that belongs to `seed` and its default address, where the seed
/// gives a valid key.
pub open spec fn key_and_address_spec(seed: Seq<u8>) -> Option<(Seq<u8>, Seq<u8>)> {
    match master_key_spec(seed) {
        None => None,
        Some(key) => match address_of_key_spec(key) {
            None => None,
            Some(address) => Some((key, address)),
        },
    }
}

/// The master spending key of `seed` and its default payment address.
pub fn key_and_address(seed: &[u8; 32]) -> (out: Option<([u8; 169], [u8; 43])>)
    ensures
        match out {
            Some((key, address)) => key_and_address_spec(seed@) == Some((key@, address@)),
            None => key_and_address_spec(seed@).is_none(),
        },
{
    match master_spending_key(seed) {
        None => None,
        Some(key) => match address_of_key(&key) {
            None => None,
            Some(address) => Some((key, address)),
        },
    }
}

/// Whether two payment addresses have the same encoding.
pub fn same_address(a: &[u8; 43], b: &[u8; 43]) -> (out: bool)
    ensures
        out == (a@ == b@),
{
    let mut i: usize = 0;
    while i < 43
        invariant
            i <= 43,
            forall|j: int| 0 <= j < i ==> a@[j] == b@[j],
        decreases 43 - i,
    {
        if a[i] != b[i] {
            return false;
        }
        i = i + 1;
    }
    assert(a@ =~= b@);
    true
}

/// The addresses `addresses`, and `address` after them if it is not among them.
pub open spec fn with_address(addresses: Seq<Seq<u8>>, address: Seq<u8>) -> Seq<Seq<u8>> {
    if addresses.contains(address) {
        addresses
    } else {
        addresses.push(address)
    }
}

/// The spending keys of a wallet, each with its payment address.
pub struct KeyStore {
    keys: Vec<[u8; 169]>,
    addresses: Vec<[u8; 43]>,
}

impl KeyStore {
    /// One address per key, and no address twice.
    pub closed spec fn wf(&self) -> bool {
        &&& self.keys@.len() == self.addresses@.len()
        &&& forall|i: int, j: int|
            0 <= i < self.addresses@.len() && 0 <= j < self.addresses@.len() && i != j ==> (
            #[trigger] self.addresses@[i])@ != (#[trigger] self.addresses@[j])@
    }

    /// The addresses of the store, in the order in which they were added.
    pub closed spec fn addresses(&self) -> Seq<Seq<u8>> {
        Seq::new(self.addresses@.len(), |i: int| self.addresses@[i]@)
    }

    /// The keys of the store, each at the index of its address.
    pub closed spec fn keys(&self) -> Seq<Seq<u8>> {
        Seq::new(self.keys@.len(), |i: int| self.keys@[i]@)
    }

    /// The key that the store holds for `address`, if it holds the address.
    pub closed spec fn key_of(&self, address: Seq<u8>) -> Option<Seq<u8>> {
        if exists|i: int| 0 <= i < self.addresses@.len() && self.addresses@[i]@ == address {
            Some(
                self.keys@[choose|i: int|
                    0 <= i < self.addresses@.len() && self.addresses@[i]@ == address]@,
            )
        } else {
            None
        }
    }

    /// The store holds a key for exactly the addresses that it lists.
    pub proof fn lemma_key_of(&self, address: Seq<u8>)
        ensures
            self.key_of(address).is_some() == self.addresses().contains(address),
    {
        if self.addresses().contains(address) {
            let j: int = choose|j: int|
                0 <= j < self.addresses().len() && self.addresses()[j] == address;
            assert(self.addresses@[j]@ == address);
        }
        if self.key_of(address).is_some() {
            let i: int = choose|i: int|
                0 <= i < self.addresses@.len() && self.addresses@[i]@ == address;
            assert(self.addresses()[i] == address);
        }
    }

    /// A store without keys.
    pub fn new() -> (out: KeyStore)
        ensures
            out.wf(),
            out.addresses() == Seq::<Seq<u8>>::empty(),
            out.keys() == Seq::<Seq<u8>>::empty(),
    {
        let out: KeyStore = KeyStore { keys: Vec::new(), addresses: Vec::new() };
        assert(out.addresses() =~= Seq::<Seq<u8>>::empty());
        assert(out.keys() =~= Seq::<Seq<u8>>::empty());
        out
    }

    /// Adds `key` with its `address`. Where the store holds the address, the
    /// key of that address is replaced. Returns whether the address is new.
    pub fn add_spending_key(&mut self, key: [u8; 169], address: [u8; 43]) -> (out: bool)
        requires
            old(self).wf(),
        ensures
            final(self).wf(),
            out == !old(self).addresses().contains(address@),
            final(self).addresses() == with_address(old(self).addresses(), address@),
            final(self).key_of(address@) == Some(key@),
            forall|other: Seq<u8>|
                other != address@ ==> #[trigger] final(self).key_of(other) == old(self).key_of(
                    other,
                ),
    {
        let mut i: usize = 0;
        while i < self.addresses.len()
            invariant
                self.wf(),
                *self == *old(self),
                i <= self.addresses@.len(),
                forall|j: int| 0 <= j < i ==> self.addresses@[j]@ != address@,
            decreases self.addresses@.len() - i,
        {
            if same_address(&self.addresses[i], &address) {
                self.keys.set(i, key);
                proof {
                    assert(old(self).addresses()[i as int] == address@);
                    assert(self.addresses() =~= old(self).addresses());
                    assert(self.addresses@[i as int]@ == address@);
                    assert forall|other: Seq<u8>| other != address@ implies #[trigger] self.key_of(
                        other,
                    ) == old(self).key_of(other) by {
                        if self.key_of(other).is_some() {
                            let j: int = choose|j: int|
                                0 <= j < self.addresses@.len() && self.addresses@[j]@ == other;
                            assert(j != i);
                        }
                    }
                }
                return false;
            }
            i = i + 1;
        }
        self.keys.push(key);
        self.addresses.push(address);
        proof {
            let n: int = old(self).addresses@.len() as int;
            assert(self.addresses() =~= old(self).addresses().push(address@));
            if old(self).addresses().contains(address@) {
                let j: int = choose|j: int|
                    0 <= j < old(self).addresses().len() && old(self).addresses()[j] == address@;
                assert(old(self).addresses@[j]@ == address@);
            }
            assert(self.addresses@[n]@ == address@);
            assert forall|other: Seq<u8>| other != address@ implies #[trigger] self.key_of(other)
                == old(self).key_of(other) by {
                if self.key_of(other).is_some() {
                    let j: int = choose|j: int|
                        0 <= j < self.addresses@.len() && self.addresses@[j]@ == other;
                    assert(j < n);
                    assert(old(self).addresses@[j]@ == other);
                    let j2: int = choose|j: int|
                        0 <= j < old(self).addresses@.len() && old(self).addresses@[j]@ == other;
                    assert(self.addresses@[j2]@ == other);
                }
                if old(self).key_of(other).is_some() {
                    let j: int = choose|j: int|
                        0 <= j < old(self).addresses@.len() && old(self).addresses@[j]@ == other;
                    assert(self.addresses@[j]@ == other);
                }
            }
        }
        true
    }

    /// The payment addresses of the store, in the order in which they were
    /// added.
    pub fn get_sapling_payment_addresses(&self) -> (out: Vec<[u8; 43]>)
        ensures
            out@.len() == self.addresses().len(),
            forall|i: int| 0 <= i < out@.len() ==> (#[trigger] out@[i])@ == self.addresses()[i],
    {
        let mut out: Vec<[u8; 43]> = Vec::new();
        let mut i: usize = 0;
        while i < self.addresses.len()
            invariant
                i <= self.addresses@.len(),
                out@.len() == i,
                forall|j: int| 0 <= j < i ==> (#[trigger] out@[j])@ == self.addresses()[j],
            decreases self.addresses@.len() - i,
        {
            out.push(self.addresses[i]);
            i = i + 1;
        }
        out
    }
}

} // verus!
