//! Record identity: the storage key of a record and its virtual-node tag.

use vstd::arithmetic::div_mod::{lemma_mod_breakdown, lemma_small_mod};
use vstd::prelude::*;

verus! {

/// The `n` least significant base-256 digits of `x`, lowest first.
pub open spec fn le_digits(x: nat, n: nat) -> Seq<u8>
    decreases n,
{
    if n == 0 {
        Seq::empty()
    } else {
        seq![(x % 256) as u8] + le_digits(x / 256, (n - 1) as nat)
    }
}

/// The eight little-endian bytes of `x`.
pub open spec fn le_bytes(x: u64) -> Seq<u8> {
    le_digits(x as nat, 8)
}

/// `256` raised to `n`.
pub open spec fn pow256(n: nat) -> nat
    decreases n,
{
    if n == 0 {
        1
    } else {
        256 * pow256((n - 1) as nat)
    }
}

/// The unsigned integer whose little-endian bytes are `b`.
pub open spec fn le_value(b: Seq<u8>) -> nat
    decreases b.len(),
{
    if b.len() == 0 {
        0
    } else {
        b[0] as nat + 256 * le_value(b.drop_first())
    }
}

proof fn lemma_pow256_positive(n: nat)
    ensures
        pow256(n) > 0,
    decreases n,
{
    if n > 0 {
        lemma_pow256_positive((n - 1) as nat);
    }
}

proof fn lemma_le_digits_value(x: nat, n: nat)
    ensures
        le_digits(x, n).len() == n,
        le_value(le_digits(x, n)) == x % pow256(n),
    decreases n,
{
    if n == 0 {
        assert(x % 1 == 0) by (nonlinear_arith);
    } else {
        let m = (n - 1) as nat;
        lemma_le_digits_value(x / 256, m);
        lemma_pow256_positive(m);
        assert(le_digits(x, n).drop_first() =~= le_digits(x / 256, m));
        lemma_mod_breakdown(x as int, 256, pow256(m) as int);
    }
}

/// Decoding a storage key gives back the id it was made from.
pub proof fn lemma_storage_key_round_trip(id: u64)
    ensures
        le_bytes(id).len() == 8,
        le_value(le_bytes(id).subrange(0, 8)) == id,
{
    lemma_le_digits_value(id as nat, 8);
    assert(le_bytes(id).subrange(0, 8) =~= le_bytes(id));
    reveal_with_fuel(pow256, 9);
    assert(pow256(8) == 0x1_0000_0000_0000_0000);
    lemma_small_mod(id as nat, pow256(8));
}

/// What the MD5 digest of `b` is.
pub uninterp spec fn md5_of(b: Seq<u8>) -> Seq<u8>;

/// Relies on `md5::compute`: the sixteen-byte digest, a function of the input bytes.
#[verifier::external_body]
fn md5_digest(b: &Vec<u8>) -> (r: [u8; 16])
    ensures
        r@ == md5_of(b@),
{
    md5::compute(b).into()
}

/// Relies on `bincode::serialize` of a `u64`: the default options write it as
/// eight fixed-width little-endian bytes, and writing into a `Vec` cannot fail.
#[verifier::external_body]
fn bincode_encode_u64(x: u64) -> (r: Vec<u8>)
    ensures
        r@ == le_bytes(x),
{
    bincode::serialize(&x).unwrap()
}

/// Relies on `bincode::deserialize` of a `u64`: the default options read eight
/// little-endian bytes, fail when fewer are there and allow trailing bytes.
#[verifier::external_body]
fn bincode_decode_u64(b: &Vec<u8>) -> (r: Option<u64>)
    ensures
        r is Some <==> b@.len() >= 8,
        r is Some ==> r->0 as nat == le_value(b@.subrange(0, 8)),
{
    bincode::deserialize::<u64>(b).ok()
}

/// The tag of the virtual node that owns record `id`: the first two bytes of the
/// MD5 digest of its storage key, read little-endian.
pub open spec fn virtual_node_of(id: u64) -> u16 {
    let d = md5_of(le_bytes(id));
    (d[0] as nat + 256 * (d[1] as nat)) as u16
}

/// A record, identified by its primary key.
#[derive(Clone, Copy, Debug, Hash, PartialEq, Eq, Structural)]
pub struct Record {
    pub id: u64,
}

impl Record {
    /// The storage key of this record: its id as eight little-endian bytes.
    pub open spec fn spec_storage_key(self) -> Seq<u8> {
        le_bytes(self.id)
    }

    /// The key under which this record's value is stored: the first two bytes of
    /// its virtual-node digest followed by its storage key.
    pub open spec fn spec_fully_qualified_key(self) -> Seq<u8> {
        md5_of(le_bytes(self.id)).subrange(0, 2) + le_bytes(self.id)
    }

    pub fn storage_key(&self) -> (r: Vec<u8>)
        ensures
            r@ == self.spec_storage_key(),
    {
        bincode_encode_u64(self.id)
    }

    /// Reads a record back from a storage key; `None` when fewer than eight bytes
    /// are given.
    pub fn from_storage_key(b: &Vec<u8>) -> (r: Option<Record>)
        ensures
            r is Some <==> b@.len() >= 8,
            r is Some ==> r->0.id as nat == le_value(b@.subrange(0, 8)),
    {
        match bincode_decode_u64(b) {
            Some(id) => Some(Record { id }),
            None => None,
        }
    }

    pub fn virtual_node(&self) -> (r: u16)
        ensures
            r == virtual_node_of(self.id),
    {
        let key = bincode_encode_u64(self.id);
        let d = md5_digest(&key);
        assert(d@.len() == 16);
        let lo = d[0] as u16;
        let hi = d[1] as u16;
        lo + 256 * hi
    }

    /// The key of this record in the store. Its last eight bytes are the storage
    /// key, so distinct ids give distinct keys.
    pub fn fully_qualified_id_as_bytes(&self) -> (r: Vec<u8>)
        ensures
            r@ == self.spec_fully_qualified_key(),
            r@.len() == 10,
            r@.subrange(2, 10) == self.spec_storage_key(),
            le_value(r@.subrange(2, 10)) == self.id,
            r@[0] as nat + 256 * (r@[1] as nat) == virtual_node_of(self.id) as nat,
    {
        proof {
            lemma_storage_key_round_trip(self.id);
        }
        let mut key = bincode_encode_u64(self.id);
        let d = md5_digest(&key);
        let mut r: Vec<u8> = Vec::new();
        r.push(d[0]);
        r.push(d[1]);
        r.append(&mut key);
        assert(r@ =~= self.spec_fully_qualified_key());
        assert(r@.subrange(2, 10) =~= le_bytes(self.id));
        assert(le_bytes(self.id).subrange(0, 8) =~= le_bytes(self.id));
        r
    }
}

} // verus!
