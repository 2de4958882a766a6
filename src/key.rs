//! Record keys and their digests.

use crypto::digest::Digest;
use vstd::prelude::*;
use vstd::utf8::encode_utf8;

use crate::errors::{Error, ErrorKind, Result};
use crate::partition::PARTITIONS;
use crate::particle::i64_bits;
use crate::value::{Value, ValueView};
use crate::wire::{be_bytes, write_be_uint};

verus! {

/// The RIPEMD-160 digest of `data`.
pub uninterp spec fn ripemd160_of(data: Seq<u8>) -> Seq<u8>;

/// Relies on rust-crypto's `Ripemd160` (`input` once, then `result`): the
/// 20-byte RIPEMD-160 digest of `data`.
#[verifier::external_body]
fn ripemd160(data: &[u8]) -> (r: [u8; 20])
    ensures
        r@ == ripemd160_of(data@),
{
    let mut hasher = crypto::ripemd160::Ripemd160::new();
    hasher.input(data);
    let mut out = [0u8; 20];
    hasher.result(&mut out);
    out
}

/// The bytes of a user key that go into its digest, after its particle
/// type: `None` for a kind of value that cannot be a key.
pub open spec fn key_bytes(v: ValueView) -> Option<(u8, Seq<u8>)> {
    match v {
        ValueView::Int(i) => Some((1u8, be_bytes(i64_bits(i), 8))),
        ValueView::Str(s) => Some((3u8, encode_utf8(s))),
        ValueView::Blob(b) => Some((4u8, b)),
        _ => None,
    }
}

/// What is hashed into the digest of a key with set `set` and user key
/// `v`: the set name, the key's particle type, the key's bytes.
pub open spec fn digest_input(set: Seq<char>, v: ValueView) -> Option<Seq<u8>> {
    match key_bytes(v) {
        Some((t, b)) => Some(encode_utf8(set) + seq![t] + b),
        None => None,
    }
}

/// The partition that a digest falls in: the low twelve bits of its first
/// four bytes read little-endian.
pub open spec fn partition_of(digest: Seq<u8>) -> int {
    (digest[0] as int + 256 * (digest[1] as int % 16)) % (PARTITIONS as int)
}

/// A record's address: namespace, set, optional user key, and the digest
/// that the server addresses it by.
#[derive(Debug)]
pub struct Key {
    pub namespace: String,
    pub set_name: String,
    pub user_key: Option<Value>,
    pub digest: [u8; 20],
}

impl Key {
    /// Whether the digest is the one computed from the set and user key.
    pub open spec fn wf(&self) -> bool {
        match self.user_key {
            Some(v) => digest_input(self.set_name@, v@) matches Some(d) && self.digest@ == ripemd160_of(d),
            None => false,
        }
    }

    /// A key for `user_key` in `set_name` of `namespace`, with its digest.
    ///
    /// Fails with `InvalidArgument` for a user key that is not an integer,
    /// a string or a blob.
    pub fn new(namespace: String, set_name: String, user_key: Value) -> (r: Result<Key>)
        ensures
            digest_input(set_name@, user_key@) is Some <==> r is Ok,
            r matches Ok(k) ==> k.wf() && k.namespace@ == namespace@ && k.set_name@ == set_name@
                && k.user_key == Some(user_key),
            r matches Err(e) ==> e.0 is InvalidArgument,
    {
        let digest = compute_digest(&set_name, &user_key)?;
        Ok(Key { namespace, set_name, user_key: Some(user_key), digest })
    }

    /// The partition this key falls in.
    pub fn partition_id(&self) -> (r: usize)
        ensures
            r == partition_of(self.digest@),
            r < PARTITIONS,
    {
        ((self.digest[0] as usize) + 256 * ((self.digest[1] as usize) % 16)) % PARTITIONS
    }
}

/// The digest of a key with set `set_name` and user key `user_key`.
pub fn compute_digest(set_name: &String, user_key: &Value) -> (r: Result<[u8; 20]>)
    ensures
        match digest_input(set_name@, user_key@) {
            Some(d) => r matches Ok(x) && x@ == ripemd160_of(d),
            None => r matches Err(e) && e.0 is InvalidArgument,
        },
{
    proof {
        reveal_with_fuel(<Value as View>::view, 2);
    }
    let mut data: Vec<u8> = Vec::new();
    let s = set_name.as_str().as_bytes();
    let mut i: usize = 0;
    while i < s.len()
        invariant
            i <= s@.len(),
            data@ == s@.subrange(0, i as int),
        decreases s@.len() - i,
    {
        data.push(s[i]);
        i = i + 1;
        assert(s@.subrange(0, i as int) =~= s@.subrange(0, i - 1).push(s@[i - 1]));
    }
    assert(s@.subrange(0, i as int) =~= s@);
    let ghost prefix = data@;
    assert(prefix == encode_utf8(set_name@));
    match user_key {
        Value::Int(v) => {
            data.push(1);
            let bits: u64 = if *v >= 0 {
                *v as u64
            } else {
                0xffff_ffff_ffff_ffffu64 - ((-(*v + 1)) as u64)
            };
            write_be_uint(&mut data, bits, 8);
            assert(data@ =~= prefix + seq![1u8] + be_bytes(i64_bits(*v), 8));
            assert(digest_input(set_name@, user_key@) == Some(data@));
        },
        Value::String(k) => {
            data.push(3);
            let b = k.as_str().as_bytes();
            let ghost mid = data@;
            let mut j: usize = 0;
            while j < b.len()
                invariant
                    j <= b@.len(),
                    data@ == mid + b@.subrange(0, j as int),
                decreases b@.len() - j,
            {
                data.push(b[j]);
                j = j + 1;
                assert(b@.subrange(0, j as int) =~= b@.subrange(0, j - 1).push(b@[j - 1]));
            }
            assert(b@.subrange(0, j as int) =~= b@);
            assert(data@ =~= prefix + seq![3u8] + b@);
            assert(digest_input(set_name@, user_key@) == Some(data@));
        },
        Value::Blob(b) => {
            data.push(4);
            let ghost mid = data@;
            let mut j: usize = 0;
            while j < b.len()
                invariant
                    j <= b@.len(),
                    data@ == mid + b@.subrange(0, j as int),
                decreases b@.len() - j,
            {
                data.push(b[j]);
                j = j + 1;
                assert(b@.subrange(0, j as int) =~= b@.subrange(0, j - 1).push(b@[j - 1]));
            }
            assert(b@.subrange(0, j as int) =~= b@);
            assert(data@ =~= prefix + seq![4u8] + b@);
            assert(digest_input(set_name@, user_key@) == Some(data@));
        },
        _ => {
            return Err(
                Error::from_kind(ErrorKind::InvalidArgument("Data type is not supported as Key value".to_owned())),
            );
        },
    }
    Ok(ripemd160(data.as_slice()))
}

/// A key's digest is stable: two well-formed keys with the same set name
/// and the same user key have the same digest, whatever their namespaces.
pub proof fn lemma_digest_stable(k1: Key, k2: Key)
    requires
        k1.wf(),
        k2.wf(),
        k1.set_name@ == k2.set_name@,
        k1.user_key matches Some(v1) && k2.user_key matches Some(v2) && v1@ == v2@,
    ensures
        k1.digest@ == k2.digest@,
{
}

} // verus!
