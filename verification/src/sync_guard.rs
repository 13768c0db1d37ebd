//! What an encrypted collection may leave to: a peer that holds the same key.
use vstd::prelude::*;
use vstd::string::*;
use vstd::utf8::encode_utf8;

use sha2::Digest;

use crate::config::HakoConfig;
use crate::document::firelite_doc::names_view;
use crate::engine::access::{encrypted, is_collection_encrypted};
use crate::sorted_map::SortedMap;
use crate::util::decimal::{digit, padded, padded_len, push_padded};

verus! {

/// The SHA-256 digest of bytes.
pub uninterp spec fn sha256_digest(data: Seq<u8>) -> Seq<u8>;

/// `sha2::Sha256::digest`: the SHA-256 digest of the data, which is 32 bytes long.
#[verifier::external_body]
pub(crate) fn sha256(data: &[u8]) -> (r: [u8; 32])
    ensures
        r@ == sha256_digest(data@),
{
    sha2::Sha256::digest(data).into()
}

/// Bytes in hexadecimal, two digits each.
pub open spec fn hex(s: Seq<u8>) -> Seq<char>
    decreases s.len(),
{
    if s.len() == 0 {
        Seq::empty()
    } else {
        hex(s.drop_last()) + padded(s.last() as nat, 16, 2)
    }
}

/// Every byte takes two hexadecimal digits.
pub proof fn hex_len(s: Seq<u8>)
    ensures
        hex(s).len() == 2 * s.len(),
    decreases s.len(),
{
    if s.len() > 0 {
        hex_len(s.drop_last());
        padded_len(s.last() as nat, 16, 2);
    }
}

/// Different bytes have different hexadecimal digits.
proof fn hex_digits_differ(x: u8, y: u8)
    requires
        padded(x as nat, 16, 2) == padded(y as nat, 16, 2),
    ensures
        x == y,
{
    reveal_with_fuel(padded, 3);
    let (a, b) = (x as nat, y as nat);
    let (s, t) = (padded(a, 16, 2), padded(b, 16, 2));
    assert(s =~= seq![digit((a / 16) % 16), digit(a % 16)]);
    assert(t =~= seq![digit((b / 16) % 16), digit(b % 16)]);
    assert(s[0] == t[0] && s[1] == t[1]);
}

/// Different bytes are different in hexadecimal.
pub proof fn hex_injective(a: Seq<u8>, b: Seq<u8>)
    ensures
        hex(a) == hex(b) ==> a == b,
    decreases a.len(),
{
    hex_len(a);
    hex_len(b);
    if hex(a) != hex(b) {
    } else if a.len() > 0 {
        let (x, y) = (a.last(), b.last());
        let (s, t) = (a.drop_last(), b.drop_last());
        hex_len(s);
        hex_len(t);
        padded_len(x as nat, 16, 2);
        padded_len(y as nat, 16, 2);
        assert(hex(a).take(2 * s.len() as int) =~= hex(s));
        assert(hex(b).take(2 * t.len() as int) =~= hex(t));
        assert(hex(a).skip(2 * s.len() as int) =~= padded(x as nat, 16, 2));
        assert(hex(b).skip(2 * t.len() as int) =~= padded(y as nat, 16, 2));
        hex_injective(s, t);
        hex_digits_differ(x, y);
        assert(a =~= s.push(x));
        assert(b =~= t.push(y));
    } else {
        assert(a =~= b);
    }
}

/// The first `n` bytes in hexadecimal.
pub fn hex_text(b: &[u8; 32], n: usize) -> (s: String)
    requires
        n <= 32,
    ensures
        s@ == hex(b@.take(n as int)),
{
    let mut s = String::new();
    let mut i: usize = 0;
    proof {
        assert(b@.take(0) =~= Seq::<u8>::empty());
    }
    while i < n
        invariant
            i <= n <= 32,
            b@.len() == 32,
            s@ == hex(b@.take(i as int)),
        decreases n - i,
    {
        proof {
            assert(b@.take(i + 1).drop_last() =~= b@.take(i as int));
            assert(b@.take(i + 1).last() == b@[i as int]);
        }
        push_padded(&mut s, b[i] as u64, 16, 2);
        i = i + 1;
    }
    s
}

/// What a peer has told of its encryption: the fingerprint of its key, and the collections
/// that it encrypts.
pub struct PeerCaps {
    pub key_fp: [u8; 32],
    pub encrypted_cols: Vec<String>,
}

/// The peers that have told of their encryption.
pub type CapsMap = SortedMap<String, PeerCaps>;

/// No fingerprint.
pub open spec fn no_fingerprint() -> Seq<u8> {
    Seq::new(32, |i: int| 0u8)
}

/// The fingerprint of a key: its SHA-256 digest, and no fingerprint where there is no key.
pub open spec fn fingerprint(key: Option<Seq<char>>) -> Seq<u8> {
    match key {
        Some(k) => sha256_digest(encode_utf8(k)),
        None => no_fingerprint(),
    }
}

/// The fingerprint of a key.
pub fn key_fingerprint(secret: &str) -> (r: [u8; 32])
    ensures
        r@ == fingerprint(Some(secret@)),
{
    sha256(secret.as_bytes())
}

/// The fingerprint of the key of a store, or none.
pub fn local_fingerprint(key: Option<&String>) -> (r: [u8; 32])
    ensures
        r@ == fingerprint(match key {
            Some(k) => Some(k@),
            None => None,
        }),
{
    match key {
        Some(k) => key_fingerprint(k.as_str()),
        None => {
            let r: [u8; 32] = [0u8; 32];
            proof {
                assert(r@ =~= no_fingerprint());
            }
            r
        },
    }
}

/// The view of the key of a store.
pub open spec fn store_key(config: HakoConfig) -> Option<Seq<char>> {
    match config.encryption_key {
        Some(k) => Some(k@),
        None => None,
    }
}

/// The fingerprint of the key of a store.
pub fn config_fingerprint(config: &HakoConfig) -> (r: [u8; 32])
    ensures
        r@ == fingerprint(store_key(*config)),
{
    local_fingerprint(config.encryption_key.as_ref())
}

/// Whether two fingerprints are the same.
pub fn same_fingerprint(a: &[u8; 32], b: &[u8; 32]) -> (r: bool)
    ensures
        r == (a@ == b@),
{
    let mut i: usize = 0;
    while i < 32
        invariant
            i <= 32,
            a@.len() == 32,
            b@.len() == 32,
            forall|k: int| 0 <= k < i ==> a@[k] == b@[k],
        decreases 32 - i,
    {
        if a[i] != b[i] {
            return false;
        }
        i = i + 1;
    }
    proof {
        assert(a@ =~= b@);
    }
    true
}

/// Whether a collection may flow between this store and a peer: one that is not encrypted
/// may, and one that is only if the peer has told of the same key, and there is one.
pub open spec fn flows(enc: bool, local_fp: Seq<u8>, peer_fp: Option<Seq<u8>>) -> bool {
    !enc || local_fp != no_fingerprint() && peer_fp == Some(local_fp)
}

/// What a peer has told of its key.
pub open spec fn told_fp(peer: Option<PeerCaps>) -> Option<Seq<u8>> {
    match peer {
        Some(p) => Some(p.key_fp@),
        None => None,
    }
}

/// Whether a collection may flow between this store and a peer.
pub fn caps_allow(enc: bool, local_fp: &[u8; 32], peer: Option<&PeerCaps>) -> (r: bool)
    ensures
        r == flows(enc, local_fp@, match peer {
            Some(p) => Some(p.key_fp@),
            None => None,
        }),
{
    if !enc {
        return true;
    }
    let none: [u8; 32] = [0u8; 32];
    proof {
        assert(none@ =~= no_fingerprint());
    }
    if same_fingerprint(local_fp, &none) {
        return false;
    }
    match peer {
        Some(p) => same_fingerprint(local_fp, &p.key_fp),
        None => false,
    }
}

/// What is known of a peer.
pub open spec fn known_caps(caps: Map<Seq<char>, PeerCaps>, peer: Seq<char>) -> Option<PeerCaps> {
    if caps.contains_key(peer) {
        Some(caps[peer])
    } else {
        None
    }
}

/// An encrypted collection flows to a peer exactly if both hold the same key, whatever
/// else the peer has told; where nothing is encrypted everything flows.
pub proof fn encrypted_flows_to_key_holders(config: HakoConfig, collection: Seq<char>, peer: Option<PeerCaps>)
    ensures
        !encrypted(config, collection) ==> flows(
            encrypted(config, collection),
            fingerprint(store_key(config)),
            told_fp(peer),
        ),
        encrypted(config, collection) && fingerprint(store_key(config)) != no_fingerprint() ==> (flows(
            encrypted(config, collection),
            fingerprint(store_key(config)),
            told_fp(peer),
        ) <==> told_fp(peer) == Some(fingerprint(store_key(config)))),
        encrypted(config, collection) && peer is None ==> !flows(
            encrypted(config, collection),
            fingerprint(store_key(config)),
            told_fp(peer),
        ),
{
}

/// The first digits of a fingerprint, for messages.
pub fn fp_short(fp: &[u8; 32]) -> (s: String)
    ensures
        s@ == hex(fp@.take(4)),
{
    hex_text(fp, 4)
}

/// The collections among some that a store encrypts.
pub open spec fn encrypted_of(config: HakoConfig, names: Seq<Seq<char>>) -> Seq<Seq<char>>
    decreases names.len(),
{
    if names.len() == 0 {
        Seq::empty()
    } else if encrypted(config, names.last()) {
        encrypted_of(config, names.drop_last()).push(names.last())
    } else {
        encrypted_of(config, names.drop_last())
    }
}

/// The collections among some that a store encrypts.
pub fn encrypted_among(config: &HakoConfig, names: &Vec<String>) -> (r: Vec<String>)
    ensures
        names_view(r@) == encrypted_of(*config, names_view(names@)),
{
    let ghost s = names_view(names@);
    let mut r: Vec<String> = Vec::new();
    let mut i: usize = 0;
    proof {
        assert(s.take(0) =~= Seq::<Seq<char>>::empty());
        assert(names_view(r@) =~= Seq::<Seq<char>>::empty());
    }
    while i < names.len()
        invariant
            s == names_view(names@),
            i <= names@.len(),
            names_view(r@) == encrypted_of(*config, s.take(i as int)),
        decreases names@.len() - i,
    {
        proof {
            assert(s.take(i + 1).drop_last() =~= s.take(i as int));
            assert(s.take(i + 1).last() == names@[i as int]@);
        }
        if is_collection_encrypted(config, names[i].as_str()) {
            let ghost before = r@;
            r.push(names[i].clone());
            proof {
                assert(names_view(r@) =~= names_view(before).push(names@[i as int]@));
            }
        }
        i = i + 1;
    }
    proof {
        assert(s.take(i as int) =~= s);
    }
    r
}

/// What a store tells of its encryption.
pub open spec fn caps_of(config: HakoConfig, names: Seq<Seq<char>>, caps: PeerCaps) -> bool {
    &&& caps.key_fp@ == fingerprint(store_key(config))
    &&& names_view(caps.encrypted_cols@) == encrypted_of(config, names)
}

/// What a store tells of its encryption, where `names` are the collections that replicate
/// from it.
pub fn local_caps(config: &HakoConfig, names: &Vec<String>) -> (caps: PeerCaps)
    ensures
        caps_of(*config, names_view(names@), caps),
{
    PeerCaps { key_fp: config_fingerprint(config), encrypted_cols: encrypted_among(config, names) }
}

} // verus!
