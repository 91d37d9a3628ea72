//! Erasure-coded object storage on top of a content-addressed chunk store.
//!
//! Storing an object hashes the plaintext (object hash = BLAKE3 of the
//! bytes), Reed-Solomon encodes it into 14 shards (k=10, parity=4), keys
//! each shard by its own hash in the chunk store, and records a manifest
//! mapping the object to its shard hashes and positions. Reading it back
//! loads the manifest, reads what shards it can (up to the parity budget
//! may be missing), decodes, and checks the decoded bytes against the
//! object hash.
//!
//! This module holds the computing half of those two operations; the
//! reads and writes of files are done by the caller with the values it
//! returns and takes.

use vstd::prelude::*;
use crate::codec::{present_count, reconstructible, rs_reconstructed};
use crate::erasure::{
    decode, encode, encoded, shard_len, slot_bytes, truncated, valid_counts, ErasureError, Shard,
    DEFAULT_K, DEFAULT_PARITY,
};
use crate::hash::blake3_of;
use crate::hex::hex_of;

verus! {

/// A content-addressed chunk store rooted at a directory.
#[derive(Clone, Debug)]
pub struct ChunkStore {
    root: String,
}

impl View for ChunkStore {
    type V = Seq<char>;

    closed spec fn view(&self) -> Seq<char> {
        self.root@
    }
}

impl ChunkStore {
    /// A chunk store rooted at `root` (the directory is not touched).
    pub fn with_root(root: String) -> (s: ChunkStore)
        ensures
            s@ == root@,
    {
        ChunkStore { root }
    }

    /// The directory the store lives in.
    pub fn root(&self) -> (r: &str)
        ensures
            r@ == self@,
    {
        self.root.as_str()
    }
}

/// Where one shard of an object lives.
#[derive(Clone, Debug, PartialEq, Eq)]
pub struct ShardEntry {
    pub index: u8,
    pub hash: crate::hash::Hash,
    /// Host hint for cross-node placement (peer id). `None` = local.
    pub host_hint: Option<String>,
}

/// What an object is made of: its hash, length, code parameters and shards.
#[derive(Clone, Debug, PartialEq, Eq)]
pub struct ObjectManifest {
    pub object_hash: crate::hash::Hash,
    pub original_len: u64,
    pub k: u8,
    pub parity: u8,
    pub shards: Vec<ShardEntry>,
}

/// Why a storage operation failed.
#[derive(Debug)]
pub enum StorageError {
    /// The shards could not be decoded.
    Erasure(ErasureError),
    /// The decoded bytes do not hash to the manifest's object hash.
    Integrity { expected: crate::hash::Hash, actual: crate::hash::Hash },
    /// The manifest read for an object names another object.
    ManifestMismatch { found: crate::hash::Hash, requested: crate::hash::Hash },
}

/// The text of an error, as the node reports it.
pub open spec fn storage_message(e: StorageError) -> Seq<char> {
    match e {
        StorageError::Erasure(inner) => crate::erasure::erasure_message(inner),
        StorageError::Integrity {
            expected,
            actual,
        } => "object integrity failure: manifest says "@ + hex_of(expected.0@)
            + " but decoded bytes hash to "@ + hex_of(actual.0@),
        StorageError::ManifestMismatch { found, requested } => "manifest object_hash "@ + hex_of(
            found.0@,
        ) + " != requested "@ + hex_of(requested.0@),
    }
}

impl StorageError {
    /// The error's text.
    pub fn message(&self) -> (s: String)
        ensures
            s@ == storage_message(*self),
    {
        match self {
            StorageError::Erasure(inner) => inner.message(),
            StorageError::Integrity { expected, actual } => {
                let mut s = String::from_str("object integrity failure: manifest says ");
                s.append(expected.to_hex().as_str());
                s.append(" but decoded bytes hash to ");
                s.append(actual.to_hex().as_str());
                s
            },
            StorageError::ManifestMismatch { found, requested } => {
                let mut s = String::from_str("manifest object_hash ");
                s.append(found.to_hex().as_str());
                s.append(" != requested ");
                s.append(requested.to_hex().as_str());
                s
            },
        }
    }
}

/// `base` joined with the relative path component `part`, `/`-separated.
pub open spec fn path_join(base: Seq<char>, part: Seq<char>) -> Seq<char> {
    if base.len() == 0 {
        part
    } else if base.last() == '/' {
        base + part
    } else {
        base + "/"@ + part
    }
}

fn join_path(base: String, part: &str) -> (r: String)
    ensures
        r@ == path_join(base@, part@),
{
    let n: usize = base.unicode_len();
    if n == 0 {
        String::from_str(part)
    } else if base.as_str().get_char(n - 1) == '/' {
        let mut r = base;
        r.append(part);
        r
    } else {
        let mut r = base;
        r.append("/");
        r.append(part);
        r
    }
}

/// Where the manifest of an object lives under a store root:
/// `<root>/manifests/<hex>.json`.
pub open spec fn manifest_path_of(root: Seq<char>, object_hash: crate::hash::Hash) -> Seq<char> {
    path_join(path_join(root, "manifests"@), hex_of(object_hash.0@) + ".json"@)
}

/// The slots of a received-shard vector of length `n` after each entry
/// whose shard was read has put its bytes at the entry's position.
pub open spec fn placed(
    entries: Seq<ShardEntry>,
    fetched: Seq<Option<Seq<u8>>>,
    n: nat,
) -> Seq<Option<Seq<u8>>>
    decreases entries.len(),
{
    if entries.len() == 0 || fetched.len() == 0 {
        Seq::new(n, |i: int| None)
    } else {
        let prev = placed(entries.drop_last(), fetched.drop_last(), n);
        match fetched.last() {
            Some(b) => prev.update(entries.last().index as int, Some(b)),
            None => prev,
        }
    }
}

/// The manifest is the one that storing `data` produced, and each read
/// either failed or gave back the shard the entry names.
pub open spec fn reads_of_stored(
    m: ObjectManifest,
    fetched: Seq<Option<Seq<u8>>>,
    data: Seq<u8>,
) -> bool {
    &&& m.object_hash.0@ == blake3_of(data)
    &&& m.original_len == data.len()
    &&& data.len() <= usize::MAX
    &&& m.k == 10
    &&& m.parity == 4
    &&& m.shards@.len() == 14
    &&& fetched.len() == 14
    &&& forall|i: int| 0 <= i < 14 ==> (#[trigger] m.shards@[i]).index == i
    &&& forall|i: int|
        0 <= i < 14 && (#[trigger] fetched[i]) is Some ==> fetched[i].unwrap() == encoded(
            data,
            10,
            4,
        )[i] && fetched[i].unwrap().len() == shard_len(data.len(), 10)
    &&& present_count(fetched) >= 10
}

/// Erasure-coded storage over a chunk store.
#[derive(Clone, Debug)]
pub struct Storage {
    inner: ChunkStore,
}

impl Storage {
    pub closed spec fn store(&self) -> ChunkStore {
        self.inner
    }

    pub fn new(inner: ChunkStore) -> (s: Self)
        ensures
            s.store() == inner,
    {
        Self { inner }
    }

    pub fn chunk_store(&self) -> (c: &ChunkStore)
        ensures
            *c == self.store(),
    {
        &self.inner
    }

    /// Where this store keeps the manifest of an object.
    pub fn manifest_path(&self, object_hash: &crate::hash::Hash) -> (p: String)
        ensures
            p@ == manifest_path_of(self.store()@, *object_hash),
    {
        let mut file = object_hash.to_hex();
        file.append(".json");
        let dir = join_path(self.inner.root.clone(), "manifests");
        join_path(dir, file.as_str())
    }

    /// Encode an object for storage: its manifest, and the shards to write
    /// into the chunk store, each under the hash its manifest entry names.
    pub fn prepare_put(data: &[u8]) -> (r: (ObjectManifest, Vec<Shard>))
        ensures
            r.0.object_hash.0@ == blake3_of(data@),
            r.0.original_len == data@.len(),
            r.0.k == 10,
            r.0.parity == 4,
            r.0.shards@.len() == 14,
            r.1@.len() == 14,
            forall|i: int|
                0 <= i < 14 ==> {
                    &&& (#[trigger] r.0.shards@[i]).index == i
                    &&& r.0.shards@[i].hash.0@ == blake3_of(r.1@[i].bytes@)
                    &&& r.0.shards@[i].host_hint is None
                    &&& r.1@[i].index == i
                    &&& r.1@[i].bytes@ == encoded(data@, 10, 4)[i]
                    &&& r.1@[i].bytes@.len() == shard_len(data@.len(), 10)
                },
    {
        let object_hash = crate::hash::Hash::of(data);
        let (shards, original_len) = match encode(data, DEFAULT_K, DEFAULT_PARITY) {
            Ok(x) => x,
            Err(_) => {
                assert(false);
                return (
                    ObjectManifest {
                        object_hash,
                        original_len: 0,
                        k: 10,
                        parity: 4,
                        shards: Vec::new(),
                    },
                    Vec::new(),
                );
            },
        };
        let mut entries: Vec<ShardEntry> = Vec::new();
        let mut i: usize = 0;
        while i < shards.len()
            invariant
                i <= shards@.len(),
                shards@.len() == 14,
                entries@.len() == i,
                forall|t: int|
                    0 <= t < i ==> (#[trigger] entries@[t]).index == shards@[t].index
                        && entries@[t].hash.0@ == blake3_of(shards@[t].bytes@)
                        && entries@[t].host_hint is None,
            decreases shards@.len() - i,
        {
            let h = crate::hash::Hash::of(shards[i].bytes.as_slice());
            entries.push(ShardEntry { index: shards[i].index, hash: h, host_hint: None });
            i = i + 1;
        }
        let manifest = ObjectManifest {
            object_hash,
            original_len: original_len as u64,
            k: DEFAULT_K as u8,
            parity: DEFAULT_PARITY as u8,
            shards: entries,
        };
        (manifest, shards)
    }

    /// Read an object back from the shards that could be read: `fetched[i]`
    /// holds the bytes of the shard that `manifest.shards[i]` names, or
    /// `None` where it could not be read. Up to `parity` shards may be
    /// missing. The decoded bytes must hash to the manifest's object hash.
    pub fn finish_get(manifest: &ObjectManifest, fetched: Vec<Option<Vec<u8>>>) -> (r: Result<
        Vec<u8>,
        StorageError,
    >)
        requires
            fetched@.len() == manifest.shards@.len(),
            manifest.k + manifest.parity <= 255,
            forall|i: int|
                0 <= i < manifest.shards@.len() && (#[trigger] fetched@[i]) is Some
                    ==> manifest.shards@[i].index < manifest.k + manifest.parity,
        ensures
            ({
                let k = manifest.k as nat;
                let p = manifest.parity as nat;
                let slots = placed(manifest.shards@, fetched.deep_view(), k + p);
                let decoded = truncated(
                    rs_reconstructed(k, p, slots).take(k as int).flatten(),
                    (manifest.original_len as usize) as nat,
                );
                &&& present_count(slots) < k ==> r == Err::<Vec<u8>, _>(
                    StorageError::Erasure(
                        ErasureError::TooFewShards {
                            need: k as usize,
                            got: present_count(slots) as usize,
                        },
                    ),
                )
                &&& (r matches Err(StorageError::Erasure(_))) <==> !(valid_counts(k, p)
                    && reconstructible(k, p, slots))
                &&& present_count(slots) >= k && !valid_counts(k, p) ==> (r matches Err(
                    StorageError::Erasure(ErasureError::CodecSetup(_)),
                ))
                &&& present_count(slots) >= k && valid_counts(k, p) && !reconstructible(k, p, slots)
                    ==> (r matches Err(StorageError::Erasure(ErasureError::CodecReconstruct(_))))
                &&& (r matches Err(StorageError::Integrity { expected, actual })) <==> (
                valid_counts(k, p) && reconstructible(k, p, slots) && blake3_of(decoded)
                    != manifest.object_hash.0@)
                &&& r matches Err(StorageError::Integrity { expected, actual }) ==> expected
                    == manifest.object_hash && actual.0@ == blake3_of(decoded)
                &&& !(r matches Err(StorageError::ManifestMismatch { .. }))
                &&& r matches Ok(v) ==> v@ == decoded
            }),
            forall|data: Seq<u8>|
                #[trigger] reads_of_stored(*manifest, fetched.deep_view(), data) ==> (r matches Ok(
                    v,
                ) && v@ == data),
    {
        let k: u8 = manifest.k;
        let parity: u8 = manifest.parity;
        let n: usize = (k + parity) as usize;
        let ghost fv = fetched.deep_view();
        let ghost entries = manifest.shards@;
        let mut received: Vec<Option<Shard>> = Vec::new();
        let mut j: usize = 0;
        while j < n
            invariant
                j <= n,
                received@.len() == j,
                forall|t: int| 0 <= t < j ==> (#[trigger] received@[t]) is None,
            decreases n - j,
        {
            received.push(None);
            j = j + 1;
        }
        assert(slot_bytes(received@) =~= placed(entries.take(0), fv.take(0), n as nat));
        let m_len: usize = manifest.shards.len();
        assert forall|t: int| 0 <= t < entries.len() && (#[trigger] fv[t]) is Some implies entries[t].index
            < n by {
            assert(fv[t] == fetched@[t].deep_view());
        }
        let mut rest = fetched;
        let mut i: usize = 0;
        while rest.len() > 0
            invariant
                i + rest@.len() == entries.len(),
                entries.len() == m_len,
                fv.len() == entries.len(),
                entries == manifest.shards@,
                n == k + parity,
                received@.len() == n,
                rest.deep_view() == fv.skip(i as int),
                forall|t: int|
                    0 <= t < entries.len() && (#[trigger] fv[t]) is Some ==> entries[t].index < n,
                slot_bytes(received@) == placed(entries.take(i as int), fv.take(i as int), n as nat),
            decreases rest@.len(),
        {
            let ghost old_rest = rest.deep_view();
            let ghost before = slot_bytes(received@);
            let o = rest.remove(0);
            let entry = &manifest.shards[i];
            proof {
                assert(rest.deep_view() =~= old_rest.skip(1));
                assert(fv.skip(i as int).skip(1) =~= fv.skip(i as int + 1));
                assert(entries.take(i as int + 1).drop_last() =~= entries.take(i as int));
                assert(fv.take(i as int + 1).drop_last() =~= fv.take(i as int));
                assert(fv[i as int] == old_rest[0]);
            }
            match o {
                Some(bytes) => {
                    let ghost bv = bytes@;
                    assert(bytes.deep_view() =~= bv);
                    let idx: usize = entry.index as usize;
                    received.set(idx, Some(Shard { index: entry.index, bytes }));
                    assert(slot_bytes(received@) =~= before.update(idx as int, Some(bv)));
                },
                None => {},
            }
            i = i + 1;
        }
        assert(entries.take(i as int) =~= entries);
        assert(fv.take(i as int) =~= fv);
        let ghost slots = slot_bytes(received@);
        proof {
            assert forall|data: Seq<u8>|
                #[trigger] reads_of_stored(*manifest, fv, data) implies crate::erasure::holds_encoding_of(
                    slots,
                    data,
                    10,
                    4,
                ) && data.len() == manifest.original_len by {
                lemma_placed_in_order(entries, fv, 14);
            }
        }
        let plaintext = match decode(received, k as usize, parity as usize, manifest.original_len as usize) {
            Ok(v) => v,
            Err(e) => return Err(StorageError::Erasure(e)),
        };
        let actual = crate::hash::Hash::of(plaintext.as_slice());
        if actual != manifest.object_hash {
            return Err(StorageError::Integrity { expected: manifest.object_hash, actual });
        }
        Ok(plaintext)
    }

    /// Accept a manifest read for `requested` only if it names that object.
    pub fn check_manifest(m: ObjectManifest, requested: &crate::hash::Hash) -> (r: Result<
        ObjectManifest,
        StorageError,
    >)
        ensures
            m.object_hash.0@ == requested.0@ ==> r == Ok::<_, StorageError>(m),
            m.object_hash.0@ != requested.0@ ==> r == Err::<ObjectManifest, _>(
                StorageError::ManifestMismatch { found: m.object_hash, requested: *requested },
            ),
    {
        if m.object_hash != *requested {
            return Err(StorageError::ManifestMismatch { found: m.object_hash, requested: *requested });
        }
        Ok(m)
    }
}

/// When the `i`-th entry names position `i`, the placed slots are the
/// reads themselves.
proof fn lemma_placed_in_order(entries: Seq<ShardEntry>, fetched: Seq<Option<Seq<u8>>>, n: nat)
    requires
        entries.len() == n,
        fetched.len() == n,
        forall|i: int| 0 <= i < n ==> (#[trigger] entries[i]).index == i,
    ensures
        placed(entries, fetched, n) == fetched,
{
    lemma_placed_prefix(entries, fetched, n, n);
    assert(entries.take(n as int) =~= entries);
    assert(fetched.take(n as int) =~= fetched);
    assert(Seq::new(n, |j: int| if j < n { fetched[j] } else { None }) =~= fetched);
}

proof fn lemma_placed_prefix(entries: Seq<ShardEntry>, fetched: Seq<Option<Seq<u8>>>, n: nat, t: nat)
    requires
        entries.len() == n,
        fetched.len() == n,
        t <= n,
        forall|i: int| 0 <= i < n ==> (#[trigger] entries[i]).index == i,
    ensures
        placed(entries.take(t as int), fetched.take(t as int), n) == Seq::new(
            n,
            |j: int| if j < t { fetched[j] } else { None },
        ),
    decreases t,
{
    if t == 0 {
        assert(placed(entries.take(0), fetched.take(0), n) =~= Seq::new(
            n,
            |j: int| if j < t { fetched[j] } else { None },
        ));
    } else {
        lemma_placed_prefix(entries, fetched, n, (t - 1) as nat);
        assert(entries.take(t as int).drop_last() =~= entries.take(t - 1));
        assert(fetched.take(t as int).drop_last() =~= fetched.take(t - 1));
        assert(entries.take(t as int).last() == entries[t - 1]);
        assert(placed(entries.take(t as int), fetched.take(t as int), n) =~= Seq::new(
            n,
            |j: int| if j < t { fetched[j] } else { None },
        ));
    }
}

/// What `Storage::prepare_put` produced reads back: when every shard read
/// either fails or gives the bytes of the shard `prepare_put` returned at
/// that position, and at most four fail, `Storage::finish_get` returns the
/// stored bytes (see its last `ensures` clause).
pub proof fn law_get_returns_put(
    data: Seq<u8>,
    m: ObjectManifest,
    shards: Seq<Shard>,
    fetched: Seq<Option<Seq<u8>>>,
)
    requires
        m.object_hash.0@ == blake3_of(data),
        m.original_len == data.len(),
        data.len() <= usize::MAX,
        m.k == 10,
        m.parity == 4,
        m.shards@.len() == 14,
        shards.len() == 14,
        forall|i: int|
            0 <= i < 14 ==> (#[trigger] m.shards@[i]).index == i && shards[i].bytes@ == encoded(
                data,
                10,
                4,
            )[i] && shards[i].bytes@.len() == shard_len(data.len(), 10),
        fetched.len() == 14,
        forall|i: int|
            0 <= i < 14 && (#[trigger] fetched[i]) is Some ==> fetched[i] == Some(shards[i].bytes@),
        present_count(fetched) >= 10,
    ensures
        reads_of_stored(m, fetched, data),
{
    assert forall|i: int|
        0 <= i < 14 && (#[trigger] fetched[i]) is Some implies fetched[i].unwrap() == encoded(
        data,
        10,
        4,
    )[i] && fetched[i].unwrap().len() == shard_len(data.len(), 10) by {
        assert(m.shards@[i].index == i);
    }
}

} // verus!
