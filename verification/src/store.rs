//! The content store client model: an append-only store of immutable
//! records, each addressed by the content identifier of its bytes.  Putting
//! the same bytes twice yields the same identifier and writes nothing new.
use vstd::prelude::*;
use libipld::multihash::MultihashDigest;
use crate::value::Identifier;

verus! {

/// Widest identifier the store accepts; content identifiers derived from a
/// fixed digest are far narrower.
pub const MAX_ID_BYTES: usize = 64;

/// Ways the content store can fail.
#[derive(Clone, Copy, Debug, PartialEq, Eq, Structural)]
pub enum StoreError {
    /// The identifier is unknown to the store.
    NotFound,
    /// The store cannot be reached.
    Unavailable,
    /// The store refused the write.
    WriteError,
}

/// The content identifier that a record's bytes receive: a function of the
/// bytes alone, so equal records always share one identifier.
pub uninterp spec fn id_of(bytes: Seq<u8>) -> Seq<u8>;

/// Relies on libipld's Code::Blake3_256.digest, Cid::new_v1 and
/// Cid::to_bytes: the identifier is computed from the record's bytes
/// alone, and a version-1 identifier over a 256-bit digest is a short,
/// fixed-shape byte string.
#[verifier::external_body]
fn derive_identifier(bytes: &Vec<u8>) -> (r: Identifier)
    ensures
        r@ == id_of(bytes@),
        r@.len() <= MAX_ID_BYTES,
{
    let digest = libipld::multihash::Code::Blake3_256.digest(bytes.as_slice());
    let cid = libipld::Cid::new_v1(0x55, digest);
    Identifier::from_bytes(cid.to_bytes())
}

/// What the store holds: identifier-addressed records, oldest first.
pub struct MemStore {
    entries: Vec<(Identifier, Vec<u8>)>,
}

impl View for MemStore {
    type V = Seq<(Seq<u8>, Seq<u8>)>;

    closed spec fn view(&self) -> Seq<(Seq<u8>, Seq<u8>)> {
        Seq::new(self.entries@.len(), |i: int| (self.entries@[i].0@, self.entries@[i].1@))
    }
}

/// The record stored under a key: the earliest entry with it wins, though
/// the store never keeps two entries with one key.
pub open spec fn lookup(st: Seq<(Seq<u8>, Seq<u8>)>, key: Seq<u8>) -> Option<Seq<u8>>
    decreases st.len(),
{
    if st.len() == 0 {
        None
    } else if st[0].0 == key {
        Some(st[0].1)
    } else {
        lookup(st.drop_first(), key)
    }
}

/// What putting bytes does to the store: a fresh record is appended, a
/// repeated record is a no-op, and a record whose identifier is already
/// taken by different bytes, or does not fit the store's key width, is
/// refused.
pub open spec fn spec_put(st: Seq<(Seq<u8>, Seq<u8>)>, bytes: Seq<u8>) -> (Result<
    Seq<u8>,
    StoreError,
>, Seq<(Seq<u8>, Seq<u8>)>) {
    let key = id_of(bytes);
    if key.len() > MAX_ID_BYTES {
        (Err(StoreError::WriteError), st)
    } else {
        match lookup(st, key) {
            None => (Ok(key), st.push((key, bytes))),
            Some(existing) => if existing == bytes {
                (Ok(key), st)
            } else {
                (Err(StoreError::WriteError), st)
            },
        }
    }
}

/// What getting an identifier returns: the stored bytes, or not found.
pub open spec fn spec_get(st: Seq<(Seq<u8>, Seq<u8>)>, key: Seq<u8>) -> Result<
    Seq<u8>,
    StoreError,
> {
    match lookup(st, key) {
        Some(bytes) => Ok(bytes),
        None => Err(StoreError::NotFound),
    }
}

/// A key that resolves keeps resolving to the same bytes after an append.
pub proof fn lemma_lookup_push(st: Seq<(Seq<u8>, Seq<u8>)>, p: (Seq<u8>, Seq<u8>), key: Seq<u8>)
    ensures
        lookup(st, key) is Some ==> lookup(st.push(p), key) == lookup(st, key),
        lookup(st, key) is None && p.0 == key ==> lookup(st.push(p), key) == Some(p.1),
        lookup(st, key) is None && p.0 != key ==> lookup(st.push(p), key) is None,
    decreases st.len(),
{
    if st.len() == 0 {
        assert(st.push(p)[0] == p);
        assert(st.push(p).drop_first() =~= Seq::<(Seq<u8>, Seq<u8>)>::empty());
    } else {
        assert(st.push(p)[0] == st[0]);
        assert(st.push(p).drop_first() =~= st.drop_first().push(p));
        lemma_lookup_push(st.drop_first(), p, key);
    }
}

/// Putting bytes never erases a record: every key that resolved before
/// still resolves to the same bytes, and the put bytes resolve under the
/// returned identifier.
pub proof fn lemma_put_preserves(st: Seq<(Seq<u8>, Seq<u8>)>, bytes: Seq<u8>, key: Seq<u8>)
    ensures
        lookup(st, key) is Some ==> lookup(spec_put(st, bytes).1, key) == lookup(st, key),
        spec_put(st, bytes).0 matches Ok(k) ==> k == id_of(bytes) && lookup(
            spec_put(st, bytes).1,
            k,
        ) == Some(bytes),
{
    let k = id_of(bytes);
    lemma_lookup_push(st, (k, bytes), key);
    lemma_lookup_push(st, (k, bytes), k);
}

/// Compares two byte strings.
fn eq_bytes(a: &Vec<u8>, b: &Vec<u8>) -> (r: bool)
    ensures
        r == (a@ == b@),
{
    if a.len() != b.len() {
        return false;
    }
    let mut i: usize = 0;
    while i < a.len()
        invariant
            a@.len() == b@.len(),
            i <= a@.len(),
            forall|x: int| 0 <= x < i ==> a@[x] == b@[x],
        decreases a@.len() - i,
    {
        if a[i] != b[i] {
            return false;
        }
        i = i + 1;
    }
    proof {
        assert(a@ =~= b@);
    }
    true
}

impl MemStore {
    /// An empty store.
    pub fn new() -> (r: MemStore)
        ensures
            r@ == Seq::<(Seq<u8>, Seq<u8>)>::empty(),
    {
        let r = MemStore { entries: Vec::new() };
        proof {
            assert(r@ =~= Seq::<(Seq<u8>, Seq<u8>)>::empty());
        }
        r
    }

    /// Looks the key up, returning the index of its entry.
    fn find(&self, key: &Identifier) -> (r: Option<usize>)
        ensures
            match r {
                Some(ix) => ix < self@.len() && self@[ix as int].0 == key@ && lookup(self@, key@)
                    == Some(self@[ix as int].1),
                None => lookup(self@, key@) is None,
            },
    {
        let ghost all = self@;
        let mut i: usize = 0;
        proof {
            assert(all.skip(0) =~= all);
        }
        while i < self.entries.len()
            invariant
                all == self@,
                all.len() == self.entries@.len(),
                i <= self.entries@.len(),
                lookup(all, key@) == lookup(all.skip(i as int), key@),
            decreases self.entries@.len() - i,
        {
            proof {
                assert(all.skip(i as int)[0] == all[i as int]);
            }
            if eq_bytes(self.entries[i].0.as_bytes(), key.as_bytes()) {
                return Some(i);
            }
            proof {
                assert(all.skip(i as int).drop_first() =~= all.skip(i + 1));
            }
            i = i + 1;
        }
        proof {
            assert(all.skip(i as int) =~= Seq::<(Seq<u8>, Seq<u8>)>::empty());
        }
        None
    }

    /// Stores the bytes under their content identifier.  Putting identical
    /// bytes twice yields the same identifier and the second call writes
    /// nothing; an identifier already taken by different bytes is refused.
    pub fn put(&mut self, bytes: &Vec<u8>) -> (r: Result<Identifier, StoreError>)
        ensures
            final(self)@ == spec_put(old(self)@, bytes@).1,
            match r {
                Ok(id) => spec_put(old(self)@, bytes@).0 == Ok::<Seq<u8>, StoreError>(id@),
                Err(e) => spec_put(old(self)@, bytes@).0 == Err::<Seq<u8>, StoreError>(e),
            },
    {
        let key = derive_identifier(bytes);
        match self.find(&key) {
            Some(ix) => {
                if eq_bytes(&self.entries[ix].1, bytes) {
                    Ok(key)
                } else {
                    Err(StoreError::WriteError)
                }
            },
            None => {
                let ghost prev = self@;
                let copy = vstd::slice::slice_to_vec(bytes.as_slice());
                self.entries.push((key.clone(), copy));
                proof {
                    assert(self@ =~= prev.push((key@, bytes@)));
                }
                Ok(key)
            },
        }
    }

    /// Fetches the bytes stored under an identifier.
    pub fn get(&self, key: &Identifier) -> (r: Result<Vec<u8>, StoreError>)
        ensures
            match r {
                Ok(b) => spec_get(self@, key@) == Ok::<Seq<u8>, StoreError>(b@),
                Err(e) => spec_get(self@, key@) == Err::<Seq<u8>, StoreError>(e),
            },
    {
        match self.find(key) {
            Some(ix) => {
                Ok(vstd::slice::slice_to_vec(self.entries[ix].1.as_slice()))
            },
            None => Err(StoreError::NotFound),
        }
    }
}

} // verus!
