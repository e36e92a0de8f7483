//! The configuration store: an abstract key/value store with typed
//! accessors, an in-memory implementation, and a snapshotted implementation
//! that models the persistent backend's snapshot/live discipline: reads are
//! served from an immutable snapshot that every successful write re-derives
//! before returning.

use vstd::hash_map::StringHashMap;
use vstd::prelude::*;

use crate::numbers::{parse_bool, parse_i64, spec_i64_dec, spec_parse_bool, spec_parse_i64, to_decimal};

verus! {

/// A typed read failed: the key was present but its value does not parse as
/// the requested type. Absence is not an error.
#[derive(Debug, Clone, Copy, PartialEq, Eq, Structural)]
pub enum VcsError {
    NotABoolean,
    NotANumber,
}

impl VcsError {
    /// A short description, for reports to the user.
    pub fn message(&self) -> (r: &str)
        ensures
            *self == VcsError::NotABoolean ==> r@ == "configured value is not a boolean"@,
            *self == VcsError::NotANumber ==> r@ == "configured value is not a number"@,
    {
        match self {
            VcsError::NotABoolean => "configured value is not a boolean",
            VcsError::NotANumber => "configured value is not a number",
        }
    }
}

/// The logical contents of a backing map whose values are strings.
pub open spec fn store_view(m: Map<Seq<char>, String>) -> Map<Seq<char>, Seq<char>> {
    Map::new(|k: Seq<char>| m.contains_key(k), |k: Seq<char>| m[k]@)
}

/// What a string read returns: the stored string, or absent. Never an error.
pub open spec fn spec_get_str(store: Map<Seq<char>, Seq<char>>, key: Seq<char>) -> Option<
    Seq<char>,
> {
    if store.contains_key(key) {
        Some(store[key])
    } else {
        None
    }
}

/// What a boolean read returns: absent when the key is not configured —
/// distinct from a stored `false` — and an error when the stored value is
/// not a boolean.
pub open spec fn spec_get_bool(store: Map<Seq<char>, Seq<char>>, key: Seq<char>) -> Result<
    Option<bool>,
    VcsError,
> {
    if !store.contains_key(key) {
        Ok(None)
    } else {
        match spec_parse_bool(store[key]) {
            Some(b) => Ok(Some(b)),
            None => Err(VcsError::NotABoolean),
        }
    }
}

/// What an integer read returns, as `spec_get_bool` but for 64-bit integers.
pub open spec fn spec_get_i64(store: Map<Seq<char>, Seq<char>>, key: Seq<char>) -> Result<
    Option<int>,
    VcsError,
> {
    if !store.contains_key(key) {
        Ok(None)
    } else {
        match spec_parse_i64(store[key]) {
            Some(v) => Ok(Some(v)),
            None => Err(VcsError::NotANumber),
        }
    }
}

/// The abstract key/value store the resolver reads: dotted string keys,
/// values typed at read time. Absent is distinct from falsy; a present value
/// of the wrong shape is a read error.
pub trait Vcs {
    /// Whether the store is well formed; constructors establish it and
    /// every operation preserves it.
    spec fn wf(&self) -> bool;

    /// The logical contents a reader observes.
    spec fn store(&self) -> Map<Seq<char>, Seq<char>>;

    fn get_bool(&self, name: &str) -> (r: Result<Option<bool>, VcsError>)
        requires
            self.wf(),
        ensures
            r == spec_get_bool(self.store(), name@),
    ;

    fn get_str(&self, name: &str) -> (r: Result<Option<String>, VcsError>)
        requires
            self.wf(),
        ensures
            match r {
                Ok(Some(v)) => spec_get_str(self.store(), name@) == Some(v@),
                Ok(None) => spec_get_str(self.store(), name@) is None,
                Err(_) => false,
            },
    ;

    fn get_i64(&self, name: &str) -> (r: Result<Option<i64>, VcsError>)
        requires
            self.wf(),
        ensures
            match r {
                Ok(Some(v)) => spec_get_i64(self.store(), name@) == Ok::<Option<int>, VcsError>(
                    Some(v as int),
                ),
                Ok(None) => spec_get_i64(self.store(), name@) == Ok::<Option<int>, VcsError>(None),
                Err(e) => spec_get_i64(self.store(), name@) == Err::<Option<int>, VcsError>(e),
            },
    ;

    fn set_str(&mut self, name: &str, value: &str) -> (r: Result<(), VcsError>)
        requires
            old(self).wf(),
        ensures
            final(self).wf(),
            r == Ok::<(), VcsError>(()),
            final(self).store() == old(self).store().insert(name@, value@),
    ;

    fn set_i64(&mut self, name: &str, value: i64) -> (r: Result<(), VcsError>)
        requires
            old(self).wf(),
        ensures
            final(self).wf(),
            r == Ok::<(), VcsError>(()),
            final(self).store() == old(self).store().insert(name@, spec_i64_dec(value as int)),
    ;

    fn remove(&mut self, name: &str) -> (r: Result<(), VcsError>)
        requires
            old(self).wf(),
        ensures
            final(self).wf(),
            r == Ok::<(), VcsError>(()),
            final(self).store() == old(self).store().remove(name@),
    ;
}

/// The in-memory store: it exclusively owns its backing map; no snapshot
/// distinction, it is inherently consistent.
pub struct InMemory {
    store: StringHashMap<String>,
}

impl InMemory {
    /// An empty in-memory store.
    pub fn new() -> (r: InMemory)
        ensures
            r.wf(),
            r.store() == Map::<Seq<char>, Seq<char>>::empty(),
    {
        let r = InMemory { store: StringHashMap::new() };
        proof {
            assert(r.store() =~= Map::<Seq<char>, Seq<char>>::empty());
        }
        r
    }
}

impl Vcs for InMemory {
    open spec fn wf(&self) -> bool {
        true
    }

    closed spec fn store(&self) -> Map<Seq<char>, Seq<char>> {
        store_view(self.store@)
    }

    fn get_bool(&self, name: &str) -> (r: Result<Option<bool>, VcsError>) {
        match self.store.get(name) {
            None => Ok(None),
            Some(raw) => match parse_bool(raw.as_str()) {
                Some(b) => Ok(Some(b)),
                None => Err(VcsError::NotABoolean),
            },
        }
    }

    fn get_str(&self, name: &str) -> (r: Result<Option<String>, VcsError>) {
        match self.store.get(name) {
            None => Ok(None),
            Some(raw) => Ok(Some(raw.clone())),
        }
    }

    fn get_i64(&self, name: &str) -> (r: Result<Option<i64>, VcsError>) {
        match self.store.get(name) {
            None => Ok(None),
            Some(raw) => match parse_i64(raw.as_str()) {
                Some(v) => Ok(Some(v)),
                None => Err(VcsError::NotANumber),
            },
        }
    }

    fn set_str(&mut self, name: &str, value: &str) -> (r: Result<(), VcsError>) {
        self.store.insert(name.to_owned(), value.to_owned());
        proof {
            assert(self.store() =~= old(self).store().insert(name@, value@));
        }
        Ok(())
    }

    fn set_i64(&mut self, name: &str, value: i64) -> (r: Result<(), VcsError>) {
        let rendered = to_decimal(value);
        self.store.insert(name.to_owned(), rendered);
        proof {
            assert(self.store() =~= old(self).store().insert(name@, spec_i64_dec(value as int)));
        }
        Ok(())
    }

    fn remove(&mut self, name: &str) -> (r: Result<(), VcsError>) {
        self.store.remove(name);
        proof {
            assert(self.store() =~= old(self).store().remove(name@));
        }
        Ok(())
    }
}

/// The model of the persistent backend: a live map that writes mutate and an
/// immutable snapshot that serves every read. Each successful write
/// re-derives the snapshot before returning, so a reader never observes a
/// write half-applied.
pub struct SnapshotStore {
    live: StringHashMap<String>,
    snapshot: StringHashMap<String>,
}

impl SnapshotStore {
    /// An empty store; construction takes the initial snapshot.
    pub fn new() -> (r: SnapshotStore)
        ensures
            r.wf(),
            r.store() == Map::<Seq<char>, Seq<char>>::empty(),
    {
        let r = SnapshotStore { live: StringHashMap::new(), snapshot: StringHashMap::new() };
        proof {
            assert(r.store() =~= Map::<Seq<char>, Seq<char>>::empty());
        }
        r
    }

    /// The live contents; the snapshot discipline keeps them in step with
    /// what readers observe.
    pub closed spec fn live_view(&self) -> Map<Seq<char>, Seq<char>> {
        store_view(self.live@)
    }
}

impl Vcs for SnapshotStore {
    /// The snapshot is exactly the live state: every write has re-derived
    /// it before returning.
    open spec fn wf(&self) -> bool {
        self.live_view() == self.store()
    }

    /// Readers are served from the snapshot, never from the live store.
    closed spec fn store(&self) -> Map<Seq<char>, Seq<char>> {
        store_view(self.snapshot@)
    }

    fn get_bool(&self, name: &str) -> (r: Result<Option<bool>, VcsError>) {
        match self.snapshot.get(name) {
            None => Ok(None),
            Some(raw) => match parse_bool(raw.as_str()) {
                Some(b) => Ok(Some(b)),
                None => Err(VcsError::NotABoolean),
            },
        }
    }

    fn get_str(&self, name: &str) -> (r: Result<Option<String>, VcsError>) {
        match self.snapshot.get(name) {
            None => Ok(None),
            Some(raw) => Ok(Some(raw.clone())),
        }
    }

    fn get_i64(&self, name: &str) -> (r: Result<Option<i64>, VcsError>) {
        match self.snapshot.get(name) {
            None => Ok(None),
            Some(raw) => match parse_i64(raw.as_str()) {
                Some(v) => Ok(Some(v)),
                None => Err(VcsError::NotANumber),
            },
        }
    }

    fn set_str(&mut self, name: &str, value: &str) -> (r: Result<(), VcsError>) {
        self.live.insert(name.to_owned(), value.to_owned());
        // re-derive the snapshot before returning
        self.snapshot.insert(name.to_owned(), value.to_owned());
        proof {
            assert(self.store() =~= old(self).store().insert(name@, value@));
            assert(self.live_view() =~= old(self).live_view().insert(name@, value@));
        }
        Ok(())
    }

    fn set_i64(&mut self, name: &str, value: i64) -> (r: Result<(), VcsError>) {
        let rendered = to_decimal(value);
        let rendered_again = to_decimal(value);
        self.live.insert(name.to_owned(), rendered);
        self.snapshot.insert(name.to_owned(), rendered_again);
        proof {
            assert(self.store() =~= old(self).store().insert(name@, spec_i64_dec(value as int)));
            assert(self.live_view() =~= old(self).live_view().insert(
                name@,
                spec_i64_dec(value as int),
            ));
        }
        Ok(())
    }

    fn remove(&mut self, name: &str) -> (r: Result<(), VcsError>) {
        self.live.remove(name);
        self.snapshot.remove(name);
        proof {
            assert(self.store() =~= old(self).store().remove(name@));
            assert(self.live_view() =~= old(self).live_view().remove(name@));
        }
        Ok(())
    }
}

/// An absent key reads as absent, which no stored value — `false` included —
/// can be confused with: storing `false` reads back as present-and-false.
pub proof fn lemma_absent_vs_falsy(store: Map<Seq<char>, Seq<char>>, key: Seq<char>)
    requires
        !store.contains_key(key),
    ensures
        spec_get_bool(store, key) == Ok::<Option<bool>, VcsError>(None),
        spec_get_bool(store.insert(key, "false"@), key) == Ok::<Option<bool>, VcsError>(
            Some(false),
        ),
{
    reveal_strlit("false");
    reveal_strlit("true");
    assert("false"@.len() == 5 && "true"@.len() == 4);
    assert(spec_parse_bool("false"@) == Some(false));
}

/// Snapshot atomicity: a successful `set_str` is visible to the very next
/// `get_str` of the same key on the same store.
pub proof fn lemma_set_then_get(store: Map<Seq<char>, Seq<char>>, key: Seq<char>, value: Seq<char>)
    ensures
        spec_get_str(store.insert(key, value), key) == Some(value),
{
}

/// The integer accessors agree: a value stored by `set_i64` reads back by
/// `get_i64` as the same number.
pub proof fn lemma_set_i64_then_get_i64(store: Map<Seq<char>, Seq<char>>, key: Seq<char>, value: int)
    requires
        -0x8000000000000000 <= value <= 0x7fffffffffffffff,
    ensures
        spec_get_i64(store.insert(key, spec_i64_dec(value)), key) == Ok::<Option<int>, VcsError>(
            Some(value),
        ),
{
    crate::numbers::lemma_dec_round_trip(value);
}

} // verus!
