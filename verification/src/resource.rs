use crate::fuzzy_index::FuzzyIndex;
use crate::fuzzy_index::prefix_search_hits;
use crate::fuzzy_index::search_hits;
use crate::fuzzy_index::wf_entries;
use crate::fuzzy_index::lemma_wf_entries;
use crate::host_term::HostTerm;
use crate::host_term::parse_host;
use crate::supported_term::SupportedTerm;
use crate::supported_term::TermView;
use crate::supported_term::seq_term_view;
use vstd::prelude::*;
use vstd::rwlock::RwLock;
use vstd::rwlock::RwLockPredicate;

verus! {

/// Why an index operation failed.
///
/// This index guards its engine with a blocking reader/writer lock: reads
/// share the guard, writes are exclusive, and operations wait rather than
/// fail, so the two lock errors never come out of the operations below. The
/// lock is verified and cannot be poisoned. The variants remain part of the
/// taxonomy for a deployment whose guard rejects contention instead of
/// blocking, or can be poisoned by a crash mid-mutation; such a guard
/// belongs with the host bindings, outside this library.
#[derive(Debug, PartialEq, Eq)]
pub enum IndexError {
    UnsupportedType,
    LockContention,
    LockPoisoned,
}

/// The guard invariant: every state of the shared index is well-formed and
/// keeps the configuration it was created with. Readers and writers alike
/// can rely on it; a writer must restore it before releasing the guard, so
/// no torn state is ever observable.
pub struct IndexPred {
    pub distance: nat,
    pub transpositions: bool,
}

impl RwLockPredicate<FuzzyIndex> for IndexPred {
    open spec fn inv(self, v: FuzzyIndex) -> bool {
        &&& v.wf()
        &&& v.dist_spec() == self.distance
        &&& v.transp_spec() == self.transpositions
    }
}

/// A shared, mutation-safe handle to one matching engine: any number of
/// callers may hold it, and each operation takes the guard for the shortest
/// possible span. An insert parses first and only then takes the guard, so a
/// rejected value never touches the index.
pub struct FuzzyTrieResource {
    distance: u8,
    transpositions: bool,
    lock: RwLock<FuzzyIndex, IndexPred>,
}

impl FuzzyTrieResource {
    /// Configured edit-distance bound, fixed at creation.
    pub closed spec fn dist_spec(&self) -> nat {
        self.distance as nat
    }

    /// Whether a transposition counts as a single edit, fixed at creation.
    pub closed spec fn transp_spec(&self) -> bool {
        self.transpositions
    }

    /// Internal consistency: the lock's invariant carries this
    /// configuration.
    #[verifier::type_invariant]
    spec fn wf(&self) -> bool {
        self.lock.pred() == (IndexPred {
            distance: self.distance as nat,
            transpositions: self.transpositions,
        })
    }

    /// A fresh shared index with the given matching configuration. Never
    /// fails.
    pub fn new(distance: u8, transpositions: bool) -> (r: FuzzyTrieResource)
        ensures
            r.dist_spec() == distance as nat,
            r.transp_spec() == transpositions,
    {
        let idx = FuzzyIndex::new(distance, transpositions);
        let ghost pred = IndexPred { distance: distance as nat, transpositions };
        FuzzyTrieResource { distance, transpositions, lock: RwLock::new(idx, Ghost(pred)) }
    }

    /// Parse `term` and store it under `key`. Succeeds exactly when the term
    /// is supported; an unsupported term is rejected before the guard is
    /// even taken, so it cannot touch the index. The lookup-or-create of the
    /// key's entry and the value insertion happen under one exclusive guard.
    pub fn insert(&self, key: &str, term: &HostTerm) -> (r: Result<(), IndexError>)
        ensures
            r is Ok <==> parse_host(term@) is Some,
            r is Err ==> r == Err::<(), IndexError>(IndexError::UnsupportedType),
    {
        proof {
            use_type_invariant(self);
        }
        match SupportedTerm::try_from(term) {
            Err(_) => Err(IndexError::UnsupportedType),
            Ok(value) => {
                let (mut idx, handle) = self.lock.acquire_write();
                idx.insert(key, value);
                handle.release_write(idx);
                Ok(())
            },
        }
    }

    /// Number of distinct keys currently indexed. Never fails under this
    /// blocking guard.
    pub fn len(&self) -> (r: Result<usize, IndexError>)
        ensures
            r is Ok,
    {
        let handle = self.lock.acquire_read();
        let n = handle.borrow().len();
        handle.release_read();
        Ok(n)
    }

    /// All values stored under keys within the configured distance of `key`,
    /// flattened in entry order, as deep copies of the guarded state: some
    /// well-formed table of entries, searched with this index's
    /// configuration. Never fails under this blocking guard.
    pub fn fuzzy_search(&self, key: &str) -> (r: Result<Vec<SupportedTerm>, IndexError>)
        ensures
            r is Ok,
            r matches Ok(v) ==> exists|es: Seq<(Seq<char>, Seq<TermView>)>|
                wf_entries(es) && seq_term_view(v@) == search_hits(
                    es,
                    key@,
                    self.dist_spec(),
                    self.transp_spec(),
                ),
    {
        proof {
            use_type_invariant(self);
        }
        let handle = self.lock.acquire_read();
        let idx = handle.borrow();
        let out = idx.fuzzy_search(key);
        proof {
            lemma_wf_entries(idx);
            let es = idx.entries_view();
            assert(wf_entries(es) && seq_term_view(out@) == search_hits(
                es,
                key@,
                self.dist_spec(),
                self.transp_spec(),
            ));
        }
        handle.release_read();
        Ok(out)
    }

    /// All values stored under keys of which `key` is a fuzzy prefix within
    /// the configured distance, flattened in entry order, as deep copies of
    /// the guarded state. Never fails under this blocking guard.
    pub fn prefix_fuzzy_search(&self, key: &str) -> (r: Result<Vec<SupportedTerm>, IndexError>)
        ensures
            r is Ok,
            r matches Ok(v) ==> exists|es: Seq<(Seq<char>, Seq<TermView>)>|
                wf_entries(es) && seq_term_view(v@) == prefix_search_hits(
                    es,
                    key@,
                    self.dist_spec(),
                    self.transp_spec(),
                ),
    {
        proof {
            use_type_invariant(self);
        }
        let handle = self.lock.acquire_read();
        let idx = handle.borrow();
        let out = idx.prefix_fuzzy_search(key);
        proof {
            lemma_wf_entries(idx);
            let es = idx.entries_view();
            assert(wf_entries(es) && seq_term_view(out@) == prefix_search_hits(
                es,
                key@,
                self.dist_spec(),
                self.transp_spec(),
            ));
        }
        handle.release_read();
        Ok(out)
    }
}

} // verus!
