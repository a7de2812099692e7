use crate::edit_distance::edit_dist;
use crate::edit_distance::key_within_edits;
use crate::edit_distance::prefix_edit_within;
use crate::edit_distance::prefix_within_edits;
use crate::supported_term::SupportedTerm;
use crate::supported_term::TermView;
use crate::supported_term::lemma_seq_term_view;
use crate::supported_term::lemma_term_order_equal_iff;
use crate::supported_term::lemma_term_order_flip;
use crate::supported_term::lemma_term_order_transitive;
use crate::supported_term::seq_term_view;
use crate::supported_term::term_cmp;
use crate::supported_term::term_view;
use core::cmp::Ordering;
use vstd::prelude::*;
use vstd::string::StrSliceExecFns;

verus! {

/// One indexed key with its ordered, deduplicated collection of values.
struct IndexEntry {
    key: Vec<char>,
    values: Vec<SupportedTerm>,
}

/// The matching engine: maps string keys to ordered sets of values and
/// answers bounded edit-distance queries against the stored keys.
pub struct FuzzyIndex {
    distance: u8,
    transpositions: bool,
    entries: Vec<IndexEntry>,
}

/// Strictly ascending in the term order; in particular free of duplicates.
pub open spec fn sorted_unique(s: Seq<TermView>) -> bool {
    forall|i: int, j: int| 0 <= i < j < s.len() ==> term_cmp(s[i], s[j]) == Ordering::Less
}

/// Where the ordered collection `s` places a new value `v`: before the first
/// element above it, swallowed if an equal element is already present.
pub open spec fn insert_term_sorted(s: Seq<TermView>, v: TermView) -> Seq<TermView>
    decreases s.len(),
{
    if s.len() == 0 {
        seq![v]
    } else if term_cmp(v, s[0]) == Ordering::Less {
        seq![v] + s
    } else if term_cmp(v, s[0]) == Ordering::Equal {
        s
    } else {
        seq![s[0]] + insert_term_sorted(s.drop_first(), v)
    }
}

/// Index of the entry holding key `k`, or `-1` when no entry does.
pub open spec fn index_of_key(es: Seq<(Seq<char>, Seq<TermView>)>, k: Seq<char>) -> int
    decreases es.len(),
{
    if es.len() == 0 {
        -1
    } else if es[0].0 == k {
        0
    } else {
        let r = index_of_key(es.drop_first(), k);
        if r == -1 {
            -1
        } else {
            r + 1
        }
    }
}

pub proof fn lemma_index_of_key(es: Seq<(Seq<char>, Seq<TermView>)>, k: Seq<char>)
    ensures
        index_of_key(es, k) == -1 ==> forall|i: int| 0 <= i < es.len() ==> (#[trigger] es[i]).0
            != k,
        index_of_key(es, k) != -1 ==> {
            &&& 0 <= index_of_key(es, k) < es.len()
            &&& es[index_of_key(es, k)].0 == k
            &&& forall|i: int| 0 <= i < index_of_key(es, k) ==> (#[trigger] es[i]).0 != k
        },
    decreases es.len(),
{
    if es.len() > 0 {
        lemma_index_of_key(es.drop_first(), k);
        if es[0].0 != k {
            if index_of_key(es, k) == -1 {
                assert forall|i: int| 0 <= i < es.len() implies (#[trigger] es[i]).0 != k by {
                    if i > 0 {
                        assert(es.drop_first()[i - 1] == es[i]);
                    }
                }
            } else {
                assert(es.drop_first()[index_of_key(es, k) - 1] == es[index_of_key(es, k)]);
                assert forall|i: int| 0 <= i < index_of_key(es, k) implies (#[trigger] es[i]).0
                    != k by {
                    if i > 0 {
                        assert(es.drop_first()[i - 1] == es[i]);
                    }
                }
            }
        }
    }
}

/// All values stored under keys within `d` edits of `q`, in entry order and,
/// within one entry, in the collection's order.
pub open spec fn search_hits(
    es: Seq<(Seq<char>, Seq<TermView>)>,
    q: Seq<char>,
    d: nat,
    tr: bool,
) -> Seq<TermView>
    decreases es.len(),
{
    if es.len() == 0 {
        Seq::empty()
    } else {
        let front = search_hits(es.drop_last(), q, d, tr);
        if edit_dist(q, es.last().0, tr) <= d {
            front + es.last().1
        } else {
            front
        }
    }
}

/// As [`search_hits`], but a key matches when `q` is within `d` edits of one
/// of its prefixes.
pub open spec fn prefix_search_hits(
    es: Seq<(Seq<char>, Seq<TermView>)>,
    q: Seq<char>,
    d: nat,
    tr: bool,
) -> Seq<TermView>
    decreases es.len(),
{
    if es.len() == 0 {
        Seq::empty()
    } else {
        let front = prefix_search_hits(es.drop_last(), q, d, tr);
        if prefix_edit_within(q, es.last().0, d, tr) {
            front + es.last().1
        } else {
            front
        }
    }
}

impl FuzzyIndex {
    /// Configured edit-distance bound.
    pub closed spec fn dist_spec(&self) -> nat {
        self.distance as nat
    }

    /// Whether a transposition counts as a single edit.
    pub closed spec fn transp_spec(&self) -> bool {
        self.transpositions
    }

    /// The stored entries: each key with its value collection, in insertion
    /// order of the keys.
    pub closed spec fn entries_view(&self) -> Seq<(Seq<char>, Seq<TermView>)> {
        Seq::new(
            self.entries@.len(),
            |i: int| (self.entries@[i].key@, seq_term_view(self.entries@[i].values@)),
        )
    }

    /// Well-formed: no two entries share a key, and every value collection
    /// is strictly ordered (hence deduplicated).
    pub closed spec fn wf(&self) -> bool {
        &&& forall|i: int, j: int|
            0 <= i < j < self.entries@.len() ==> (#[trigger] self.entries@[i].key@) != (
            #[trigger] self.entries@[j].key@)
        &&& forall|i: int|
            0 <= i < self.entries@.len() ==> sorted_unique(
                seq_term_view(#[trigger] self.entries@[i].values@),
            )
    }

    /// A fresh, empty index with the given matching configuration.
    pub fn new(distance: u8, transpositions: bool) -> (r: FuzzyIndex)
        ensures
            r.wf(),
            r.entries_view() =~= Seq::<(Seq<char>, Seq<TermView>)>::empty(),
            r.dist_spec() == distance as nat,
            r.transp_spec() == transpositions,
    {
        FuzzyIndex { distance, transpositions, entries: Vec::new() }
    }

    /// Number of distinct keys currently indexed.
    pub fn len(&self) -> (r: usize)
        ensures
            r == self.entries_view().len(),
    {
        self.entries.len()
    }

    /// Store `value` under `key`: finds or creates the key's entry and adds
    /// the value to its ordered collection, where an equal value already
    /// present leaves the collection unchanged.
    #[verifier::loop_isolation(false)]
    pub fn insert(&mut self, key: &str, value: SupportedTerm)
        ensures
            old(self).wf() ==> final(self).wf(),
            final(self).dist_spec() == old(self).dist_spec(),
            final(self).transp_spec() == old(self).transp_spec(),
            ({
                let es = old(self).entries_view();
                let idx = index_of_key(es, key@);
                if idx == -1 {
                    final(self).entries_view() =~= es.push((key@, seq![value@]))
                } else {
                    final(self).entries_view() =~= es.update(
                        idx,
                        (key@, insert_term_sorted(es[idx].1, value@)),
                    )
                }
            }),
    {
        proof {
            lemma_index_of_key(old(self).entries_view(), key@);
        }
        let ghost es = old(self).entries_view();
        let mut i: usize = 0;
        while i < self.entries.len()
            invariant
                *self == *old(self),
                es == old(self).entries_view(),
                es.len() == self.entries@.len(),
                i <= self.entries@.len(),
                forall|j: int| 0 <= j < i ==> (#[trigger] self.entries@[j].key@) != key@,
            decreases self.entries@.len() - i,
        {
            if chars_eq_str(&self.entries[i].key, key) {
                let ghost before = self.entries@;
                proof {
                    assert(es[i as int] == (before[i as int].key@, seq_term_view(
                        before[i as int].values@,
                    )));
                    assert(es[i as int].0 == key@);
                    assert forall|j: int| 0 <= j < i implies (#[trigger] es[j]).0 != key@ by {
                        assert(es[j] == (before[j].key@, seq_term_view(before[j].values@)));
                    }
                    if index_of_key(es, key@) == -1 {
                        assert(es[i as int].0 != key@);
                    }
                    assert(index_of_key(es, key@) == i as int);
                    if old(self).wf() {
                        assert(sorted_unique(seq_term_view(before[i as int].values@)));
                    }
                }
                let mut entry = self.entries.remove(i);
                proof {
                    before.remove_ensures(i as int);
                    if old(self).wf() {
                        lemma_term_sorted_of(seq_term_view(entry.values@), value@);
                    }
                }
                insert_sorted_vec(&mut entry.values, value);
                let ghost newentry = entry;
                self.entries.insert(i, entry);
                proof {
                    before.remove(i as int).insert_ensures(i as int, newentry);
                    assert(self.entries@.len() == before.len());
                    assert(self.entries@[i as int] == newentry);
                    assert forall|k: int|
                        0 <= k < before.len() && k != i as int implies self.entries@[k] == before[k] by {
                        if k > i as int {
                            assert(self.entries@[k] == before.remove(i as int)[k - 1]);
                        }
                    }
                    assert(newentry.key@ == key@);
                    assert(seq_term_view(newentry.values@) == insert_term_sorted(
                        es[i as int].1,
                        value@,
                    ));
                    assert forall|k: int|
                        0 <= k < self.entries@.len() implies (#[trigger] self.entries@[k].key@)
                        == before[k].key@ by {}
                    if old(self).wf() {
                        assert forall|k: int|
                            0 <= k < self.entries@.len() implies sorted_unique(
                            seq_term_view(#[trigger] self.entries@[k].values@),
                        ) by {
                            if k != i as int {
                                assert(self.entries@[k] == before[k]);
                            }
                        }
                    }
                    assert(self.entries_view() =~= es.update(
                        i as int,
                        (key@, insert_term_sorted(es[i as int].1, value@)),
                    ));
                }
                return ;
            }
            i = i + 1;
        }
        proof {
            assert forall|j: int| 0 <= j < es.len() implies (#[trigger] es[j]).0 != key@ by {
                assert(es[j].0 == self.entries@[j].key@);
            }
            if index_of_key(es, key@) != -1 {
                assert(es[index_of_key(es, key@)].0 == key@);
            }
        }
        let ghost before = self.entries@;
        let kv = str_to_chars(key);
        let mut values: Vec<SupportedTerm> = Vec::new();
        values.push(value);
        self.entries.push(IndexEntry { key: kv, values });
        proof {
            let last = self.entries@[before.len() as int];
            lemma_seq_term_view(last.values@);
            assert(seq_term_view(last.values@) =~= seq![value@]);
            assert forall|k: int|
                0 <= k < before.len() implies self.entries@[k] == before[k] by {}
            if old(self).wf() {
                assert forall|i2: int, j2: int|
                    0 <= i2 < j2 < self.entries@.len() implies (#[trigger] self.entries@[i2].key@)
                    != (#[trigger] self.entries@[j2].key@) by {
                    if j2 == before.len() as int {
                        assert(self.entries@[i2].key@ != key@);
                    }
                }
                assert forall|k: int|
                    0 <= k < self.entries@.len() implies sorted_unique(
                    seq_term_view(#[trigger] self.entries@[k].values@),
                ) by {
                    if k < before.len() as int {
                        assert(self.entries@[k] == before[k]);
                    }
                }
            }
            assert(self.entries_view() =~= es.push((key@, seq![value@])));
        }
    }

    /// All values stored under keys within the configured distance of
    /// `query`, flattened in entry order; each returned value is a deep copy.
    #[verifier::loop_isolation(false)]
    pub fn fuzzy_search(&self, query: &str) -> (r: Vec<SupportedTerm>)
        ensures
            seq_term_view(r@) == search_hits(
                self.entries_view(),
                query@,
                self.dist_spec(),
                self.transp_spec(),
            ),
    {
        let q = str_to_chars(query);
        let mut out: Vec<SupportedTerm> = Vec::new();
        let mut i: usize = 0;
        while i < self.entries.len()
            invariant
                i <= self.entries@.len(),
                q@ == query@,
                seq_term_view(out@) == search_hits(
                    self.entries_view().take(i as int),
                    query@,
                    self.dist_spec(),
                    self.transp_spec(),
                ),
            decreases self.entries@.len() - i,
        {
            let ghost prev = self.entries_view().take(i as int);
            let hit = key_within_edits(&q, &self.entries[i].key, self.distance, self.transpositions);
            if hit {
                append_clones(&mut out, &self.entries[i].values);
            }
            proof {
                let cur = self.entries_view().take(i as int + 1);
                assert(cur.drop_last() =~= prev);
                assert(cur.last() == self.entries_view()[i as int]);
            }
            i = i + 1;
        }
        proof {
            assert(self.entries_view().take(self.entries@.len() as int) =~= self.entries_view());
        }
        out
    }

    /// All values stored under keys of which `query` is a fuzzy prefix
    /// within the configured distance, flattened in entry order.
    #[verifier::loop_isolation(false)]
    pub fn prefix_fuzzy_search(&self, query: &str) -> (r: Vec<SupportedTerm>)
        ensures
            seq_term_view(r@) == prefix_search_hits(
                self.entries_view(),
                query@,
                self.dist_spec(),
                self.transp_spec(),
            ),
    {
        let q = str_to_chars(query);
        let mut out: Vec<SupportedTerm> = Vec::new();
        let mut i: usize = 0;
        while i < self.entries.len()
            invariant
                i <= self.entries@.len(),
                q@ == query@,
                seq_term_view(out@) == prefix_search_hits(
                    self.entries_view().take(i as int),
                    query@,
                    self.dist_spec(),
                    self.transp_spec(),
                ),
            decreases self.entries@.len() - i,
        {
            let ghost prev = self.entries_view().take(i as int);
            let hit = prefix_within_edits(
                &q,
                &self.entries[i].key,
                self.distance,
                self.transpositions,
            );
            if hit {
                append_clones(&mut out, &self.entries[i].values);
            }
            proof {
                let cur = self.entries_view().take(i as int + 1);
                assert(cur.drop_last() =~= prev);
                assert(cur.last() == self.entries_view()[i as int]);
            }
            i = i + 1;
        }
        proof {
            assert(self.entries_view().take(self.entries@.len() as int) =~= self.entries_view());
        }
        out
    }
}

/// A table of entries as a well-formed index holds it: no two entries share
/// a key, and every value collection is strictly ordered.
pub open spec fn wf_entries(es: Seq<(Seq<char>, Seq<TermView>)>) -> bool {
    &&& forall|i: int, j: int|
        0 <= i < j < es.len() ==> (#[trigger] es[i]).0 != (#[trigger] es[j]).0
    &&& forall|i: int| 0 <= i < es.len() ==> sorted_unique((#[trigger] es[i]).1)
}

/// A well-formed index holds a well-formed table. In particular no two
/// entries share a key, so the entry count is the number of distinct keys,
/// however many values each key holds.
pub proof fn lemma_wf_entries(idx: &FuzzyIndex)
    requires
        idx.wf(),
    ensures
        wf_entries(idx.entries_view()),
{
    let es = idx.entries_view();
    assert forall|i: int, j: int| 0 <= i < j < es.len() implies (#[trigger] es[i]).0 != (
    #[trigger] es[j]).0 by {}
    assert forall|i: int| 0 <= i < es.len() implies sorted_unique((#[trigger] es[i]).1) by {}
}

/// Ordered insertion keeps the collection strictly ordered, makes the value
/// present, adds nothing else, and is a no-op when an equal value is already
/// present — so inserting the same value twice leaves a single copy.
#[verifier::rlimit(40)]
pub proof fn lemma_term_sorted_of(s: Seq<TermView>, v: TermView)
    requires
        sorted_unique(s),
    ensures
        sorted_unique(insert_term_sorted(s, v)),
        insert_term_sorted(s, v).contains(v),
        forall|w: TermView| #[trigger]
            insert_term_sorted(s, v).contains(w) <==> (s.contains(w) || w == v),
        s.contains(v) ==> insert_term_sorted(s, v) == s,
        !s.contains(v) ==> insert_term_sorted(s, v).len() == s.len() + 1,
    decreases s.len(),
{
    let ins = insert_term_sorted(s, v);
    if s.len() == 0 {
        assert(ins == seq![v]);
        assert(ins[0] == v);
        assert forall|w: TermView| #[trigger] ins.contains(w) implies (s.contains(w) || w == v) by {
            let k = choose|k: int| 0 <= k < ins.len() && ins[k] == w;
            assert(ins[k] == v);
        }
    } else if term_cmp(v, s[0]) == Ordering::Less {
        assert(ins == seq![v] + s);
        lemma_term_order_equal_iff(v, s[0]);
        assert forall|i: int, j: int| 0 <= i < j < ins.len() implies term_cmp(ins[i], ins[j])
            == Ordering::Less by {
            if i == 0 {
                if j == 1 {
                    assert(ins[j] == s[0]);
                } else {
                    lemma_term_order_transitive(v, s[0], s[j - 1]);
                }
            } else {
                assert(ins[i] == s[i - 1] && ins[j] == s[j - 1]);
            }
        }
        assert(ins[0] == v);
        assert forall|w: TermView| #[trigger] ins.contains(w) implies (s.contains(w) || w == v) by {
            let k = choose|k: int| 0 <= k < ins.len() && ins[k] == w;
            if k > 0 {
                assert(s[k - 1] == w);
            }
        }
        assert forall|w: TermView| (s.contains(w) || w == v) implies #[trigger] ins.contains(
            w,
        ) by {
            if s.contains(w) {
                let k = choose|k: int| 0 <= k < s.len() && s[k] == w;
                assert(ins[k + 1] == w);
            } else {
                assert(ins[0] == w);
            }
        }
        if s.contains(v) {
            let k = choose|k: int| 0 <= k < s.len() && s[k] == v;
            if k > 0 {
                lemma_term_order_transitive(v, s[0], s[k]);
                lemma_term_order_equal_iff(v, s[k]);
            } else {
                lemma_term_order_equal_iff(v, s[0]);
            }
            assert(false);
        }
    } else if term_cmp(v, s[0]) == Ordering::Equal {
        lemma_term_order_equal_iff(v, s[0]);
        assert(s[0] == v);
        assert(s.contains(v));
    } else {
        let tail = s.drop_first();
        assert forall|i: int, j: int| 0 <= i < j < tail.len() implies term_cmp(
            #[trigger] tail[i],
            #[trigger] tail[j],
        ) == Ordering::Less by {
            assert(tail[i] == s[i + 1] && tail[j] == s[j + 1]);
        }
        lemma_term_sorted_of(tail, v);
        let tins = insert_term_sorted(tail, v);
        assert(ins == seq![s[0]] + tins);
        lemma_term_order_flip(v, s[0]);
        lemma_term_order_equal_iff(v, s[0]);
        assert(term_cmp(s[0], v) == Ordering::Less);
        assert forall|i: int, j: int| 0 <= i < j < ins.len() implies term_cmp(ins[i], ins[j])
            == Ordering::Less by {
            if i == 0 {
                let w = ins[j];
                assert(tins[j - 1] == w);
                assert(tins.contains(w));
                if w == v {
                    assert(term_cmp(s[0], v) == Ordering::Less);
                } else {
                    let m = choose|m: int| 0 <= m < tail.len() && tail[m] == w;
                    assert(tail[m] == s[m + 1]);
                    assert(term_cmp(s[0], s[m + 1]) == Ordering::Less);
                }
            } else {
                assert(ins[i] == tins[i - 1] && ins[j] == tins[j - 1]);
            }
        }
        assert(tins.contains(v));
        assert forall|w: TermView| #[trigger] ins.contains(w) implies (s.contains(w) || w == v) by {
            let k = choose|k: int| 0 <= k < ins.len() && ins[k] == w;
            if k == 0 {
                assert(s[0] == w);
            } else {
                assert(tins[k - 1] == w);
                assert(tins.contains(w));
                if w != v {
                    let m = choose|m: int| 0 <= m < tail.len() && tail[m] == w;
                    assert(s[m + 1] == w);
                }
            }
        }
        assert forall|w: TermView| (s.contains(w) || w == v) implies #[trigger] ins.contains(
            w,
        ) by {
            if w == v || tail.contains(w) {
                assert(tins.contains(w));
                let m = choose|m: int| 0 <= m < tins.len() && tins[m] == w;
                assert(ins[m + 1] == w);
            } else {
                let k = choose|k: int| 0 <= k < s.len() && s[k] == w;
                if k == 0 {
                    assert(ins[0] == w);
                } else {
                    assert(tail[k - 1] == w);
                    assert(false);
                }
            }
        }
        let kv = choose|k: int| 0 <= k < tins.len() && tins[k] == v;
        assert(ins[kv + 1] == v);
        assert(ins.contains(v));
        if s.contains(v) {
            assert(s[0] != v);
            let k = choose|k: int| 0 <= k < s.len() && s[k] == v;
            assert(tail[k - 1] == v);
            assert(tail.contains(v));
            assert(tins == tail);
            assert(ins =~= s);
        } else {
            if tail.contains(v) {
                let k = choose|k: int| 0 <= k < tail.len() && tail[k] == v;
                assert(s[k + 1] == v);
                assert(false);
            }
        }
    }
}

/// A value comes out of a whole-key search exactly when some entry's key is
/// within `d` edits of the query and that entry's collection holds it.
pub proof fn lemma_search_hits_membership(
    es: Seq<(Seq<char>, Seq<TermView>)>,
    q: Seq<char>,
    d: nat,
    tr: bool,
    w: TermView,
)
    ensures
        search_hits(es, q, d, tr).contains(w) <==> exists|i: int|
            0 <= i < es.len() && edit_dist(q, (#[trigger] es[i]).0, tr) <= d && es[i].1.contains(
                w,
            ),
    decreases es.len(),
{
    if es.len() > 0 {
        lemma_search_hits_membership(es.drop_last(), q, d, tr, w);
        let front = search_hits(es.drop_last(), q, d, tr);
        let hit = edit_dist(q, es.last().0, tr) <= d;
        if search_hits(es, q, d, tr).contains(w) {
            let k = choose|k: int|
                0 <= k < search_hits(es, q, d, tr).len() && search_hits(es, q, d, tr)[k] == w;
            if hit && k >= front.len() {
                assert(es.last().1[k - front.len()] == w);
                assert(es.last().1.contains(w));
                assert(es[es.len() - 1].0 == es.last().0);
            } else {
                assert(front[k] == w);
                assert(front.contains(w));
                let i = choose|i: int|
                    0 <= i < es.drop_last().len() && edit_dist(
                        q,
                        (#[trigger] es.drop_last()[i]).0,
                        tr,
                    ) <= d && es.drop_last()[i].1.contains(w);
                assert(es[i] == es.drop_last()[i]);
            }
        }
        if exists|i: int|
            0 <= i < es.len() && edit_dist(q, (#[trigger] es[i]).0, tr) <= d && es[i].1.contains(
                w,
            ) {
            let i = choose|i: int|
                0 <= i < es.len() && edit_dist(q, (#[trigger] es[i]).0, tr) <= d
                    && es[i].1.contains(w);
            if i == es.len() - 1 {
                let k = choose|k: int| 0 <= k < es.last().1.len() && es.last().1[k] == w;
                assert(search_hits(es, q, d, tr)[front.len() + k] == w);
            } else {
                assert(es.drop_last()[i] == es[i]);
                assert(front.contains(w));
                let k = choose|k: int| 0 <= k < front.len() && front[k] == w;
                assert(search_hits(es, q, d, tr)[k] == w);
            }
        }
    }
}

/// What was just stored is found: take any well-formed table of entries,
/// store `v` under `key` as [`FuzzyIndex::insert`] describes, and a
/// whole-key search whose query is within `d` edits of `key` returns a
/// sequence holding `v`.
pub proof fn lemma_inserted_value_is_found(
    es: Seq<(Seq<char>, Seq<TermView>)>,
    key: Seq<char>,
    v: TermView,
    q: Seq<char>,
    d: nat,
    tr: bool,
)
    requires
        index_of_key(es, key) != -1 ==> sorted_unique(es[index_of_key(es, key)].1),
        edit_dist(q, key, tr) <= d,
    ensures
        ({
            let idx = index_of_key(es, key);
            let es2 = if idx == -1 {
                es.push((key, seq![v]))
            } else {
                es.update(idx, (key, insert_term_sorted(es[idx].1, v)))
            };
            search_hits(es2, q, d, tr).contains(v)
        }),
{
    let idx = index_of_key(es, key);
    lemma_index_of_key(es, key);
    if idx == -1 {
        let es2 = es.push((key, seq![v]));
        lemma_search_hits_membership(es2, q, d, tr, v);
        assert(es2[es.len() as int].0 == key);
        assert(es2[es.len() as int].1[0] == v);
        assert(es2[es.len() as int].1.contains(v));
    } else {
        let es2 = es.update(idx, (key, insert_term_sorted(es[idx].1, v)));
        lemma_term_sorted_of(es[idx].1, v);
        lemma_search_hits_membership(es2, q, d, tr, v);
        assert(es2[idx].0 == key);
        assert(es2[idx].1.contains(v));
    }
}

/// As [`lemma_search_hits_membership`], for prefix search: a value comes out
/// exactly when the query is a fuzzy prefix of some entry's key and that
/// entry's collection holds it.
pub proof fn lemma_prefix_search_hits_membership(
    es: Seq<(Seq<char>, Seq<TermView>)>,
    q: Seq<char>,
    d: nat,
    tr: bool,
    w: TermView,
)
    ensures
        prefix_search_hits(es, q, d, tr).contains(w) <==> exists|i: int|
            0 <= i < es.len() && prefix_edit_within(q, (#[trigger] es[i]).0, d, tr)
                && es[i].1.contains(w),
    decreases es.len(),
{
    if es.len() > 0 {
        lemma_prefix_search_hits_membership(es.drop_last(), q, d, tr, w);
        let front = prefix_search_hits(es.drop_last(), q, d, tr);
        let hit = prefix_edit_within(q, es.last().0, d, tr);
        if prefix_search_hits(es, q, d, tr).contains(w) {
            let k = choose|k: int|
                0 <= k < prefix_search_hits(es, q, d, tr).len() && prefix_search_hits(
                    es,
                    q,
                    d,
                    tr,
                )[k] == w;
            if hit && k >= front.len() {
                assert(es.last().1[k - front.len()] == w);
                assert(es.last().1.contains(w));
                assert(es[es.len() - 1].0 == es.last().0);
            } else {
                assert(front[k] == w);
                assert(front.contains(w));
                let i = choose|i: int|
                    0 <= i < es.drop_last().len() && prefix_edit_within(
                        q,
                        (#[trigger] es.drop_last()[i]).0,
                        d,
                        tr,
                    ) && es.drop_last()[i].1.contains(w);
                assert(es[i] == es.drop_last()[i]);
            }
        }
        if exists|i: int|
            0 <= i < es.len() && prefix_edit_within(q, (#[trigger] es[i]).0, d, tr)
                && es[i].1.contains(w) {
            let i = choose|i: int|
                0 <= i < es.len() && prefix_edit_within(q, (#[trigger] es[i]).0, d, tr)
                    && es[i].1.contains(w);
            if i == es.len() - 1 {
                let k = choose|k: int| 0 <= k < es.last().1.len() && es.last().1[k] == w;
                assert(prefix_search_hits(es, q, d, tr)[front.len() + k] == w);
            } else {
                assert(es.drop_last()[i] == es[i]);
                assert(front.contains(w));
                let k = choose|k: int| 0 <= k < front.len() && front[k] == w;
                assert(prefix_search_hits(es, q, d, tr)[k] == w);
            }
        }
    }
}

/// As [`lemma_inserted_value_is_found`], for prefix search: after the
/// insert, a prefix search whose query is a fuzzy prefix of `key` within `d`
/// edits returns a sequence holding `v`.
pub proof fn lemma_inserted_value_is_found_by_prefix(
    es: Seq<(Seq<char>, Seq<TermView>)>,
    key: Seq<char>,
    v: TermView,
    q: Seq<char>,
    d: nat,
    tr: bool,
)
    requires
        index_of_key(es, key) != -1 ==> sorted_unique(es[index_of_key(es, key)].1),
        prefix_edit_within(q, key, d, tr),
    ensures
        ({
            let idx = index_of_key(es, key);
            let es2 = if idx == -1 {
                es.push((key, seq![v]))
            } else {
                es.update(idx, (key, insert_term_sorted(es[idx].1, v)))
            };
            prefix_search_hits(es2, q, d, tr).contains(v)
        }),
{
    let idx = index_of_key(es, key);
    lemma_index_of_key(es, key);
    if idx == -1 {
        let es2 = es.push((key, seq![v]));
        lemma_prefix_search_hits_membership(es2, q, d, tr, v);
        assert(es2[es.len() as int].0 == key);
        assert(es2[es.len() as int].1[0] == v);
        assert(es2[es.len() as int].1.contains(v));
    } else {
        let es2 = es.update(idx, (key, insert_term_sorted(es[idx].1, v)));
        lemma_term_sorted_of(es[idx].1, v);
        lemma_prefix_search_hits_membership(es2, q, d, tr, v);
        assert(es2[idx].0 == key);
        assert(es2[idx].1.contains(v));
    }
}

/// Inserting a value that is already present changes nothing, so inserting
/// the same value twice under one key leaves exactly one copy of it.
pub proof fn lemma_insert_twice_is_once(s: Seq<TermView>, v: TermView)
    requires
        sorted_unique(s),
    ensures
        insert_term_sorted(insert_term_sorted(s, v), v) == insert_term_sorted(s, v),
{
    lemma_term_sorted_of(s, v);
    lemma_term_sorted_of(insert_term_sorted(s, v), v);
}

/// Place `value` in the strictly ordered collection `values`, per
/// [`insert_term_sorted`] on the models.
#[verifier::loop_isolation(false)]
fn insert_sorted_vec(values: &mut Vec<SupportedTerm>, value: SupportedTerm)
    ensures
        seq_term_view(final(values)@) == insert_term_sorted(seq_term_view(old(values)@), value@),
{
    proof {
        lemma_seq_term_view(old(values)@);
    }
    let ghost sv = seq_term_view(old(values)@);
    let mut i: usize = 0;
    while i < values.len()
        invariant
            values@ == old(values)@,
            i <= values@.len(),
            sv == seq_term_view(values@),
            sv.len() == values@.len(),
            forall|j: int| 0 <= j < values@.len() ==> sv[j] == term_view(#[trigger] values@[j]),
            forall|j: int| 0 <= j < i ==> term_cmp(value@, sv[j]) == Ordering::Greater,
        decreases values@.len() - i,
    {
        let c = value.cmp(&values[i]);
        match c {
            Ordering::Less => {
                let ghost cur = values@;
                values.insert(i, value);
                proof {
                    lemma_insert_sorted_at(sv, value@, i as int);
                    cur.insert_ensures(i as int, value);
                    sv.insert_ensures(i as int, value@);
                    lemma_seq_term_view(values@);
                    assert forall|k: int|
                        0 <= k < values@.len() implies seq_term_view(values@)[k] == sv.insert(
                        i as int,
                        value@,
                    )[k] by {
                        if k < i as int {
                            assert(values@[k] == cur[k]);
                        } else if k > i as int {
                            assert(values@[k] == cur[k - 1]);
                            assert(sv.insert(i as int, value@)[k] == sv[k - 1]);
                        } else {
                            assert(values@[k] == value);
                        }
                    }
                    assert(seq_term_view(values@) =~= sv.insert(i as int, value@));
                }
                return ;
            },
            Ordering::Equal => {
                proof {
                    lemma_insert_sorted_at(sv, value@, i as int);
                }
                return ;
            },
            Ordering::Greater => {
                i = i + 1;
            },
        }
    }
    let ghost cur = values@;
    values.push(value);
    proof {
        lemma_insert_sorted_at(sv, value@, sv.len() as int);
        sv.insert_ensures(sv.len() as int, value@);
        lemma_seq_term_view(values@);
        assert forall|k: int|
            0 <= k < values@.len() implies seq_term_view(values@)[k] == sv.insert(
            sv.len() as int,
            value@,
        )[k] by {
            if k < sv.len() as int {
                assert(values@[k] == cur[k]);
            } else {
                assert(values@[k] == value);
            }
        }
        assert(seq_term_view(values@) =~= sv.insert(sv.len() as int, value@));
    }
}

/// Positional account of [`insert_term_sorted`]: when everything before `i`
/// is below `v`, the result either splices `v` in at `i` or, on an equal
/// element at `i`, is unchanged.
proof fn lemma_insert_sorted_at(s: Seq<TermView>, v: TermView, i: int)
    requires
        0 <= i <= s.len(),
        forall|j: int| 0 <= j < i ==> term_cmp(v, #[trigger] s[j]) == Ordering::Greater,
    ensures
        i < s.len() && term_cmp(v, s[i]) == Ordering::Equal ==> insert_term_sorted(s, v) == s,
        (i == s.len() || term_cmp(v, s[i]) == Ordering::Less) ==> insert_term_sorted(s, v)
            == s.insert(i, v),
    decreases s.len(),
{
    if i == 0 {
        if s.len() == 0 {
            assert(insert_term_sorted(s, v) =~= s.insert(0, v));
        } else if term_cmp(v, s[0]) == Ordering::Less {
            assert(insert_term_sorted(s, v) =~= s.insert(0, v));
        }
    } else {
        assert(term_cmp(v, s[0]) == Ordering::Greater);
        let tail = s.drop_first();
        assert forall|j: int| 0 <= j < i - 1 implies term_cmp(v, #[trigger] tail[j])
            == Ordering::Greater by {
            assert(tail[j] == s[j + 1]);
        }
        lemma_insert_sorted_at(tail, v, i - 1);
        if i < s.len() && term_cmp(v, s[i]) == Ordering::Equal {
            assert(tail[i - 1] == s[i]);
            assert(insert_term_sorted(s, v) =~= s);
        }
        if i == s.len() || term_cmp(v, s[i]) == Ordering::Less {
            if i < s.len() {
                assert(tail[i - 1] == s[i]);
            }
            assert(insert_term_sorted(s, v) =~= s.insert(i, v));
        }
    }
}

/// Append a deep copy of every element of `values` to `out`.
#[verifier::loop_isolation(false)]
fn append_clones(out: &mut Vec<SupportedTerm>, values: &Vec<SupportedTerm>)
    ensures
        seq_term_view(final(out)@) == seq_term_view(old(out)@) + seq_term_view(values@),
{
    proof {
        lemma_seq_term_view(values@);
        assert(seq_term_view(out@) =~= seq_term_view(old(out)@) + seq_term_view(values@).take(0));
    }
    let mut j: usize = 0;
    while j < values.len()
        invariant
            j <= values@.len(),
            seq_term_view(values@).len() == values@.len(),
            forall|k: int|
                0 <= k < values@.len() ==> seq_term_view(values@)[k] == term_view(
                    #[trigger] values@[k],
                ),
            seq_term_view(out@) == seq_term_view(old(out)@) + seq_term_view(values@).take(j as int),
        decreases values@.len() - j,
    {
        let ghost prev = out@;
        let t = values[j].deep_clone();
        out.push(t);
        proof {
            lemma_seq_term_view(prev);
            lemma_seq_term_view(out@);
            assert forall|k: int|
                0 <= k < out@.len() implies seq_term_view(out@)[k] == seq_term_view(prev).push(
                term_view(values@[j as int]),
            )[k] by {
                if k < prev.len() as int {
                    assert(out@[k] == prev[k]);
                } else {
                    assert(seq_term_view(out@)[k] == term_view(out@[k]));
                }
            }
            assert(seq_term_view(out@) =~= seq_term_view(prev).push(term_view(values@[j as int])));
            assert(seq_term_view(prev).push(term_view(values@[j as int])) =~= seq_term_view(
                old(out)@,
            ) + seq_term_view(values@).take(j as int + 1));
        }
        j = j + 1;
    }
    proof {
        assert(seq_term_view(values@).take(values@.len() as int) =~= seq_term_view(values@));
    }
}

/// Read a string out as its characters.
#[verifier::loop_isolation(false)]
pub fn str_to_chars(s: &str) -> (r: Vec<char>)
    ensures
        r@ == s@,
{
    let len = s.unicode_len();
    let mut r: Vec<char> = Vec::new();
    let mut i: usize = 0;
    while i < len
        invariant
            i <= len,
            len == s@.len(),
            r@.len() == i,
            forall|j: int| 0 <= j < i ==> r@[j] == s@[j],
        decreases len - i,
    {
        r.push(s.get_char(i));
        i = i + 1;
    }
    proof {
        assert(r@ =~= s@);
    }
    r
}

/// Whether the stored key characters spell exactly the string `s`.
#[verifier::loop_isolation(false)]
fn chars_eq_str(key: &Vec<char>, s: &str) -> (r: bool)
    ensures
        r == (key@ == s@),
{
    let len = s.unicode_len();
    if key.len() != len {
        return false;
    }
    let mut i: usize = 0;
    while i < len
        invariant
            i <= len,
            len == s@.len(),
            key@.len() == len,
            forall|j: int| 0 <= j < i ==> key@[j] == s@[j],
        decreases len - i,
    {
        if key[i] != s.get_char(i) {
            return false;
        }
        i = i + 1;
    }
    proof {
        assert(key@ =~= s@);
    }
    true
}

} // verus!
