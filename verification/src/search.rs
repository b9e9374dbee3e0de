//! The search engine: enumerates partitions of a letter pool into
//! dictionary signatures, walking the index entries in a fixed order and
//! never selecting an entry at a position before the one currently chosen,
//! so that each partition is produced through exactly one ordering.

use vstd::prelude::*;
use vstd::multiset::Multiset;
use crate::dict::Anagrammer;
use crate::dict::Entry;
use crate::dict::entry_wf;
use crate::dict::words_contain;
use crate::dict::dict_contains_pair;
use crate::dict::pool_pred;
use crate::sig::sorted_bytes;
use crate::sig::word_sig;
use crate::sig::subtract;
use crate::sig::insert_sorted;

verus! {

broadcast use vstd::seq_lib::group_to_multiset_ensures, vstd::multiset::group_multiset_axioms;

/// The character sequences of one result row.
pub open spec fn row_view(v: Vec<String>) -> Seq<Seq<char>> {
    Seq::new(v@.len(), |j: int| v@[j]@)
}

/// The letters covered by the signatures at index positions `ks`.
pub open spec fn keys_mult(entries: Seq<Entry>, ks: Seq<int>) -> Multiset<u8>
    decreases ks.len(),
{
    if ks.len() == 0 {
        Multiset::empty()
    } else {
        keys_mult(entries, ks.drop_last()).add(entries[ks.last()].key@.to_multiset())
    }
}

/// The signatures of the entries at index positions `ks`.
pub open spec fn key_seq(entries: Seq<Entry>, ks: Seq<int>) -> Seq<Seq<u8>> {
    Seq::new(ks.len(), |j: int| entries[ks[j]].key@)
}

/// The signatures of the words of a result row.
pub open spec fn sig_seq(r: Seq<Seq<char>>) -> Seq<Seq<u8>> {
    Seq::new(r.len(), |j: int| word_sig(r[j]))
}

/// The combined letter multiset of the words of a result row.
pub open spec fn sigs_mult(r: Seq<Seq<char>>) -> Multiset<u8>
    decreases r.len(),
{
    if r.len() == 0 {
        Multiset::empty()
    } else {
        sigs_mult(r.drop_last()).add(word_sig(r.last()).to_multiset())
    }
}

/// `ks` witnesses that the row `r` is a valid search tail: its words are
/// drawn from entries at non-increasing positions at or after `cursor`,
/// and their signatures together exhaust exactly the pool `pm`.
pub open spec fn tail_ok(
    entries: Seq<Entry>,
    cursor: int,
    pm: Multiset<u8>,
    r: Seq<Seq<char>>,
    ks: Seq<int>,
) -> bool {
    &&& ks.len() == r.len()
    &&& forall|j: int| 0 <= j < ks.len() ==> cursor <= #[trigger] ks[j] < entries.len()
    &&& forall|j: int| 0 <= j < ks.len() - 1 ==> #[trigger] ks[j] >= ks[j + 1]
    &&& forall|j: int| 0 <= j < ks.len() ==> words_contain(entries[ks[j]], #[trigger] r[j])
    &&& keys_mult(entries, ks) == pm
}

/// The row `r` is a valid search result for the given cursor, pool and
/// word-count bounds.
pub open spec fn result_ok(
    entries: Seq<Entry>,
    cursor: int,
    pm: Multiset<u8>,
    minwords: int,
    maxwords: int,
    r: Seq<Seq<char>>,
) -> bool {
    exists|ks: Seq<int>|
        tail_ok(entries, cursor, pm, r, ks) && minwords <= ks.len() && ks.len() <= maxwords
}

/// The floored decrement of the minimum word count.
pub open spec fn dec_min(m: int) -> int {
    if m == 0 {
        0
    } else {
        m - 1
    }
}

/// Every signature named by `ks` is non-empty.
pub open spec fn nonempty_keys(entries: Seq<Entry>, ks: Seq<int>) -> bool {
    forall|j: int| 0 <= j < ks.len() ==> entries[#[trigger] ks[j]].key@.len() > 0
}

/// The search owes the row `r` with witness `ks`: a valid tail within the
/// word-count bounds whose signatures are all non-empty.  (A witness that
/// names an empty signature is excluded: once a branch's pool is empty and
/// its minimum is met, the search closes the row rather than padding it
/// with empty-signature words.)
pub open spec fn covered(
    entries: Seq<Entry>,
    cursor: int,
    pm: Multiset<u8>,
    minwords: int,
    maxwords: int,
    r: Seq<Seq<char>>,
    ks: Seq<int>,
) -> bool {
    &&& tail_ok(entries, cursor, pm, r, ks)
    &&& minwords <= ks.len()
    &&& ks.len() <= maxwords
    &&& nonempty_keys(entries, ks)
}

/// Some row of `results` equals the tail `tails[tt]` extended by spelling
/// `wjj` of entry `i`.
pub open spec fn pair_covered(
    entries: Seq<Entry>,
    i: int,
    tails: Seq<Vec<String>>,
    results: Seq<Vec<String>>,
    tt: int,
    wjj: int,
) -> bool {
    exists|t2: int|
        0 <= t2 < results.len() && row_view(results[t2]) == row_view(tails[tt]).push(
            entries[i].words@[wjj]@,
        )
}

proof fn lemma_empty_seq_multiset(s: Seq<u8>)
    requires
        s.len() == 0,
    ensures
        s.to_multiset() =~= Multiset::<u8>::empty(),
{
    vstd::multiset::lemma_multiset_empty_len(s.to_multiset());
}

proof fn lemma_sub_add(m1: Multiset<u8>, m2: Multiset<u8>)
    requires
        m2.subset_of(m1),
    ensures
        m1.sub(m2).add(m2) =~= m1,
{
}

proof fn lemma_extend_tail(
    entries: Seq<Entry>,
    cursor: int,
    i: int,
    pm: Multiset<u8>,
    new_pm: Multiset<u8>,
    new_min: int,
    minwords: int,
    maxwords: int,
    tv: Seq<Seq<char>>,
    w: Seq<char>,
)
    requires
        0 <= cursor <= i < entries.len(),
        minwords <= maxwords,
        1 <= maxwords,
        new_min == (if minwords == 0 {
            0int
        } else {
            minwords - 1
        }),
        entries[i].key@.to_multiset().subset_of(pm),
        new_pm == pm.sub(entries[i].key@.to_multiset()),
        result_ok(entries, i, new_pm, new_min, maxwords - 1, tv),
        words_contain(entries[i], w),
    ensures
        result_ok(entries, cursor, pm, minwords, maxwords, tv.push(w)),
{
    let key_ms = entries[i].key@.to_multiset();
    let rv = tv.push(w);
    let ks0 = choose|ks0: Seq<int>|
        tail_ok(entries, i, new_pm, tv, ks0) && new_min <= ks0.len() && ks0.len() <= maxwords - 1;
    let ks = ks0.push(i);
    assert(ks.drop_last() =~= ks0);
    assert(ks.last() == i);
    assert(keys_mult(entries, ks) == keys_mult(entries, ks0).add(key_ms));
    lemma_sub_add(pm, key_ms);
    assert(keys_mult(entries, ks) =~= pm);
    assert forall|j: int| 0 <= j < ks.len() implies cursor <= #[trigger] ks[j] < entries.len() by {
        if j < ks0.len() {
            assert(i <= ks0[j] < entries.len());
        }
    }
    assert forall|j: int| 0 <= j < ks.len() - 1 implies #[trigger] ks[j] >= ks[j + 1] by {
        if j == ks0.len() - 1 {
            assert(ks0[j] >= i);
        }
    }
    assert forall|j: int| 0 <= j < ks.len() implies words_contain(entries[ks[j]], #[trigger] rv[j]) by {
        if j < ks0.len() {
            assert(rv[j] == tv[j]);
            assert(words_contain(entries[ks0[j]], tv[j]));
        }
    }
    assert(tail_ok(entries, cursor, pm, rv, ks));
    assert(minwords <= ks.len() && ks.len() <= maxwords);
}

proof fn lemma_keys_mult_empty(entries: Seq<Entry>, ks: Seq<int>)
    requires
        nonempty_keys(entries, ks),
        forall|j: int| 0 <= j < ks.len() ==> 0 <= #[trigger] ks[j] < entries.len(),
        keys_mult(entries, ks).len() == 0,
    ensures
        ks.len() == 0,
{
    if ks.len() > 0 {
        let key_ms = entries[ks.last()].key@.to_multiset();
        assert(ks.drop_last() =~= ks.drop_last());
        assert(keys_mult(entries, ks) == keys_mult(entries, ks.drop_last()).add(key_ms));
        assert(key_ms.len() == entries[ks.last()].key@.len());
        assert(keys_mult(entries, ks).len() == keys_mult(entries, ks.drop_last()).len()
            + key_ms.len());
        assert(false);
    }
}

/// Each signature named by a witness is a sub-multiset of the witness's
/// combined letters.
proof fn lemma_component_subset(entries: Seq<Entry>, ks: Seq<int>, j: int)
    requires
        0 <= j < ks.len(),
    ensures
        entries[ks[j]].key@.to_multiset().subset_of(keys_mult(entries, ks)),
    decreases ks.len(),
{
    let key_ms = entries[ks.last()].key@.to_multiset();
    let prev = keys_mult(entries, ks.drop_last());
    assert(keys_mult(entries, ks) == prev.add(key_ms));
    if j == ks.len() - 1 {
    } else {
        assert(ks.drop_last()[j] == ks[j]);
        lemma_component_subset(entries, ks.drop_last(), j);
    }
}

/// Peeling the last-chosen word off a covered row yields a row covered by
/// the branch that chose it.
proof fn lemma_tail_decompose(
    entries: Seq<Entry>,
    cursor: int,
    pm: Multiset<u8>,
    minwords: int,
    maxwords: int,
    r: Seq<Seq<char>>,
    ks: Seq<int>,
)
    requires
        covered(entries, cursor, pm, minwords, maxwords, r, ks),
        ks.len() > 0,
    ensures
        cursor <= ks.last() < entries.len(),
        entries[ks.last()].key@.to_multiset().subset_of(pm),
        covered(
            entries,
            ks.last(),
            pm.sub(entries[ks.last()].key@.to_multiset()),
            dec_min(minwords),
            maxwords - 1,
            r.drop_last(),
            ks.drop_last(),
        ),
        r == r.drop_last().push(r.last()),
        words_contain(entries[ks.last()], r.last()),
{
    let i = ks.last();
    let key_ms = entries[i].key@.to_multiset();
    let ks2 = ks.drop_last();
    let r2 = r.drop_last();
    assert(keys_mult(entries, ks) == keys_mult(entries, ks2).add(key_ms));
    lemma_component_subset(entries, ks, ks.len() - 1);
    assert(keys_mult(entries, ks2) =~= pm.sub(key_ms));
    assert forall|j: int| 0 <= j < ks2.len() implies i <= #[trigger] ks2[j] < entries.len() by {
        assert(ks2[j] == ks[j]);
        lemma_noninc_chain(ks, j, ks.len() - 1);
    }
    assert forall|j: int| 0 <= j < ks2.len() - 1 implies #[trigger] ks2[j] >= ks2[j + 1] by {
        assert(ks2[j] == ks[j] && ks2[j + 1] == ks[j + 1]);
    }
    assert forall|j: int| 0 <= j < ks2.len() implies words_contain(
        entries[ks2[j]],
        #[trigger] r2[j],
    ) by {
        assert(ks2[j] == ks[j] && r2[j] == r[j]);
        assert(words_contain(entries[ks[j]], r[j]));
    }
    assert forall|j: int| 0 <= j < ks2.len() implies entries[#[trigger] ks2[j]].key@.len() > 0 by {
        assert(ks2[j] == ks[j]);
        assert(entries[ks[j]].key@.len() > 0);
    }
    assert(r =~= r.drop_last().push(r.last()));
    assert(words_contain(entries[ks[ks.len() - 1]], r[ks.len() - 1]));
}

fn append_word(tail: &Vec<String>, word: &String) -> (r: Vec<String>)
    ensures
        r@.len() == tail@.len() + 1,
        forall|k: int| 0 <= k < tail@.len() ==> r@[k]@ == #[trigger] tail@[k]@,
        r@[tail@.len() as int]@ == word@,
{
    let mut r: Vec<String> = Vec::new();
    let mut j: usize = 0;
    while j < tail.len()
        invariant
            0 <= j <= tail@.len(),
            r@.len() == j,
            forall|k: int| 0 <= k < j ==> r@[k]@ == #[trigger] tail@[k]@,
        decreases tail@.len() - j,
    {
        r.push(tail[j].clone());
        j += 1;
    }
    r.push(word.clone());
    r
}

/// The position among the filter's survivors of the entry at `t`.
pub open spec fn filter_pos(s: Seq<Entry>, p: spec_fn(Entry) -> bool, t: int) -> int {
    s.take(t).filter(p).len() as int
}

proof fn lemma_filter_pos(s: Seq<Entry>, p: spec_fn(Entry) -> bool, t: int)
    requires
        0 <= t < s.len(),
        p(s[t]),
    ensures
        0 <= filter_pos(s, p, t) < s.filter(p).len(),
        s.filter(p)[filter_pos(s, p, t)] == s[t],
    decreases s.len(),
{
    reveal(Seq::filter);
    broadcast use vstd::seq_lib::group_filter_ensures;

    let t0 = s.drop_last();
    if t == s.len() - 1 {
        assert(s.take(t) =~= t0);
        assert(s.filter(p) == t0.filter(p).push(s[t]));
    } else {
        lemma_filter_pos(t0, p, t);
        assert(s.take(t) =~= t0.take(t));
        if p(s.last()) {
            assert(s.filter(p) == t0.filter(p).push(s.last()));
        } else {
            assert(s.filter(p) == t0.filter(p));
        }
    }
}

proof fn lemma_filter_pos_mono(s: Seq<Entry>, p: spec_fn(Entry) -> bool, t1: int, t2: int)
    requires
        0 <= t1 <= t2 <= s.len(),
    ensures
        s.take(t1).filter(p).len() <= s.take(t2).filter(p).len(),
    decreases t2 - t1,
{
    if t1 < t2 {
        lemma_filter_pos_mono(s, p, t1, t2 - 1);
        crate::dict::lemma_filter_take_step(s, t2 - 1, p);
    }
}

/// The entry named at each position is the same under both index sequences.
pub open spec fn same_entries(e1: Seq<Entry>, ks1: Seq<int>, e2: Seq<Entry>, ks2: Seq<int>, j: int) -> bool {
    &&& 0 <= ks1[j] < e1.len()
    &&& 0 <= ks2[j] < e2.len()
    &&& e1[ks1[j]] == e2[ks2[j]]
}

proof fn lemma_keys_mult_map(e1: Seq<Entry>, ks1: Seq<int>, e2: Seq<Entry>, ks2: Seq<int>)
    requires
        ks1.len() == ks2.len(),
        forall|j: int| 0 <= j < ks1.len() ==> #[trigger] same_entries(e1, ks1, e2, ks2, j),
    ensures
        keys_mult(e1, ks1) == keys_mult(e2, ks2),
    decreases ks1.len(),
{
    if ks1.len() > 0 {
        let t1 = ks1.drop_last();
        let t2 = ks2.drop_last();
        assert forall|j: int|
            0 <= j < t1.len() implies #[trigger] same_entries(e1, t1, e2, t2, j) by {
            assert(t1[j] == ks1[j] && t2[j] == ks2[j]);
            assert(same_entries(e1, ks1, e2, ks2, j));
        }
        let n: int = ks1.len() - 1;
        assert(same_entries(e1, ks1, e2, ks2, n));
        lemma_keys_mult_map(e1, t1, e2, t2);
        assert(ks1.last() == ks1[n] && ks2.last() == ks2[n]);
        assert(e1[ks1.last()] == e2[ks2.last()]);
    }
}

impl Anagrammer {
    /// Appends to `results` one row for every tail in `tails` extended by
    /// every spelling of entry `i`; existing rows are kept unchanged.
    #[verifier::rlimit(100)]
    fn expand_tails(
        &self,
        cursor: usize,
        i: usize,
        pool: &[u8],
        new_pool: &[u8],
        minwords: usize,
        maxwords: usize,
        tails: &Vec<Vec<String>>,
        results: &mut Vec<Vec<String>>,
    )
        requires
            self.wf(),
            cursor <= i < self.entries@.len(),
            minwords <= maxwords,
            1 <= maxwords,
            self.entries@[i as int].key@.to_multiset().subset_of(pool@.to_multiset()),
            new_pool@.to_multiset() == pool@.to_multiset().sub(
                self.entries@[i as int].key@.to_multiset(),
            ),
            forall|tt: int|
                0 <= tt < tails@.len() ==> result_ok(
                    self.entries@,
                    i as int,
                    new_pool@.to_multiset(),
                    dec_min(minwords as int),
                    maxwords - 1,
                    row_view(#[trigger] tails@[tt]),
                ),
            forall|t2: int|
                0 <= t2 < old(results)@.len() ==> result_ok(
                    self.entries@,
                    cursor as int,
                    pool@.to_multiset(),
                    minwords as int,
                    maxwords as int,
                    row_view(#[trigger] old(results)@[t2]),
                ),
        ensures
            old(results)@.len() <= final(results)@.len(),
            forall|t2: int|
                0 <= t2 < old(results)@.len() ==> final(results)@[t2] == #[trigger] old(
                    results,
                )@[t2],
            forall|t2: int|
                0 <= t2 < final(results)@.len() ==> result_ok(
                    self.entries@,
                    cursor as int,
                    pool@.to_multiset(),
                    minwords as int,
                    maxwords as int,
                    row_view(#[trigger] final(results)@[t2]),
                ),
            forall|tt: int, wjj: int|
                0 <= tt < tails@.len() && 0 <= wjj < self.entries@[i as int].words@.len()
                    ==> #[trigger] pair_covered(
                    self.entries@,
                    i as int,
                    tails@,
                    final(results)@,
                    tt,
                    wjj,
                ),
    {
        let ghost base = results@;
        let ghost key_ms = self.entries@[i as int].key@.to_multiset();
        let ghost new_pm = new_pool@.to_multiset();
        let ghost new_min: int = dec_min(minwords as int);
        let mut t: usize = 0;
        while t < tails.len()
            invariant
                self.wf(),
                cursor <= i < self.entries@.len(),
                minwords <= maxwords,
                1 <= maxwords,
                key_ms == self.entries@[i as int].key@.to_multiset(),
                new_pm == new_pool@.to_multiset(),
                new_min == dec_min(minwords as int),
                key_ms.subset_of(pool@.to_multiset()),
                new_pm == pool@.to_multiset().sub(key_ms),
                0 <= t <= tails@.len(),
                base.len() <= results@.len(),
                forall|t2: int| 0 <= t2 < base.len() ==> results@[t2] == #[trigger] base[t2],
                forall|tt: int|
                    0 <= tt < tails@.len() ==> result_ok(
                        self.entries@,
                        i as int,
                        new_pm,
                        new_min,
                        maxwords - 1,
                        row_view(#[trigger] tails@[tt]),
                    ),
                forall|t2: int|
                    0 <= t2 < base.len() ==> result_ok(
                        self.entries@,
                        cursor as int,
                        pool@.to_multiset(),
                        minwords as int,
                        maxwords as int,
                        row_view(#[trigger] base[t2]),
                    ),
                forall|t2: int|
                    0 <= t2 < results@.len() ==> result_ok(
                        self.entries@,
                        cursor as int,
                        pool@.to_multiset(),
                        minwords as int,
                        maxwords as int,
                        row_view(#[trigger] results@[t2]),
                    ),
                forall|tt: int, wjj: int|
                    0 <= tt < t && 0 <= wjj < self.entries@[i as int].words@.len()
                        ==> #[trigger] pair_covered(
                        self.entries@,
                        i as int,
                        tails@,
                        results@,
                        tt,
                        wjj,
                    ),
            decreases tails@.len() - t,
        {
            let ghost mid = results@;
            let mut wj: usize = 0;
            while wj < self.entries[i].words.len()
                invariant
                    self.wf(),
                    cursor <= i < self.entries@.len(),
                    minwords <= maxwords,
                    1 <= maxwords,
                    key_ms == self.entries@[i as int].key@.to_multiset(),
                    new_pm == new_pool@.to_multiset(),
                    new_min == dec_min(minwords as int),
                    key_ms.subset_of(pool@.to_multiset()),
                    new_pm == pool@.to_multiset().sub(key_ms),
                    0 <= t < tails@.len(),
                    0 <= wj <= self.entries@[i as int].words@.len(),
                    mid.len() <= results@.len(),
                    forall|t2: int| 0 <= t2 < mid.len() ==> results@[t2] == #[trigger] mid[t2],
                    result_ok(
                        self.entries@,
                        i as int,
                        new_pm,
                        new_min,
                        maxwords - 1,
                        row_view(tails@[t as int]),
                    ),
                    forall|t2: int|
                        0 <= t2 < results@.len() ==> result_ok(
                            self.entries@,
                            cursor as int,
                            pool@.to_multiset(),
                            minwords as int,
                            maxwords as int,
                            row_view(#[trigger] results@[t2]),
                        ),
                    forall|wjj: int|
                        0 <= wjj < wj ==> #[trigger] pair_covered(
                            self.entries@,
                            i as int,
                            tails@,
                            results@,
                            t as int,
                            wjj,
                        ),
                decreases self.entries@[i as int].words@.len() - wj,
            {
                let row = append_word(&tails[t], &self.entries[i].words[wj]);
                proof {
                    assert(row_view(row) =~= row_view(tails@[t as int]).push(
                        self.entries@[i as int].words@[wj as int]@,
                    ));
                    assert(words_contain(
                        self.entries@[i as int],
                        self.entries@[i as int].words@[wj as int]@,
                    ));
                    lemma_extend_tail(
                        self.entries@,
                        cursor as int,
                        i as int,
                        pool@.to_multiset(),
                        new_pm,
                        new_min,
                        minwords as int,
                        maxwords as int,
                        row_view(tails@[t as int]),
                        self.entries@[i as int].words@[wj as int]@,
                    );
                }
                let ghost prevr = results@;
                results.push(row);
                proof {
                    assert(results@[prevr.len() as int] == row);
                    assert forall|wjj: int| 0 <= wjj < wj + 1 implies #[trigger] pair_covered(
                        self.entries@,
                        i as int,
                        tails@,
                        results@,
                        t as int,
                        wjj,
                    ) by {
                        if wjj < wj {
                            assert(pair_covered(
                                self.entries@,
                                i as int,
                                tails@,
                                prevr,
                                t as int,
                                wjj,
                            ));
                            let t2 = choose|t2: int|
                                0 <= t2 < prevr.len() && row_view(prevr[t2]) == row_view(
                                    tails@[t as int],
                                ).push(self.entries@[i as int].words@[wjj]@);
                            assert(results@[t2] == prevr[t2]);
                            assert(row_view(results@[t2]) == row_view(tails@[t as int]).push(
                                self.entries@[i as int].words@[wjj]@,
                            ));
                        } else {
                            assert(row_view(results@[prevr.len() as int]) == row_view(
                                tails@[t as int],
                            ).push(self.entries@[i as int].words@[wjj]@));
                        }
                    }
                }
                wj += 1;
            }
            proof {
                assert forall|tt: int, wjj: int|
                    0 <= tt < t + 1 && 0 <= wjj < self.entries@[i as int].words@.len() implies
                    #[trigger] pair_covered(
                    self.entries@,
                    i as int,
                    tails@,
                    results@,
                    tt,
                    wjj,
                ) by {
                    if tt == t {
                        assert(pair_covered(
                            self.entries@,
                            i as int,
                            tails@,
                            results@,
                            t as int,
                            wjj,
                        ));
                    } else {
                        assert(pair_covered(self.entries@, i as int, tails@, mid, tt, wjj));
                        let t2 = choose|t2: int|
                            0 <= t2 < mid.len() && row_view(mid[t2]) == row_view(tails@[tt]).push(
                                self.entries@[i as int].words@[wjj]@,
                            );
                        assert(results@[t2] == mid[t2]);
                        assert(row_view(results@[t2]) == row_view(tails@[tt]).push(
                            self.entries@[i as int].words@[wjj]@,
                        ));
                    }
                }
            }
            t += 1;
        }
    }

    /// One step of the partition enumeration.  Considers only entries at or
    /// after `cursor`, so that along one branch the chosen positions never
    /// decrease; every returned row, read tail-first, carries such a
    /// non-increasing witness whose signatures exactly exhaust the pool,
    /// and conversely every such row with non-empty signatures is returned.
    pub fn anagrams_recur(
        &self,
        cursor: usize,
        pool: &[u8],
        minwords: usize,
        maxwords: usize,
    ) -> (results: Vec<Vec<String>>)
        requires
            self.wf(),
            sorted_bytes(pool@),
            cursor <= self.entries@.len(),
        ensures
            forall|t: int|
                0 <= t < results@.len() ==> result_ok(
                    self.entries@,
                    cursor as int,
                    pool@.to_multiset(),
                    minwords as int,
                    maxwords as int,
                    row_view(#[trigger] results@[t]),
                ),
            forall|r: Seq<Seq<char>>, ks: Seq<int>|
                covered(
                    self.entries@,
                    cursor as int,
                    pool@.to_multiset(),
                    minwords as int,
                    maxwords as int,
                    r,
                    ks,
                ) ==> exists|t: int|
                    0 <= t < results@.len() && row_view(#[trigger] results@[t]) == r,
        decreases maxwords,
    {
        let ghost entries = self.entries@;
        let ghost pm = pool@.to_multiset();
        if minwords > maxwords {
            return Vec::new();
        }
        if pool.len() == 0 && minwords == 0 {
            let mut results: Vec<Vec<String>> = Vec::new();
            let empty_row: Vec<String> = Vec::new();
            results.push(empty_row);
            proof {
                lemma_empty_seq_multiset(pool@);
                let ks0 = Seq::<int>::empty();
                let rv = row_view(results@[0]);
                assert(rv =~= Seq::<Seq<char>>::empty());
                assert(keys_mult(entries, ks0) == Multiset::<u8>::empty());
                assert(tail_ok(entries, cursor as int, pm, rv, ks0));
                assert forall|r: Seq<Seq<char>>, ks: Seq<int>|
                    covered(
                        entries,
                        cursor as int,
                        pm,
                        minwords as int,
                        maxwords as int,
                        r,
                        ks,
                    ) implies exists|t: int|
                    0 <= t < results@.len() && row_view(#[trigger] results@[t]) == r by {
                    assert(keys_mult(entries, ks) == pm);
                    assert(keys_mult(entries, ks).len() == 0);
                    lemma_keys_mult_empty(entries, ks);
                    assert(r.len() == 0);
                    assert(row_view(results@[0]) =~= r);
                }
            }
            return results;
        }
        if maxwords == 0 {
            let results: Vec<Vec<String>> = Vec::new();
            proof {
                assert forall|r: Seq<Seq<char>>, ks: Seq<int>|
                    covered(
                        entries,
                        cursor as int,
                        pm,
                        minwords as int,
                        maxwords as int,
                        r,
                        ks,
                    ) implies exists|t: int|
                    0 <= t < results@.len() && row_view(#[trigger] results@[t]) == r by {
                    assert(ks.len() == 0);
                    assert(keys_mult(entries, ks) == pm);
                    assert(pm.len() == 0);
                    assert(pool@.len() == 0);
                    assert(minwords <= 0);
                    assert(false);
                }
            }
            return results;
        }
        let mut results: Vec<Vec<String>> = Vec::new();
        let mut i: usize = cursor;
        while i < self.entries.len()
            invariant
                self.wf(),
                sorted_bytes(pool@),
                entries == self.entries@,
                pm == pool@.to_multiset(),
                cursor <= i <= self.entries@.len(),
                minwords <= maxwords,
                1 <= maxwords,
                !(pool@.len() == 0 && minwords == 0),
                forall|t: int|
                    0 <= t < results@.len() ==> result_ok(
                        entries,
                        cursor as int,
                        pm,
                        minwords as int,
                        maxwords as int,
                        row_view(#[trigger] results@[t]),
                    ),
                forall|r: Seq<Seq<char>>, ks: Seq<int>|
                    covered(entries, cursor as int, pm, minwords as int, maxwords as int, r, ks)
                        && ks.len() > 0 && ks.last() < i ==> exists|t: int|
                        0 <= t < results@.len() && row_view(#[trigger] results@[t]) == r,
            decreases self.entries@.len() - i,
        {
            proof {
                assert(entry_wf(self.entries@[i as int]));
            }
            let ghost before = results@;
            match subtract(self.entries[i].key.as_slice(), pool) {
                Some(new_pool) => {
                    let new_min: usize = if minwords == 0 {
                        0
                    } else {
                        minwords - 1
                    };
                    let tails = self.anagrams_recur(i, new_pool.as_slice(), new_min, maxwords - 1);
                    self.expand_tails(
                        cursor,
                        i,
                        pool,
                        new_pool.as_slice(),
                        minwords,
                        maxwords,
                        &tails,
                        &mut results,
                    );
                    proof {
                        let key_ms = entries[i as int].key@.to_multiset();
                        let new_pm = new_pool@.to_multiset();
                        assert forall|r: Seq<Seq<char>>, ks: Seq<int>|
                            covered(
                                entries,
                                cursor as int,
                                pm,
                                minwords as int,
                                maxwords as int,
                                r,
                                ks,
                            ) && ks.len() > 0 && ks.last() == i implies exists|t: int|
                            0 <= t < results@.len() && row_view(#[trigger] results@[t]) == r by {
                            lemma_tail_decompose(
                                entries,
                                cursor as int,
                                pm,
                                minwords as int,
                                maxwords as int,
                                r,
                                ks,
                            );
                            assert(covered(
                                entries,
                                i as int,
                                new_pm,
                                dec_min(minwords as int),
                                maxwords - 1,
                                r.drop_last(),
                                ks.drop_last(),
                            ));
                            let tt = choose|tt: int|
                                0 <= tt < tails@.len() && row_view(#[trigger] tails@[tt])
                                    == r.drop_last();
                            let wjj = choose|wjj: int|
                                0 <= wjj < entries[i as int].words@.len()
                                    && entries[i as int].words@[wjj]@ == r.last();
                            assert(pair_covered(entries, i as int, tails@, results@, tt, wjj));
                            let t9 = choose|t9: int|
                                0 <= t9 < results@.len() && row_view(results@[t9]) == row_view(
                                    tails@[tt],
                                ).push(entries[i as int].words@[wjj]@);
                            assert(row_view(results@[t9]) == r);
                        }
                        assert forall|r: Seq<Seq<char>>, ks: Seq<int>|
                            covered(
                                entries,
                                cursor as int,
                                pm,
                                minwords as int,
                                maxwords as int,
                                r,
                                ks,
                            ) && ks.len() > 0 && ks.last() < i + 1 implies exists|t: int|
                            0 <= t < results@.len() && row_view(#[trigger] results@[t]) == r by {
                            if ks.last() < i {
                                let t0 = choose|t0: int|
                                    0 <= t0 < before.len() && row_view(#[trigger] before[t0])
                                        == r;
                                assert(results@[t0] == before[t0]);
                            }
                        }
                    }
                },
                None => {
                    proof {
                        assert forall|r: Seq<Seq<char>>, ks: Seq<int>|
                            covered(
                                entries,
                                cursor as int,
                                pm,
                                minwords as int,
                                maxwords as int,
                                r,
                                ks,
                            ) && ks.len() > 0 && ks.last() < i + 1 implies exists|t: int|
                            0 <= t < results@.len() && row_view(#[trigger] results@[t]) == r by {
                            if ks.last() == i {
                                lemma_tail_decompose(
                                    entries,
                                    cursor as int,
                                    pm,
                                    minwords as int,
                                    maxwords as int,
                                    r,
                                    ks,
                                );
                                assert(false);
                            }
                        }
                    }
                },
            }
            i += 1;
        }
        proof {
            assert forall|r: Seq<Seq<char>>, ks: Seq<int>|
                covered(
                    entries,
                    cursor as int,
                    pm,
                    minwords as int,
                    maxwords as int,
                    r,
                    ks,
                ) implies exists|t: int|
                0 <= t < results@.len() && row_view(#[trigger] results@[t]) == r by {
                if ks.len() == 0 {
                    assert(keys_mult(entries, ks) == pm);
                    assert(pm.len() == 0);
                    assert(pool@.len() == 0);
                    assert(minwords <= 0);
                    assert(false);
                } else {
                    assert(0 <= ks.len() - 1 < ks.len());
                    assert(cursor <= ks[ks.len() - 1] < entries.len());
                    assert(ks.last() < i);
                }
            }
        }
        results
    }
}

proof fn lemma_sigs_eq_keys(entries: Seq<Entry>, ks: Seq<int>, r: Seq<Seq<char>>)
    requires
        ks.len() == r.len(),
        forall|j: int| 0 <= j < ks.len() ==> 0 <= #[trigger] ks[j] < entries.len(),
        forall|j: int| 0 <= j < ks.len() ==> words_contain(entries[ks[j]], #[trigger] r[j]),
        forall|i: int| 0 <= i < entries.len() ==> entry_wf(#[trigger] entries[i]),
    ensures
        sigs_mult(r) == keys_mult(entries, ks),
        sig_seq(r) == key_seq(entries, ks),
    decreases ks.len(),
{
    assert forall|j: int| 0 <= j < ks.len() implies word_sig(#[trigger] r[j]) == entries[ks[j]].key@ by {
        let e = entries[ks[j]];
        let jj = choose|jj: int| 0 <= jj < e.words@.len() && e.words@[jj]@ == r[j];
        assert(entry_wf(e));
        assert(word_sig(e.words@[jj]@) == e.key@);
    }
    assert(sig_seq(r) =~= key_seq(entries, ks));
    if ks.len() > 0 {
        assert forall|j: int| 0 <= j < ks.len() - 1 implies words_contain(
            entries[ks.drop_last()[j]],
            #[trigger] r.drop_last()[j],
        ) by {
            assert(ks.drop_last()[j] == ks[j]);
            assert(r.drop_last()[j] == r[j]);
        }
        lemma_sigs_eq_keys(entries, ks.drop_last(), r.drop_last());
        assert(word_sig(r.last()) == entries[ks.last()].key@);
    }
}

proof fn lemma_filter_membership(s: Seq<Entry>, p: spec_fn(Entry) -> bool, idx: int)
    requires
        0 <= idx < s.filter(p).len(),
    ensures
        exists|t: int| 0 <= t < s.len() && s[t] == s.filter(p)[idx],
    decreases s.len(),
{
    reveal(Seq::filter);
    if s.len() > 0 {
        let t0 = s.drop_last();
        if p(s.last()) {
            if idx < t0.filter(p).len() {
                lemma_filter_membership(t0, p, idx);
                let t = choose|t: int| 0 <= t < t0.len() && t0[t] == t0.filter(p)[idx];
                assert(s[t] == s.filter(p)[idx]);
            } else {
                assert(s[s.len() - 1] == s.filter(p)[idx]);
            }
        } else {
            lemma_filter_membership(t0, p, idx);
            let t = choose|t: int| 0 <= t < t0.len() && t0[t] == t0.filter(p)[idx];
            assert(s[t] == s.filter(p)[idx]);
        }
    }
}

proof fn lemma_noninc_chain(ks: Seq<int>, a: int, b: int)
    requires
        forall|j: int| 0 <= j < ks.len() - 1 ==> #[trigger] ks[j] >= ks[j + 1],
        0 <= a <= b < ks.len(),
    ensures
        ks[a] >= ks[b],
    decreases b - a,
{
    if a < b {
        lemma_noninc_chain(ks, a + 1, b);
    }
}

#[verifier::rlimit(100)]
#[verifier::spinoff_prover]
proof fn lemma_nonincreasing_unique(entries: Seq<Entry>, ks1: Seq<int>, ks2: Seq<int>)
    requires
        forall|i: int, j: int|
            0 <= i < j < entries.len() ==> entries[i].key@ != entries[j].key@,
        forall|j: int| 0 <= j < ks1.len() ==> 0 <= #[trigger] ks1[j] < entries.len(),
        forall|j: int| 0 <= j < ks2.len() ==> 0 <= #[trigger] ks2[j] < entries.len(),
        forall|j: int| 0 <= j < ks1.len() - 1 ==> #[trigger] ks1[j] >= ks1[j + 1],
        forall|j: int| 0 <= j < ks2.len() - 1 ==> #[trigger] ks2[j] >= ks2[j + 1],
        key_seq(entries, ks1).to_multiset() == key_seq(entries, ks2).to_multiset(),
    ensures
        ks1 =~= ks2,
    decreases ks1.len(),
{
    let s1 = key_seq(entries, ks1);
    let s2 = key_seq(entries, ks2);
    assert(s1.len() == ks1.len() && s2.len() == ks2.len());
    assert(s1.to_multiset().len() == s1.len());
    assert(s2.to_multiset().len() == s2.len());
    if ks1.len() == 0 {
        assert(ks2.len() == 0);
    } else {
        assert(ks2.len() == ks1.len());
        assert(s1[0] == entries[ks1[0]].key@);
        assert(s1.contains(s1[0]));
        assert(s1.to_multiset().count(s1[0]) > 0);
        assert(s2.to_multiset().count(s1[0]) > 0);
        assert(s2.contains(s1[0]));
        let j2 = choose|j2: int| 0 <= j2 < s2.len() && s2[j2] == s1[0];
        assert(entries[ks2[j2]].key@ == entries[ks1[0]].key@);
        assert(ks2[j2] == ks1[0]) by {
            if ks2[j2] < ks1[0] {
                assert(entries[ks2[j2]].key@ != entries[ks1[0]].key@);
            }
            if ks1[0] < ks2[j2] {
                assert(entries[ks1[0]].key@ != entries[ks2[j2]].key@);
            }
        }
        lemma_noninc_chain(ks2, 0, j2);
        assert(ks1[0] <= ks2[0]);
        assert(s2[0] == entries[ks2[0]].key@);
        assert(s2.to_multiset().count(s2[0]) > 0);
        assert(s1.to_multiset().count(s2[0]) > 0);
        assert(s1.contains(s2[0]));
        let j1 = choose|j1: int| 0 <= j1 < s1.len() && s1[j1] == s2[0];
        assert(ks1[j1] == ks2[0]) by {
            if ks1[j1] < ks2[0] {
                assert(entries[ks1[j1]].key@ != entries[ks2[0]].key@);
            }
            if ks2[0] < ks1[j1] {
                assert(entries[ks2[0]].key@ != entries[ks1[j1]].key@);
            }
        }
        lemma_noninc_chain(ks1, 0, j1);
        assert(ks2[0] <= ks1[0]);
        assert(ks1[0] == ks2[0]);
        let t1 = ks1.drop_first();
        let t2 = ks2.drop_first();
        assert forall|j: int| 0 <= j < t1.len() - 1 implies #[trigger] t1[j] >= t1[j + 1] by {
            assert(t1[j] == ks1[j + 1] && t1[j + 1] == ks1[j + 2]);
        }
        assert forall|j: int| 0 <= j < t2.len() - 1 implies #[trigger] t2[j] >= t2[j + 1] by {
            assert(t2[j] == ks2[j + 1] && t2[j + 1] == ks2[j + 2]);
        }
        assert(s1.remove(0) =~= key_seq(entries, t1));
        assert(s2.remove(0) =~= key_seq(entries, t2));
        assert(s1.remove(0).to_multiset() == s1.to_multiset().remove(s1[0]));
        assert(s2.remove(0).to_multiset() == s2.to_multiset().remove(s2[0]));
        assert(s1[0] == s2[0]);
        lemma_nonincreasing_unique(entries, t1, t2);
        assert forall|j: int| 0 <= j < ks1.len() implies ks1[j] == ks2[j] by {
            if j > 0 {
                assert(ks1[j] == t1[j - 1]);
                assert(ks2[j] == t2[j - 1]);
            }
        }
        assert(ks1 =~= ks2);
    }
}

/// After a length restriction, every surviving entry's signature length
/// lies within the bounds.
pub proof fn lemma_restrict_letters_bounds(entries: Seq<Entry>, minl: int, maxl: int, i: int)
    requires
        0 <= i < entries.filter(crate::dict::len_pred(minl, maxl)).len(),
    ensures
        minl <= entries.filter(crate::dict::len_pred(minl, maxl))[i].key@.len() <= maxl,
{
    broadcast use vstd::seq_lib::group_filter_ensures;

    assert(crate::dict::len_pred(minl, maxl)(entries.filter(crate::dict::len_pred(minl, maxl))[i]));
}

/// A word found in an index whose signature lengths all lie within bounds
/// has its own signature length within those bounds.
pub proof fn lemma_letter_bounds(entries: Seq<Entry>, minl: int, maxl: int, w: Seq<char>)
    requires
        forall|i: int| 0 <= i < entries.len() ==> minl <= (#[trigger] entries[i]).key@.len() <= maxl,
        dict_contains_pair(entries, word_sig(w), w),
    ensures
        minl <= word_sig(w).len() <= maxl,
{
    let i = choose|i: int|
        0 <= i < entries.len() && (#[trigger] entries[i]).key@ == word_sig(w) && words_contain(
            entries[i],
            w,
        );
    assert(minl <= entries[i].key@.len() <= maxl);
}

impl Anagrammer {
    /// Searches for every way to spell the letters of `word` as a sequence
    /// of dictionary words, honoring the word-count bounds.  Rows are built
    /// tail-first: each returned row lists its words in reverse phrase
    /// order.  Every row's word count lies within the bounds, its words'
    /// signatures together use exactly the letters of `word`, each word is
    /// drawn from the dictionary, and no partition into signatures is
    /// produced through two different orderings.
    #[verifier::rlimit(100)]
    pub fn find_anagrams(self, word: &[u8], minwords: usize, maxwords: usize) -> (results: Vec<
        Vec<String>,
    >)
        requires
            self.wf(),
        ensures
            forall|t: int|
                0 <= t < results@.len() ==> minwords <= row_view(#[trigger] results@[t]).len()
                    <= maxwords,
            forall|t: int|
                0 <= t < results@.len() ==> sigs_mult(row_view(#[trigger] results@[t]))
                    == word@.to_multiset(),
            forall|t: int, j: int|
                #![trigger row_view(results@[t])[j]]
                0 <= t < results@.len() && 0 <= j < row_view(results@[t]).len()
                    ==> dict_contains_pair(
                    self.entries@,
                    word_sig(row_view(results@[t])[j]),
                    row_view(results@[t])[j],
                ),
            forall|t1: int, t2: int|
                #![trigger results@[t1], results@[t2]]
                0 <= t1 < results@.len() && 0 <= t2 < results@.len() && sig_seq(
                    row_view(results@[t1]),
                ).to_multiset() == sig_seq(row_view(results@[t2])).to_multiset() ==> sig_seq(
                    row_view(results@[t1]),
                ) == sig_seq(row_view(results@[t2])),
            forall|r: Seq<Seq<char>>, ks: Seq<int>|
                covered(
                    self.entries@,
                    0,
                    word@.to_multiset(),
                    minwords as int,
                    maxwords as int,
                    r,
                    ks,
                ) ==> exists|t: int|
                    0 <= t < results@.len() && row_view(#[trigger] results@[t]) == r,
    {
        let ghost orig = self.entries@;
        let mut this = self;
        let mut pool: Vec<u8> = Vec::new();
        let mut i: usize = 0;
        proof {
            assert(word@.take(0).to_multiset() =~= Multiset::<u8>::empty());
            assert(pool@.to_multiset() =~= Multiset::<u8>::empty());
        }
        while i < word.len()
            invariant
                0 <= i <= word@.len(),
                sorted_bytes(pool@),
                pool@.to_multiset() == word@.take(i as int).to_multiset(),
            decreases word@.len() - i,
        {
            proof {
                crate::sig::lemma_take_snoc_multiset(word@, i as int);
            }
            insert_sorted(&mut pool, word[i]);
            i += 1;
        }
        proof {
            assert(word@.take(word@.len() as int) =~= word@);
        }
        this.restrict(pool.as_slice());
        let ghost fentries = this.entries@;
        let ghost p = pool_pred(pool@);
        let results = this.anagrams_recur(0, pool.as_slice(), minwords, maxwords);
        proof {
            let pm = pool@.to_multiset();
            assert forall|t: int|
                0 <= t < results@.len() implies minwords <= row_view(#[trigger] results@[t]).len()
                <= maxwords && sigs_mult(row_view(results@[t])) == word@.to_multiset() by {
                let r = row_view(results@[t]);
                let ks = choose|ks: Seq<int>|
                    tail_ok(fentries, 0, pm, r, ks) && minwords <= ks.len() && ks.len() <= maxwords;
                lemma_sigs_eq_keys(fentries, ks, r);
            }
            assert forall|t: int, j: int|
                #![trigger row_view(results@[t])[j]]
                0 <= t < results@.len() && 0 <= j < row_view(results@[t]).len() implies
                dict_contains_pair(
                orig,
                word_sig(row_view(results@[t])[j]),
                row_view(results@[t])[j],
            ) by {
                let r = row_view(results@[t]);
                let ks = choose|ks: Seq<int>|
                    tail_ok(fentries, 0, pm, r, ks) && minwords <= ks.len() && ks.len() <= maxwords;
                lemma_sigs_eq_keys(fentries, ks, r);
                let e = fentries[ks[j]];
                assert(words_contain(e, r[j]));
                assert(e.key@ == word_sig(r[j]));
                lemma_filter_membership(orig, p, ks[j]);
                let t0 = choose|t0: int| 0 <= t0 < orig.len() && orig[t0] == fentries[ks[j]];
                assert(orig[t0].key@ == word_sig(r[j]) && words_contain(orig[t0], r[j]));
            }
            assert forall|t1: int, t2: int|
                #![trigger results@[t1], results@[t2]]
                0 <= t1 < results@.len() && 0 <= t2 < results@.len() && sig_seq(
                    row_view(results@[t1]),
                ).to_multiset() == sig_seq(row_view(results@[t2])).to_multiset() implies sig_seq(
                row_view(results@[t1]),
            ) == sig_seq(row_view(results@[t2])) by {
                let r1 = row_view(results@[t1]);
                let r2 = row_view(results@[t2]);
                let ks1 = choose|ks: Seq<int>|
                    tail_ok(fentries, 0, pm, r1, ks) && minwords <= ks.len() && ks.len()
                        <= maxwords;
                let ks2 = choose|ks: Seq<int>|
                    tail_ok(fentries, 0, pm, r2, ks) && minwords <= ks.len() && ks.len()
                        <= maxwords;
                lemma_sigs_eq_keys(fentries, ks1, r1);
                lemma_sigs_eq_keys(fentries, ks2, r2);
                lemma_nonincreasing_unique(fentries, ks1, ks2);
                assert(key_seq(fentries, ks1) =~= key_seq(fentries, ks2));
            }
            assert forall|r: Seq<Seq<char>>, ks: Seq<int>|
                covered(
                    orig,
                    0,
                    word@.to_multiset(),
                    minwords as int,
                    maxwords as int,
                    r,
                    ks,
                ) implies exists|t: int|
                0 <= t < results@.len() && row_view(#[trigger] results@[t]) == r by {
                assert(word@.to_multiset() == pm);
                assert forall|j: int| 0 <= j < ks.len() implies p(orig[#[trigger] ks[j]]) by {
                    lemma_component_subset(orig, ks, j);
                }
                let ksf = Seq::new(ks.len(), |j: int| filter_pos(orig, p, ks[j]));
                assert forall|j: int|
                    0 <= j < ks.len() implies same_entries(fentries, ksf, orig, ks, j) by {
                    lemma_filter_pos(orig, p, ks[j]);
                }
                assert forall|j: int|
                    0 <= j < ksf.len() implies 0 <= #[trigger] ksf[j] < fentries.len() by {
                    assert(same_entries(fentries, ksf, orig, ks, j));
                }
                assert forall|j: int| 0 <= j < ksf.len() - 1 implies #[trigger] ksf[j] >= ksf[j
                    + 1] by {
                    assert(ks[j] >= ks[j + 1]);
                    lemma_filter_pos_mono(orig, p, ks[j + 1], ks[j]);
                }
                assert forall|j: int| 0 <= j < ksf.len() implies words_contain(
                    fentries[ksf[j]],
                    #[trigger] r[j],
                ) by {
                    assert(same_entries(fentries, ksf, orig, ks, j));
                    assert(words_contain(orig[ks[j]], r[j]));
                }
                assert forall|j: int|
                    0 <= j < ksf.len() implies fentries[#[trigger] ksf[j]].key@.len() > 0 by {
                    assert(same_entries(fentries, ksf, orig, ks, j));
                    assert(orig[ks[j]].key@.len() > 0);
                }
                lemma_keys_mult_map(fentries, ksf, orig, ks);
                assert(keys_mult(fentries, ksf) == pm);
                assert(covered(fentries, 0, pm, minwords as int, maxwords as int, r, ksf));
            }
        }
        results
    }
}

} // verus!
