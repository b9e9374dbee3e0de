//! Signatures: normalization of words into sorted letter sequences, and the
//! sorted-multiset subtraction primitive the search is built on.

use vstd::prelude::*;
use vstd::multiset::Multiset;
use vstd::relations::total_ordering;
use vstd::seq_lib::lemma_sorted_unique;
use vstd::seq_lib::lemma_multiset_commutative;

verus! {

broadcast use vstd::seq_lib::group_to_multiset_ensures, vstd::multiset::group_multiset_axioms;

/// A sequence of bytes in non-decreasing order.
pub open spec fn sorted_bytes(s: Seq<u8>) -> bool {
    forall|i: int, j: int| 0 <= i <= j < s.len() ==> s[i] <= s[j]
}

/// The ordering the signatures are sorted by.
pub open spec fn byte_le_f() -> spec_fn(u8, u8) -> bool {
    |x: u8, y: u8| x <= y
}

pub proof fn lemma_byte_le_total()
    ensures
        total_ordering(byte_le_f()),
{
    assert(vstd::relations::reflexive(byte_le_f()));
    assert(vstd::relations::antisymmetric(byte_le_f()));
    assert(vstd::relations::transitive(byte_le_f()));
    assert(vstd::relations::strongly_connected(byte_le_f()));
}

pub proof fn lemma_sorted_bytes_iff(s: Seq<u8>)
    ensures
        sorted_bytes(s) <==> vstd::relations::sorted_by(s, byte_le_f()),
{
    if sorted_bytes(s) {
        assert forall|i: int, j: int| 0 <= i < j < s.len() implies #[trigger] byte_le_f()(
            s[i],
            s[j],
        ) by {
            assert(s[i] <= s[j]);
        }
    }
    if vstd::relations::sorted_by(s, byte_le_f()) {
        assert forall|i: int, j: int| 0 <= i <= j < s.len() implies s[i] <= s[j] by {
            if i < j {
                assert(byte_le_f()(s[i], s[j]));
            }
        }
    }
}

/// A byte that a signature keeps: an ASCII letter or digit.
pub open spec fn is_kept(b: u8) -> bool {
    (0x61u8 <= b && b <= 0x7au8) || (0x41u8 <= b && b <= 0x5au8) || (0x30u8 <= b && b <= 0x39u8)
}

/// Case folding: upper-case ASCII letters map to lower case.
pub open spec fn fold_byte(b: u8) -> u8 {
    if 0x41u8 <= b && b <= 0x5au8 {
        (b + 0x20) as u8
    } else {
        b
    }
}

/// The folded letters of a byte sequence, in their original order:
/// non-alphanumeric bytes are dropped, letters are case-folded.
pub open spec fn letters(s: Seq<u8>) -> Seq<u8>
    decreases s.len(),
{
    if s.len() == 0 {
        Seq::empty()
    } else {
        letters(s.drop_last()) + (if is_kept(s.last()) {
            seq![fold_byte(s.last())]
        } else {
            Seq::<u8>::empty()
        })
    }
}

/// The signature of a byte sequence: its folded letters, sorted.
pub open spec fn normalize_bytes(s: Seq<u8>) -> Seq<u8> {
    letters(s).sort_by(byte_le_f())
}

/// The bytes of an ASCII character sequence.
pub open spec fn char_bytes(s: Seq<char>) -> Seq<u8> {
    Seq::new(s.len(), |i: int| s[i] as u8)
}

/// The signature of an ASCII word given as characters.
pub open spec fn word_sig(w: Seq<char>) -> Seq<u8> {
    normalize_bytes(char_bytes(w))
}

pub broadcast proof fn lemma_normalize_ensures(s: Seq<u8>)
    ensures
        #[trigger] normalize_bytes(s).to_multiset() == letters(s).to_multiset(),
        sorted_bytes(normalize_bytes(s)),
{
    letters(s).lemma_sort_by_ensures(byte_le_f());
    lemma_byte_le_total();
    assert(normalize_bytes(s).to_multiset() =~= letters(s).to_multiset());
    lemma_sorted_bytes_iff(normalize_bytes(s));
}

/// Inserts `b` into a sorted byte vector, keeping it sorted.
pub fn insert_sorted(v: &mut Vec<u8>, b: u8)
    requires
        sorted_bytes(old(v)@),
    ensures
        sorted_bytes(final(v)@),
        final(v)@.to_multiset() == old(v)@.to_multiset().insert(b),
        final(v)@.len() == old(v)@.len() + 1,
{
    let mut j: usize = 0;
    while j < v.len() && v[j] <= b
        invariant
            0 <= j <= v@.len(),
            forall|k: int| 0 <= k < j ==> v@[k] <= b,
            v@ == old(v)@,
        decreases v@.len() - j,
    {
        j += 1;
    }
    v.insert(j, b);
    proof {
        lemma_to_multiset_insert(old(v)@, j as int, b);
        assert forall|x: int, y: int| 0 <= x <= y < v@.len() implies v@[x] <= v@[y] by {
            assert(v@ == old(v)@.insert(j as int, b));
        }
    }
}

/// Inserting an element anywhere in a sequence adds it to the multiset.
pub proof fn lemma_to_multiset_insert(s: Seq<u8>, i: int, b: u8)
    requires
        0 <= i <= s.len(),
    ensures
        s.insert(i, b).to_multiset() == s.to_multiset().insert(b),
{
    let t = s.insert(i, b);
    assert(t =~= s.take(i) + (seq![b] + s.skip(i)));
    lemma_multiset_commutative(s.take(i), seq![b] + s.skip(i));
    lemma_multiset_commutative(seq![b], s.skip(i));
    assert(seq![b] =~= Seq::<u8>::empty().push(b));
    assert(seq![b].to_multiset() =~= Multiset::<u8>::empty().insert(b));
    assert(s =~= s.take(i) + s.skip(i));
    lemma_multiset_commutative(s.take(i), s.skip(i));
    assert(t.to_multiset() =~= s.to_multiset().insert(b));
}

proof fn lemma_letters_take_step(s: Seq<u8>, i: int)
    requires
        0 <= i < s.len(),
    ensures
        letters(s.take(i + 1)) == letters(s.take(i)) + (if is_kept(s[i]) {
            seq![fold_byte(s[i])]
        } else {
            Seq::<u8>::empty()
        }),
{
    assert(s.take(i + 1).drop_last() =~= s.take(i));
    assert(s.take(i + 1).last() == s[i]);
}

/// Computes the signature of a word under the ASCII-only policy: the word's
/// case-folded alphanumeric bytes, sorted.  A word holding any non-ASCII
/// character is rejected with `None`.
pub fn make_key(word: &str) -> (r: Option<Vec<u8>>)
    ensures
        r is Some <==> vstd::utf8::is_ascii_chars(word@),
        r matches Some(k) ==> k@ == word_sig(word@),
{
    broadcast use vstd::string::group_string_axioms;

    if !word.is_ascii() {
        return None;
    }
    let bs: &[u8] = word.as_bytes();
    let ghost s: Seq<u8> = char_bytes(word@);
    assert(bs@ =~= s);
    let mut out: Vec<u8> = Vec::new();
    let mut i: usize = 0;
    assert(out@.to_multiset() =~= letters(s.take(0)).to_multiset());
    while i < bs.len()
        invariant
            0 <= i <= s.len(),
            bs@ == s,
            sorted_bytes(out@),
            out@.to_multiset() == letters(s.take(i as int)).to_multiset(),
        decreases s.len() - i,
    {
        let b = bs[i];
        proof {
            lemma_letters_take_step(s, i as int);
        }
        if (0x61u8 <= b && b <= 0x7au8) || (0x30u8 <= b && b <= 0x39u8) {
            insert_sorted(&mut out, b);
            proof {
                lemma_letters_snoc_multiset(s, i as int);
            }
        } else if 0x41u8 <= b && b <= 0x5au8 {
            insert_sorted(&mut out, b + 0x20);
            proof {
                lemma_letters_snoc_multiset(s, i as int);
            }
        } else {
            proof {
                assert(letters(s.take(i + 1)) =~= letters(s.take(i as int)));
            }
        }
        i += 1;
    }
    proof {
        assert(s.take(s.len() as int) =~= s);
        lemma_normalize_ensures(s);
        lemma_byte_le_total();
        lemma_sorted_bytes_iff(out@);
        lemma_sorted_bytes_iff(normalize_bytes(s));
        lemma_sorted_unique(out@, normalize_bytes(s), byte_le_f());
    }
    Some(out)
}

proof fn lemma_letters_snoc_multiset(s: Seq<u8>, i: int)
    requires
        0 <= i < s.len(),
        is_kept(s[i]),
    ensures
        letters(s.take(i + 1)).to_multiset() == letters(s.take(i)).to_multiset().insert(
            fold_byte(s[i]),
        ),
{
    lemma_letters_take_step(s, i);
    assert(letters(s.take(i + 1)) =~= letters(s.take(i)).push(fold_byte(s[i])));
}

proof fn lemma_insert_count(m: Multiset<u8>, x: u8, y: u8)
    ensures
        m.insert(x).count(y) == m.count(y) + (if y == x {
            1int
        } else {
            0int
        }),
{
}

proof fn lemma_subset_insert_both(m1: Multiset<u8>, m2: Multiset<u8>, x: u8)
    ensures
        m1.insert(x).subset_of(m2.insert(x)) <==> m1.subset_of(m2),
{
    if m1.subset_of(m2) {
        assert forall|y: u8| m1.insert(x).count(y) <= m2.insert(x).count(y) by {
            lemma_insert_count(m1, x, y);
            lemma_insert_count(m2, x, y);
            assert(m1.count(y) <= m2.count(y));
        }
    }
    if m1.insert(x).subset_of(m2.insert(x)) {
        assert forall|y: u8| m1.count(y) <= m2.count(y) by {
            lemma_insert_count(m1, x, y);
            lemma_insert_count(m2, x, y);
            assert(m1.insert(x).count(y) <= m2.insert(x).count(y));
        }
    }
}

proof fn lemma_subset_insert_right(m1: Multiset<u8>, m2: Multiset<u8>, x: u8)
    requires
        m1.count(x) == 0,
    ensures
        m1.subset_of(m2.insert(x)) <==> m1.subset_of(m2),
{
    if m1.subset_of(m2) {
        assert forall|y: u8| m1.count(y) <= m2.insert(x).count(y) by {
            lemma_insert_count(m2, x, y);
            assert(m1.count(y) <= m2.count(y));
        }
    }
    if m1.subset_of(m2.insert(x)) {
        assert forall|y: u8| m1.count(y) <= m2.count(y) by {
            lemma_insert_count(m2, x, y);
            assert(m1.count(y) <= m2.insert(x).count(y));
        }
    }
}

proof fn lemma_add_insert_left(m1: Multiset<u8>, m2: Multiset<u8>, x: u8)
    ensures
        m1.insert(x).add(m2) == m1.add(m2).insert(x),
        m1.add(m2.insert(x)) == m1.add(m2).insert(x),
{
    assert(m1.insert(x).add(m2) =~= m1.add(m2).insert(x));
    assert(m1.add(m2.insert(x)) =~= m1.add(m2).insert(x));
}

proof fn lemma_skip_cons_multiset(s: Seq<u8>, i: int)
    requires
        0 <= i < s.len(),
    ensures
        s.skip(i).to_multiset() == s.skip(i + 1).to_multiset().insert(s[i]),
{
    assert(s.skip(i) =~= seq![s[i]] + s.skip(i + 1));
    lemma_multiset_commutative(seq![s[i]], s.skip(i + 1));
    assert(seq![s[i]] =~= Seq::<u8>::empty().push(s[i]));
    assert(seq![s[i]].to_multiset() =~= Multiset::<u8>::empty().insert(s[i]));
    assert(Multiset::<u8>::empty().insert(s[i]).add(s.skip(i + 1).to_multiset()) =~= s.skip(
        i + 1,
    ).to_multiset().insert(s[i]));
}

pub proof fn lemma_take_snoc_multiset(s: Seq<u8>, i: int)
    requires
        0 <= i < s.len(),
    ensures
        s.take(i + 1).to_multiset() == s.take(i).to_multiset().insert(s[i]),
{
    assert(s.take(i + 1) =~= s.take(i).push(s[i]));
}

/// In a sorted sequence, nothing below the element at a cut point occurs
/// from that point on.
proof fn lemma_skip_small_count_zero(s: Seq<u8>, i: int, x: u8)
    requires
        sorted_bytes(s),
        0 <= i <= s.len(),
        i < s.len() ==> x < s[i],
    ensures
        s.skip(i).to_multiset().count(x) == 0,
{
    let t = s.skip(i);
    if t.to_multiset().count(x) > 0 {
        assert(t.contains(x));
        let k = choose|k: int| 0 <= k < t.len() && t[k] == x;
        assert(t[k] == s[i + k]);
        assert(s[i] <= s[i + k]);
        assert(false);
    }
}

/// Subtracts the letters of a sorted `word` from a sorted `pool`.  Returns
/// the remaining pool, still sorted, when every letter of `word` occurs in
/// `pool` with at least its multiplicity, and `None` otherwise.
pub fn subtract(word: &[u8], pool: &[u8]) -> (r: Option<Vec<u8>>)
    requires
        sorted_bytes(word@),
        sorted_bytes(pool@),
    ensures
        r is Some <==> word@.to_multiset().subset_of(pool@.to_multiset()),
        r matches Some(rest) ==> sorted_bytes(rest@) && rest@.to_multiset() == pool@.to_multiset().sub(
            word@.to_multiset(),
        ) && rest@.len() + word@.len() == pool@.len(),
{
    let mut i: usize = 0;
    let mut result: Vec<u8> = Vec::new();
    let mut j: usize = 0;
    proof {
        assert(word@.take(0).to_multiset() =~= Multiset::<u8>::empty());
        assert(pool@.take(0).to_multiset() =~= Multiset::<u8>::empty());
        assert(word@.take(0).to_multiset().add(result@.to_multiset()) =~= pool@.take(
            0,
        ).to_multiset());
        assert(word@.skip(0) =~= word@);
        assert(pool@.skip(0) =~= pool@);
    }
    while j < pool.len()
        invariant
            0 <= i <= word@.len(),
            0 <= j <= pool@.len(),
            sorted_bytes(word@),
            sorted_bytes(pool@),
            sorted_bytes(result@),
            word@.take(i as int).to_multiset().add(result@.to_multiset()) == pool@.take(
                j as int,
            ).to_multiset(),
            result@.len() + i == j,
            result@.len() > 0 && j < pool@.len() ==> result@.last() <= pool@[j as int],
            word@.to_multiset().subset_of(pool@.to_multiset()) <==> word@.skip(
                i as int,
            ).to_multiset().subset_of(pool@.skip(j as int).to_multiset()),
        decreases pool@.len() - j,
    {
        let c = pool[j];
        proof {
            lemma_skip_cons_multiset(pool@, j as int);
            lemma_take_snoc_multiset(pool@, j as int);
        }
        if i < word.len() && word[i] == c {
            proof {
                lemma_skip_cons_multiset(word@, i as int);
                lemma_take_snoc_multiset(word@, i as int);
                lemma_subset_insert_both(
                    word@.skip(i as int + 1).to_multiset(),
                    pool@.skip(j as int + 1).to_multiset(),
                    c,
                );
                lemma_add_insert_left(
                    word@.take(i as int).to_multiset(),
                    result@.to_multiset(),
                    c,
                );
            }
            i += 1;
        } else {
            proof {
                let wm = word@.skip(i as int).to_multiset();
                let pm1 = pool@.skip(j as int + 1).to_multiset();
                if i < word@.len() {
                    if word@[i as int] < c {
                        let x = word@[i as int];
                        lemma_skip_small_count_zero(pool@, j as int, x);
                        lemma_skip_small_count_zero(pool@, j as int + 1, x);
                        assert(word@.skip(i as int)[0] == x);
                        assert(word@.skip(i as int).contains(x));
                        assert(wm.count(x) > 0);
                        assert(!wm.subset_of(pool@.skip(j as int).to_multiset()));
                        assert(!wm.subset_of(pm1));
                    } else {
                        assert(c < word@[i as int]);
                        lemma_skip_small_count_zero(word@, i as int, c);
                        lemma_subset_insert_right(wm, pm1, c);
                    }
                } else {
                    assert(word@.skip(i as int).len() == 0);
                    assert(wm =~= Multiset::<u8>::empty());
                    assert(wm.subset_of(pm1));
                    assert(wm.subset_of(pool@.skip(j as int).to_multiset()));
                }
                lemma_add_insert_left(
                    word@.take(i as int).to_multiset(),
                    result@.to_multiset(),
                    c,
                );
            }
            let ghost prev = result@;
            result.push(c);
            proof {
                assert(result@.drop_last() =~= prev);
                assert forall|x: int, y: int|
                    0 <= x <= y < result@.len() implies result@[x] <= result@[y] by {
                    if y < result@.len() - 1 {
                        assert(prev[x] <= prev[y]);
                    } else if x < result@.len() - 1 {
                        assert(prev[x] <= prev[prev.len() - 1]);
                    }
                }
            }
        }
        j += 1;
    }
    proof {
        assert(pool@.take(pool@.len() as int) =~= pool@);
        assert(pool@.skip(pool@.len() as int) =~= Seq::<u8>::empty());
        assert(Seq::<u8>::empty().to_multiset() =~= Multiset::<u8>::empty());
    }
    if i >= word.len() {
        proof {
            assert(word@.take(i as int) =~= word@);
            assert(word@.skip(i as int) =~= Seq::<u8>::empty());
            assert(word@.to_multiset().subset_of(pool@.to_multiset()));
            assert(result@.to_multiset() =~= pool@.to_multiset().sub(word@.to_multiset()));
        }
        Some(result)
    } else {
        proof {
            let x = word@[i as int];
            assert(word@.skip(i as int)[0] == x);
            assert(word@.skip(i as int).contains(x));
            assert(word@.skip(i as int).to_multiset().count(x) > 0);
            assert(!word@.to_multiset().subset_of(pool@.to_multiset()));
        }
        None
    }
}

/// Signature equality characterizes anagrams: two byte strings have equal
/// signatures exactly when their case-folded letter multisets are equal,
/// i.e. when they are anagrams of each other ignoring case and
/// non-alphanumeric characters.
pub proof fn lemma_signature_equality(a: Seq<u8>, b: Seq<u8>)
    ensures
        normalize_bytes(a) == normalize_bytes(b) <==> letters(a).to_multiset() == letters(
            b,
        ).to_multiset(),
{
    lemma_normalize_ensures(a);
    lemma_normalize_ensures(b);
    if letters(a).to_multiset() == letters(b).to_multiset() {
        lemma_byte_le_total();
        lemma_sorted_bytes_iff(normalize_bytes(a));
        lemma_sorted_bytes_iff(normalize_bytes(b));
        lemma_sorted_unique(normalize_bytes(a), normalize_bytes(b), byte_le_f());
    }
}

/// The same law at word level: two ASCII words have the same signature
/// exactly when their case-folded letter multisets coincide.
pub proof fn lemma_word_signature_equality(a: Seq<char>, b: Seq<char>)
    ensures
        word_sig(a) == word_sig(b) <==> letters(char_bytes(a)).to_multiset() == letters(
            char_bytes(b),
        ).to_multiset(),
{
    lemma_signature_equality(char_bytes(a), char_bytes(b));
}

} // verus!
