//! The dictionary index: words grouped under their signatures, in a fixed
//! insertion order that the search uses as its total order over entries.

use vstd::prelude::*;
use vstd::string::StrSliceExecFns;
use vstd::string::StringSliceAdditionalSpecFns;
use crate::sig::char_bytes;
use crate::sig::sorted_bytes;
use crate::sig::word_sig;
use crate::sig::make_key;

verus! {

/// An ASCII whitespace character, judged by its byte value.
pub open spec fn is_space_char(c: char) -> bool {
    (c as u8) == 0x20 || (0x09 <= (c as u8) && (c as u8) <= 0x0d)
}

/// Drops leading whitespace.
pub open spec fn trim_front(s: Seq<char>) -> Seq<char>
    decreases s.len(),
{
    if s.len() > 0 && is_space_char(s[0]) {
        trim_front(s.drop_first())
    } else {
        s
    }
}

/// Drops trailing whitespace.
pub open spec fn trim_back(s: Seq<char>) -> Seq<char>
    decreases s.len(),
{
    if s.len() > 0 && is_space_char(s.last()) {
        trim_back(s.drop_last())
    } else {
        s
    }
}

/// Drops leading and trailing whitespace.
pub open spec fn trim_spec(s: Seq<char>) -> Seq<char> {
    trim_back(trim_front(s))
}

proof fn lemma_trim_front_skip(s: Seq<char>, n: int)
    requires
        0 <= n <= s.len(),
        forall|k: int| 0 <= k < n ==> is_space_char(s[k]),
        n < s.len() ==> !is_space_char(s[n]),
    ensures
        trim_front(s) == s.skip(n),
    decreases n,
{
    if n == 0 {
        assert(s.skip(0) =~= s);
    } else {
        assert(is_space_char(s[0]));
        let t = s.drop_first();
        assert forall|k: int| 0 <= k < n - 1 implies is_space_char(t[k]) by {
            assert(t[k] == s[k + 1]);
        }
        lemma_trim_front_skip(t, n - 1);
        assert(s.skip(n) =~= t.skip(n - 1));
    }
}

proof fn lemma_trim_back_take(s: Seq<char>, n: int)
    requires
        0 <= n <= s.len(),
        forall|k: int| n <= k < s.len() ==> is_space_char(s[k]),
        n > 0 ==> !is_space_char(s[n - 1]),
    ensures
        trim_back(s) == s.take(n),
    decreases s.len(),
{
    if s.len() == 0 {
        assert(s.take(0) =~= s);
    } else if is_space_char(s.last()) {
        assert(n < s.len());
        let t = s.drop_last();
        lemma_trim_back_take(t, n);
        assert(s.take(n) =~= t.take(n));
    } else {
        assert(n == s.len());
        assert(s.take(n) =~= s);
    }
}

/// Strips leading and trailing ASCII whitespace from an ASCII string.
pub fn trim_ascii(s: &str) -> (r: &str)
    requires
        vstd::string::is_ascii(s),
    ensures
        r@ == trim_spec(s@),
        vstd::string::is_ascii(r),
{
    broadcast use vstd::string::group_string_axioms;

    let n: usize = s.unicode_len();
    let mut start: usize = 0;
    let mut scanning: bool = true;
    while scanning && start < n
        invariant
            vstd::string::is_ascii(s),
            n == s@.len(),
            0 <= start <= n,
            forall|k: int| 0 <= k < start ==> is_space_char(s@[k]),
            !scanning ==> start < n && !is_space_char(s@[start as int]),
        decreases n - start + (if scanning {
            1int
        } else {
            0int
        }),
    {
        let b = s.get_ascii(start);
        if b == 0x20 || (0x09 <= b && b <= 0x0d) {
            start += 1;
        } else {
            scanning = false;
        }
    }
    let mut end: usize = n;
    let mut scanning2: bool = true;
    while scanning2 && end > start
        invariant
            vstd::string::is_ascii(s),
            n == s@.len(),
            0 <= start <= end <= n,
            forall|k: int| end <= k < n ==> is_space_char(s@[k]),
            !scanning2 ==> end > start && !is_space_char(s@[end - 1]),
        decreases end - start + (if scanning2 {
            1int
        } else {
            0int
        }),
    {
        let b = s.get_ascii(end - 1);
        if b == 0x20 || (0x09 <= b && b <= 0x0d) {
            end -= 1;
        } else {
            scanning2 = false;
        }
    }
    let r = s.substring_ascii(start, end);
    proof {
        lemma_trim_front_skip(s@, start as int);
        let t = s@.skip(start as int);
        assert forall|k: int| end - start <= k < t.len() implies is_space_char(t[k]) by {
            assert(t[k] == s@[start + k]);
        }
        if end > start {
            assert(t[end - start - 1] == s@[end - 1]);
        }
        lemma_trim_back_take(t, end - start);
        assert(t.take(end - start) =~= s@.subrange(start as int, end as int));
    }
    r
}

/// One group of the index: a signature and the words that share it, in
/// insertion order.
pub struct Entry {
    pub key: Vec<u8>,
    pub words: Vec<String>,
}

/// `w` is one of the spellings stored in `e`.
pub open spec fn words_contain(e: Entry, w: Seq<char>) -> bool {
    exists|j: int| 0 <= j < e.words@.len() && e.words@[j]@ == w
}

/// A well-formed entry: a sorted signature, and every spelling under it is
/// ASCII and normalizes to it.
pub open spec fn entry_wf(e: Entry) -> bool {
    &&& sorted_bytes(e.key@)
    &&& forall|j: int|
        0 <= j < e.words@.len() ==> vstd::utf8::is_ascii_chars(#[trigger] e.words@[j]@)
            && word_sig(e.words@[j]@) == e.key@
}

/// The pair (signature `k`, spelling `w`) stands in the index.
pub open spec fn dict_contains_pair(entries: Seq<Entry>, k: Seq<u8>, w: Seq<char>) -> bool {
    exists|i: int|
        0 <= i < entries.len() && (#[trigger] entries[i]).key@ == k && words_contain(entries[i], w)
}

/// The dictionary index, and the owner of a search.
pub struct Anagrammer {
    pub entries: Vec<Entry>,
}

fn bytes_eq(a: &Vec<u8>, b: &Vec<u8>) -> (r: bool)
    ensures
        r <==> a@ == b@,
{
    if a.len() != b.len() {
        proof {
            assert(a@.len() != b@.len());
        }
        return false;
    }
    let mut i: usize = 0;
    while i < a.len()
        invariant
            0 <= i <= a@.len(),
            a@.len() == b@.len(),
            forall|k: int| 0 <= k < i ==> a@[k] == b@[k],
        decreases a@.len() - i,
    {
        if a[i] != b[i] {
            return false;
        }
        i += 1;
    }
    proof {
        assert(a@ =~= b@);
    }
    true
}

/// How one insertion changes the index: the word is appended to the group
/// that carries its signature, with every other group untouched, or a fresh
/// one-word group is appended at the end when no group carries it.
pub open spec fn inserted(pre: Seq<Entry>, post: Seq<Entry>, key: Seq<u8>, word: String) -> bool {
    ||| (exists|i: int|
        0 <= i < pre.len() && (#[trigger] pre[i]).key@ == key && post.len() == pre.len() && (
        forall|j: int| 0 <= j < pre.len() && j != i ==> post[j] == pre[j]) && post[i].key@ == key
            && post[i].words@ == pre[i].words@.push(word))
    ||| ((forall|i: int| 0 <= i < pre.len() ==> (#[trigger] pre[i]).key@ != key) && post.len()
        == pre.len() + 1 && (forall|j: int| 0 <= j < pre.len() ==> post[j] == pre[j])
        && post[pre.len() as int].key@ == key && post[pre.len() as int].words@ == seq![word])
}

/// The character sequences of a vector of lines.
pub open spec fn line_views(lines: Seq<String>) -> Seq<Seq<char>> {
    Seq::new(lines.len(), |i: int| lines[i]@)
}

/// How one line changes the index while building: an acceptable line's
/// trimmed word is inserted under its signature, any other line changes
/// nothing.
pub open spec fn line_step(prev: Seq<Entry>, l: Seq<char>, post: Seq<Entry>) -> bool {
    if line_ok(l) {
        exists|word: String|
            word@ == trim_spec(l) && inserted(prev, post, word_sig(trim_spec(l)), word)
    } else {
        post == prev
    }
}

/// The index is exactly what processing the lines in order builds, starting
/// from an empty index.
pub open spec fn built_from(lines: Seq<Seq<char>>, entries: Seq<Entry>) -> bool
    decreases lines.len(),
{
    if lines.len() == 0 {
        entries.len() == 0
    } else {
        exists|prev: Seq<Entry>|
            #![trigger line_step(prev, lines.last(), entries)]
            built_from(lines.drop_last(), prev) && line_step(prev, lines.last(), entries)
    }
}

proof fn lemma_built_from_step(lines: Seq<Seq<char>>, prev: Seq<Entry>, post: Seq<Entry>)
    requires
        lines.len() > 0,
        built_from(lines.drop_last(), prev),
        line_step(prev, lines.last(), post),
    ensures
        built_from(lines, post),
{
    assert(built_from(lines.drop_last(), prev) && line_step(prev, lines.last(), post));
}

impl Anagrammer {
    /// Well-formedness: every entry is well formed and no signature repeats.
    pub open spec fn wf(self) -> bool {
        &&& forall|i: int| 0 <= i < self.entries@.len() ==> entry_wf(#[trigger] self.entries@[i])
        &&& forall|i: int, j: int|
            0 <= i < j < self.entries@.len() ==> self.entries@[i].key@ != self.entries@[j].key@
    }

    /// Adds one spelling under its signature, extending the group that
    /// carries the signature or appending a fresh group.
    fn insert_word(&mut self, key: Vec<u8>, word: String)
        requires
            old(self).wf(),
            sorted_bytes(key@),
            vstd::utf8::is_ascii_chars(word@),
            word_sig(word@) == key@,
        ensures
            final(self).wf(),
            dict_contains_pair(final(self).entries@, key@, word@),
            forall|k: Seq<u8>, w: Seq<char>|
                dict_contains_pair(old(self).entries@, k, w) ==> dict_contains_pair(
                    final(self).entries@,
                    k,
                    w,
                ),
            forall|k: Seq<u8>, w: Seq<char>|
                dict_contains_pair(final(self).entries@, k, w) ==> dict_contains_pair(
                    old(self).entries@,
                    k,
                    w,
                ) || (k == key@ && w == word@),
            inserted(old(self).entries@, final(self).entries@, key@, word),
    {
        let ghost orig = self.entries@;
        let mut i: usize = 0;
        while i < self.entries.len()
            invariant
                0 <= i <= self.entries@.len(),
                self.entries@ == orig,
                orig == old(self).entries@,
                old(self).wf(),
                sorted_bytes(key@),
                vstd::utf8::is_ascii_chars(word@),
                word_sig(word@) == key@,
                forall|t: int| 0 <= t < i ==> (#[trigger] orig[t]).key@ != key@,
            decreases self.entries@.len() - i,
        {
            if bytes_eq(&self.entries[i].key, &key) {
                let mut e = self.entries.remove(i);
                let ghost oldwords = e.words@;
                e.words.push(word);
                self.entries.insert(i, e);
                proof {
                    assert(self.entries@ =~= orig.update(i as int, e));
                    assert(e.words@ =~= oldwords.push(word));
                    assert forall|ii: int|
                        0 <= ii < self.entries@.len() implies entry_wf(
                        #[trigger] self.entries@[ii],
                    ) by {
                        if ii == i {
                            assert(entry_wf(orig[ii]));
                            assert forall|j: int|
                                0 <= j < e.words@.len() implies vstd::utf8::is_ascii_chars(
                                #[trigger] e.words@[j]@,
                            ) && word_sig(e.words@[j]@) == e.key@ by {
                                if j < oldwords.len() {
                                    assert(e.words@[j] == oldwords[j]);
                                }
                            }
                        } else {
                            assert(entry_wf(orig[ii]));
                        }
                    }
                    assert(self.entries@[i as int] == e);
                    assert(e.words@[oldwords.len() as int]@ == word@);
                    assert(words_contain(self.entries@[i as int], word@));
                    assert(dict_contains_pair(self.entries@, key@, word@));
                    assert forall|k: Seq<u8>, w: Seq<char>|
                        dict_contains_pair(orig, k, w) implies dict_contains_pair(
                        self.entries@,
                        k,
                        w,
                    ) by {
                        let i0 = choose|i0: int|
                            0 <= i0 < orig.len() && (#[trigger] orig[i0]).key@ == k
                                && words_contain(orig[i0], w);
                        if i0 == i {
                            let j0 = choose|j0: int|
                                0 <= j0 < orig[i0].words@.len() && orig[i0].words@[j0]@ == w;
                            assert(self.entries@[i0].words@[j0]@ == w);
                            assert(words_contain(self.entries@[i0], w));
                        } else {
                            assert(self.entries@[i0] == orig[i0]);
                        }
                    }
                    assert forall|k: Seq<u8>, w: Seq<char>|
                        dict_contains_pair(self.entries@, k, w) implies dict_contains_pair(
                        orig,
                        k,
                        w,
                    ) || (k == key@ && w == word@) by {
                        let i0 = choose|i0: int|
                            0 <= i0 < self.entries@.len() && (#[trigger] self.entries@[i0]).key@
                                == k && words_contain(self.entries@[i0], w);
                        if i0 == i {
                            let j0 = choose|j0: int|
                                0 <= j0 < e.words@.len() && e.words@[j0]@ == w;
                            if j0 < oldwords.len() {
                                assert(orig[i0].words@[j0]@ == w);
                                assert(words_contain(orig[i0], w));
                            } else {
                                assert(w == word@);
                            }
                        } else {
                            assert(self.entries@[i0] == orig[i0]);
                        }
                    }
                    assert(self.entries@[i as int].words@ =~= orig[i as int].words@.push(word));
                    assert forall|j: int|
                        0 <= j < orig.len() && j != i implies self.entries@[j] == orig[j] by {
                    }
                }
                return ;
            }
            i += 1;
        }
        let mut ws: Vec<String> = Vec::new();
        ws.push(word);
        let ghost wsnap = ws@;
        self.entries.push(Entry { key, words: ws });
        proof {
            let n = orig.len() as int;
            assert(self.entries@ =~= orig.push(self.entries@[n]));
            assert(self.entries@[n].words@[0]@ == word@);
            assert(words_contain(self.entries@[n], word@));
            assert(dict_contains_pair(self.entries@, key@, word@));
            assert forall|ii: int|
                0 <= ii < self.entries@.len() implies entry_wf(#[trigger] self.entries@[ii]) by {
                if ii < n {
                    assert(self.entries@[ii] == orig[ii]);
                    assert(entry_wf(orig[ii]));
                }
            }
            assert forall|k: Seq<u8>, w: Seq<char>|
                dict_contains_pair(orig, k, w) implies dict_contains_pair(self.entries@, k, w) by {
                let i0 = choose|i0: int|
                    0 <= i0 < orig.len() && (#[trigger] orig[i0]).key@ == k && words_contain(
                        orig[i0],
                        w,
                    );
                assert(self.entries@[i0] == orig[i0]);
            }
            assert forall|k: Seq<u8>, w: Seq<char>|
                dict_contains_pair(self.entries@, k, w) implies dict_contains_pair(orig, k, w) || (
                k == key@ && w == word@) by {
                let i0 = choose|i0: int|
                    0 <= i0 < self.entries@.len() && (#[trigger] self.entries@[i0]).key@ == k
                        && words_contain(self.entries@[i0], w);
                if i0 < n {
                    assert(self.entries@[i0] == orig[i0]);
                } else {
                    let j0 = choose|j0: int|
                        0 <= j0 < self.entries@[i0].words@.len() && self.entries@[i0].words@[j0]@
                            == w;
                    assert(w == word@);
                }
            }
            assert(self.entries@[n].words@ =~= seq![word]);
        }
    }

    /// Builds the index from raw word-source lines.  A line contributes a
    /// word when it is ASCII and non-empty after trimming; other lines are
    /// skipped rather than aborting the build.
    pub fn from_word_list(lines: &Vec<String>) -> (a: Anagrammer)
        ensures
            a.wf(),
            forall|li: int|
                0 <= li < lines@.len() && line_ok(#[trigger] lines@[li]@) ==> dict_contains_pair(
                    a.entries@,
                    word_sig(trim_spec(lines@[li]@)),
                    trim_spec(lines@[li]@),
                ),
            forall|k: Seq<u8>, w: Seq<char>|
                dict_contains_pair(a.entries@, k, w) ==> k == word_sig(w) && exists|li: int|
                    0 <= li < lines@.len() && line_ok(#[trigger] lines@[li]@) && w == trim_spec(
                        lines@[li]@,
                    ),
            built_from(line_views(lines@), a.entries@),
    {
        let mut a = Anagrammer { entries: Vec::new() };
        assert(a.entries@.len() == 0);
        proof {
            assert(line_views(lines@).take(0) =~= Seq::<Seq<char>>::empty());
        }
        let mut li: usize = 0;
        while li < lines.len()
            invariant
                0 <= li <= lines@.len(),
                built_from(line_views(lines@).take(li as int), a.entries@),
                a.wf(),
                forall|t: int|
                    0 <= t < li && line_ok(#[trigger] lines@[t]@) ==> dict_contains_pair(
                        a.entries@,
                        word_sig(trim_spec(lines@[t]@)),
                        trim_spec(lines@[t]@),
                    ),
                forall|k: Seq<u8>, w: Seq<char>|
                    dict_contains_pair(a.entries@, k, w) ==> k == word_sig(w) && exists|t: int|
                        0 <= t < li && line_ok(#[trigger] lines@[t]@) && w == trim_spec(
                            lines@[t]@,
                        ),
            decreases lines@.len() - li,
        {
            let ghost prev = a.entries@;
            let ghost lv = line_views(lines@);
            let line: &String = &lines[li];
            let s: &str = line.as_str();
            if s.is_ascii() {
                let t: &str = trim_ascii(s);
                if t.unicode_len() > 0 {
                    match make_key(t) {
                        Some(key) => {
                            proof {
                                crate::sig::lemma_normalize_ensures(char_bytes(t@));
                            }
                            let word = t.to_owned();
                            a.insert_word(key, word);
                            proof {
                                assert(line_ok(lv[li as int]));
                                assert(word@ == trim_spec(lv[li as int]));
                                assert(line_step(prev, lv[li as int], a.entries@));
                            }
                        },
                        None => {
                            // An ASCII word always has a signature.
                            proof {
                                assert(false);
                            }
                        },
                    }
                } else {
                    proof {
                        assert(!line_ok(lv[li as int]));
                        assert(line_step(prev, lv[li as int], a.entries@));
                    }
                }
            } else {
                proof {
                    assert(!vstd::utf8::is_ascii_chars(lv[li as int]));
                    assert(!line_ok(lv[li as int]));
                    assert(line_step(prev, lv[li as int], a.entries@));
                }
            }
            proof {
                assert(lv.take(li + 1).drop_last() =~= lv.take(li as int));
                assert(lv.take(li + 1).last() == lv[li as int]);
                assert(built_from(lv.take(li + 1).drop_last(), prev));
                assert(line_step(prev, lv.take(li + 1).last(), a.entries@));
                lemma_built_from_step(lv.take(li + 1), prev, a.entries@);
            }
            li += 1;
        }
        proof {
            assert(line_views(lines@).take(lines@.len() as int) =~= line_views(lines@));
        }
        a
    }

    /// Builds the index from the compact built-in word list: the same
    /// index `from_word_list` builds from the lines of `default_lines`.
    pub fn from_default_list() -> (a: Anagrammer)
        ensures
            a.wf(),
            a.entries@.len() > 0,
            forall|li: int|
                0 <= li < default_lines().len() && line_ok(#[trigger] default_lines()[li])
                    ==> dict_contains_pair(
                    a.entries@,
                    word_sig(trim_spec(default_lines()[li])),
                    trim_spec(default_lines()[li]),
                ),
            forall|k: Seq<u8>, w: Seq<char>|
                dict_contains_pair(a.entries@, k, w) ==> k == word_sig(w) && exists|li: int|
                    0 <= li < default_lines().len() && line_ok(#[trigger] default_lines()[li])
                        && w == trim_spec(default_lines()[li]),
            built_from(default_lines(), a.entries@),
    {
        let words = default_word_list();
        let a = Anagrammer::from_word_list(&words);
        proof {
            assert(line_views(words@) =~= default_lines());
            assert forall|li: int|
                0 <= li < default_lines().len() && line_ok(
                    #[trigger] default_lines()[li],
                ) implies dict_contains_pair(
                a.entries@,
                word_sig(trim_spec(default_lines()[li])),
                trim_spec(default_lines()[li]),
            ) by {
                assert(words@[li]@ == default_lines()[li]);
                assert(line_ok(words@[li]@));
            }
            assert forall|k: Seq<u8>, w: Seq<char>|
                dict_contains_pair(a.entries@, k, w) implies k == word_sig(w) && exists|li: int|
                0 <= li < default_lines().len() && line_ok(#[trigger] default_lines()[li]) && w
                    == trim_spec(default_lines()[li]) by {
                let li = choose|li: int|
                    0 <= li < words@.len() && line_ok(#[trigger] words@[li]@) && w == trim_spec(
                        words@[li]@,
                    );
                assert(words@[li]@ == default_lines()[li]);
            }
            let l = words@[0]@;
            reveal_strlit("tea");
            assert(l.len() == 3);
            assert(l[0] == 't' && l[1] == 'e' && l[2] == 'a');
            assert(vstd::utf8::is_ascii_chars(l)) by {
                assert(forall|i: int| 0 <= i < l.len() ==> (l[i] == 't' || l[i] == 'e' || l[i] == 'a'));
            }
            assert(!is_space_char(l[0]));
            assert(trim_front(l) == l);
            assert(!is_space_char(l.last()));
            assert(trim_back(l) == l);
            assert(trim_spec(l).len() > 0);
            assert(line_ok(l));
            assert(dict_contains_pair(a.entries@, word_sig(trim_spec(l)), trim_spec(l)));
            let i0 = choose|i0: int|
                0 <= i0 < a.entries@.len() && (#[trigger] a.entries@[i0]).key@ == word_sig(
                    trim_spec(l),
                ) && words_contain(a.entries@[i0], trim_spec(l));
            assert(a.entries@.len() > 0);
        }
        a
    }
}

/// The lines of the built-in word list.
pub open spec fn default_lines() -> Seq<Seq<char>> {
    seq![
        "tea"@,
        "eat"@,
        "ate"@,
        "a"@,
        "i"@,
        "an"@,
        "at"@,
        "tab"@,
        "bat"@,
        "cat"@,
        "act"@,
        "dog"@,
        "god"@,
        "no"@,
        "on"@,
        "not"@,
        "ton"@,
        "net"@,
        "ten"@,
        "rat"@,
        "tar"@,
        "art"@,
        "star"@,
        "rats"@,
        "arts"@,
        "east"@,
        "seat"@,
        "teas"@,
        "late"@,
        "tale"@,
        "deal"@,
        "lead"@,
        "lamp"@,
        "palm"@,
        "mean"@,
        "name"@,
        "amen"@,
        "time"@,
        "item"@,
        "emit"@,
        "stop"@,
        "tops"@,
        "pots"@,
        "spot"@,
        "post"@,
    ]
}

/// The compact built-in word list used when no word source is given.
pub fn default_word_list() -> (v: Vec<String>)
    ensures
        v@.len() == default_lines().len(),
        forall|i: int| 0 <= i < v@.len() ==> v@[i]@ == #[trigger] default_lines()[i],
{
    let mut v: Vec<String> = Vec::new();
    v.push("tea".to_owned());
    v.push("eat".to_owned());
    v.push("ate".to_owned());
    v.push("a".to_owned());
    v.push("i".to_owned());
    v.push("an".to_owned());
    v.push("at".to_owned());
    v.push("tab".to_owned());
    v.push("bat".to_owned());
    v.push("cat".to_owned());
    v.push("act".to_owned());
    v.push("dog".to_owned());
    v.push("god".to_owned());
    v.push("no".to_owned());
    v.push("on".to_owned());
    v.push("not".to_owned());
    v.push("ton".to_owned());
    v.push("net".to_owned());
    v.push("ten".to_owned());
    v.push("rat".to_owned());
    v.push("tar".to_owned());
    v.push("art".to_owned());
    v.push("star".to_owned());
    v.push("rats".to_owned());
    v.push("arts".to_owned());
    v.push("east".to_owned());
    v.push("seat".to_owned());
    v.push("teas".to_owned());
    v.push("late".to_owned());
    v.push("tale".to_owned());
    v.push("deal".to_owned());
    v.push("lead".to_owned());
    v.push("lamp".to_owned());
    v.push("palm".to_owned());
    v.push("mean".to_owned());
    v.push("name".to_owned());
    v.push("amen".to_owned());
    v.push("time".to_owned());
    v.push("item".to_owned());
    v.push("emit".to_owned());
    v.push("stop".to_owned());
    v.push("tops".to_owned());
    v.push("pots".to_owned());
    v.push("spot".to_owned());
    v.push("post".to_owned());
    proof {
        assert forall|i: int| 0 <= i < v@.len() implies v@[i]@ == #[trigger] default_lines()[i] by {
        }
    }
    v
}

/// Which lines of a word source contribute a dictionary word: ASCII lines
/// whose trimmed form is non-empty.
pub open spec fn line_ok(l: Seq<char>) -> bool {
    vstd::utf8::is_ascii_chars(l) && trim_spec(l).len() > 0
}

/// Keeps an entry when its signature is a sub-multiset of the pool.
pub open spec fn pool_pred(pool: Seq<u8>) -> spec_fn(Entry) -> bool {
    |e: Entry| e.key@.to_multiset().subset_of(pool.to_multiset())
}

/// Keeps an entry when its signature length lies within the given bounds.
pub open spec fn len_pred(minletters: int, maxletters: int) -> spec_fn(Entry) -> bool {
    |e: Entry| minletters <= e.key@.len() <= maxletters
}

pub(crate) proof fn lemma_filter_take_step(s: Seq<Entry>, n: int, p: spec_fn(Entry) -> bool)
    requires
        0 <= n < s.len(),
    ensures
        s.take(n + 1).filter(p) == (if p(s[n]) {
            s.take(n).filter(p).push(s[n])
        } else {
            s.take(n).filter(p)
        }),
{
    reveal(Seq::filter);
    assert(s.take(n + 1).drop_last() =~= s.take(n));
    assert(s.take(n + 1).last() == s[n]);
}

proof fn lemma_filter_idempotent_rec(s: Seq<Entry>, p: spec_fn(Entry) -> bool)
    ensures
        s.filter(p).filter(p) == s.filter(p),
    decreases s.len(),
{
    reveal(Seq::filter);
    if s.len() == 0 {
        assert(s.filter(p) =~= s);
    } else {
        let t = s.drop_last();
        lemma_filter_idempotent_rec(t, p);
        if p(s.last()) {
            assert(s.filter(p) == t.filter(p).push(s.last()));
            let u = t.filter(p).push(s.last());
            assert(u.drop_last() =~= t.filter(p));
            assert(u.last() == s.last());
            assert(u.filter(p) == t.filter(p).filter(p).push(s.last()));
        } else {
            assert(s.filter(p) == t.filter(p));
        }
    }
}

/// Restricting an index to a pool is idempotent: filtering the entries by
/// the same pool a second time changes nothing.
pub proof fn lemma_restrict_idempotent(entries: Seq<Entry>, pool: Seq<u8>)
    ensures
        entries.filter(pool_pred(pool)).filter(pool_pred(pool)) == entries.filter(
            pool_pred(pool),
        ),
{
    lemma_filter_idempotent_rec(entries, pool_pred(pool));
}

impl Anagrammer {
    /// Drops every entry whose signature is not a sub-multiset of `pool`,
    /// keeping the surviving entries in their original order.
    pub fn restrict(&mut self, pool: &[u8])
        requires
            old(self).wf(),
            sorted_bytes(pool@),
        ensures
            final(self).wf(),
            final(self).entries@ == old(self).entries@.filter(pool_pred(pool@)),
    {
        let ghost orig = self.entries@;
        let ghost p = pool_pred(pool@);
        let mut kept: Vec<Entry> = Vec::new();
        let ghost mut n: int = 0;
        proof {
            assert(orig.take(0).filter(p) =~= Seq::<Entry>::empty());
            assert(self.entries@ =~= orig.skip(0));
        }
        while self.entries.len() > 0
            invariant
                old(self).wf(),
                orig == old(self).entries@,
                sorted_bytes(pool@),
                p == pool_pred(pool@),
                0 <= n,
                n + self.entries@.len() == orig.len(),
                self.entries@ == orig.skip(n),
                kept@ == orig.take(n).filter(p),
                forall|i: int| 0 <= i < kept@.len() ==> entry_wf(#[trigger] kept@[i]),
                forall|i: int, j: int|
                    0 <= i < j < kept@.len() ==> kept@[i].key@ != kept@[j].key@,
                forall|i: int|
                    0 <= i < kept@.len() ==> exists|t: int|
                        0 <= t < n && #[trigger] kept@[i] == orig[t],
            decreases self.entries@.len(),
        {
            let e = self.entries.remove(0);
            proof {
                assert(orig.skip(n)[0] == orig[n]);
                assert(e == orig[n]);
                assert(self.entries@ =~= orig.skip(n + 1));
                assert(entry_wf(e));
            }
            let keep = match crate::sig::subtract(e.key.as_slice(), pool) {
                Some(_) => true,
                None => false,
            };
            proof {
                lemma_filter_take_step(orig, n, p);
                assert(p(orig[n]) <==> keep);
            }
            if keep {
                kept.push(e);
                proof {
                    assert(kept@.last() == orig[n]);
                    assert forall|i: int, j: int|
                        0 <= i < j < kept@.len() implies kept@[i].key@ != kept@[j].key@ by {
                        if j == kept@.len() - 1 {
                            let t = choose|t: int| 0 <= t < n && #[trigger] kept@[i] == orig[t];
                            assert(orig[t].key@ != orig[n].key@);
                        }
                    }
                }
            }
            proof {
                n = n + 1;
            }
        }
        proof {
            assert(orig.take(orig.len() as int) =~= orig);
        }
        self.entries = kept;
    }

    /// Drops every entry whose signature length falls outside
    /// `[minletters, maxletters]`, keeping the rest in order.
    pub fn restrict_letters(&mut self, minletters: usize, maxletters: usize)
        requires
            old(self).wf(),
        ensures
            final(self).wf(),
            final(self).entries@ == old(self).entries@.filter(
                len_pred(minletters as int, maxletters as int),
            ),
    {
        let ghost orig = self.entries@;
        let ghost p = len_pred(minletters as int, maxletters as int);
        let mut kept: Vec<Entry> = Vec::new();
        let ghost mut n: int = 0;
        proof {
            assert(orig.take(0).filter(p) =~= Seq::<Entry>::empty());
            assert(self.entries@ =~= orig.skip(0));
        }
        while self.entries.len() > 0
            invariant
                old(self).wf(),
                orig == old(self).entries@,
                p == len_pred(minletters as int, maxletters as int),
                0 <= n,
                n + self.entries@.len() == orig.len(),
                self.entries@ == orig.skip(n),
                kept@ == orig.take(n).filter(p),
                forall|i: int| 0 <= i < kept@.len() ==> entry_wf(#[trigger] kept@[i]),
                forall|i: int, j: int|
                    0 <= i < j < kept@.len() ==> kept@[i].key@ != kept@[j].key@,
                forall|i: int|
                    0 <= i < kept@.len() ==> exists|t: int|
                        0 <= t < n && #[trigger] kept@[i] == orig[t],
            decreases self.entries@.len(),
        {
            let e = self.entries.remove(0);
            proof {
                assert(orig.skip(n)[0] == orig[n]);
                assert(e == orig[n]);
                assert(self.entries@ =~= orig.skip(n + 1));
                assert(entry_wf(e));
            }
            let keep = minletters <= e.key.len() && e.key.len() <= maxletters;
            proof {
                lemma_filter_take_step(orig, n, p);
                assert(p(orig[n]) <==> keep);
            }
            if keep {
                kept.push(e);
                proof {
                    assert(kept@.last() == orig[n]);
                    assert forall|i: int, j: int|
                        0 <= i < j < kept@.len() implies kept@[i].key@ != kept@[j].key@ by {
                        if j == kept@.len() - 1 {
                            let t = choose|t: int| 0 <= t < n && #[trigger] kept@[i] == orig[t];
                            assert(orig[t].key@ != orig[n].key@);
                        }
                    }
                }
            }
            proof {
                n = n + 1;
            }
        }
        proof {
            assert(orig.take(orig.len() as int) =~= orig);
        }
        self.entries = kept;
    }
}

} // verus!
