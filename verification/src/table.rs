//! The frequency table: for every context window observed in the padded
//! corpus stream, how often each character followed it.

use vstd::prelude::*;

use crate::model::{
    chars_views, corpus_stream, key_window_at, key_window_count, key_window_count_upto, lower_of,
    lowered, padded, spaces,
    window_at, window_count, window_count_upto, lemma_nonempty_word_gives_start_window,
    lemma_padded_push, lemma_upto_mono,
};
use crate::WordGenError;

verus! {

/// One observed successor character and how often it was seen.
#[derive(Debug, Clone)]
pub struct CharCount {
    pub ch: char,
    pub n: u64,
}

/// One context window and the tally of every character seen right after it.
#[derive(Debug, Clone)]
pub struct TableEntry {
    pub key: Vec<char>,
    pub counts: Vec<CharCount>,
}

/// A Markov model of a corpus: the likelihood of each character to appear
/// after the `accuracy` previous characters.
#[derive(Debug, Clone)]
pub struct ProbabilityTable {
    pub entries: Vec<TableEntry>,
    pub accuracy: usize,
}

/// The first index of `counts` tallying `c`, or -1 if none does.
pub open spec fn char_index(counts: Seq<CharCount>, c: char) -> int
    decreases counts.len(),
{
    if counts.len() == 0 {
        -1
    } else if counts[0].ch == c {
        0
    } else {
        let r = char_index(counts.drop_first(), c);
        if r < 0 {
            -1
        } else {
            r + 1
        }
    }
}

/// The first index of `entries` keyed by `key`, or -1 if none is.
pub open spec fn key_index(entries: Seq<TableEntry>, key: Seq<char>) -> int
    decreases entries.len(),
{
    if entries.len() == 0 {
        -1
    } else if entries[0].key@ == key {
        0
    } else {
        let r = key_index(entries.drop_first(), key);
        if r < 0 {
            -1
        } else {
            r + 1
        }
    }
}

/// The tally of `c` in `counts`, 0 if `c` is not tallied.
pub open spec fn counts_count(counts: Seq<CharCount>, c: char) -> nat {
    let i = char_index(counts, c);
    if i >= 0 {
        counts[i].n as nat
    } else {
        0
    }
}

/// How often the table records `c` as following the context `key`.
pub open spec fn entries_count(entries: Seq<TableEntry>, key: Seq<char>, c: char) -> nat {
    let i = key_index(entries, key);
    if i >= 0 {
        counts_count(entries[i].counts@, c)
    } else {
        0
    }
}

/// The sum of all tallies of one entry.
pub open spec fn counts_sum(counts: Seq<CharCount>) -> int
    decreases counts.len(),
{
    if counts.len() == 0 {
        0
    } else {
        counts_sum(counts.drop_last()) + counts.last().n
    }
}

/// Well-formedness of one entry for context length `k`: the key has width
/// `k`, at least one successor was observed, every tally is positive, no
/// character is tallied twice, and the tallies sum within `u64`.
pub open spec fn entry_wf(e: TableEntry, k: nat) -> bool {
    &&& e.key@.len() == k
    &&& e.counts@.len() > 0
    &&& forall|i: int| 0 <= i < e.counts@.len() ==> (#[trigger] e.counts@[i]).n >= 1
    &&& forall|i: int, j: int|
        0 <= i < j < e.counts@.len() ==> (#[trigger] e.counts@[i]).ch != (#[trigger] e.counts@[j]).ch
    &&& counts_sum(e.counts@) <= u64::MAX
}

/// Well-formedness of a whole entry list: every entry well formed, no
/// context listed twice.
pub open spec fn entries_wf(entries: Seq<TableEntry>, k: nat) -> bool {
    &&& forall|i: int| 0 <= i < entries.len() ==> entry_wf(#[trigger] entries[i], k)
    &&& forall|i: int, j: int|
        0 <= i < j < entries.len() ==> (#[trigger] entries[i]).key@ != (#[trigger] entries[j]).key@
}

impl ProbabilityTable {
    /// Well-formedness: a positive context length and a well-formed tally.
    pub open spec fn wf(self) -> bool {
        &&& self.accuracy >= 1
        &&& entries_wf(self.entries@, self.accuracy as nat)
    }

    /// How often this table records `c` as following the context `key`.
    pub open spec fn count(self, key: Seq<char>, c: char) -> nat {
        entries_count(self.entries@, key, c)
    }

    /// Does this table have an entry for the context `key`?
    pub open spec fn has_context(self, key: Seq<char>) -> bool {
        key_index(self.entries@, key) >= 0
    }
}

/// Where `char_index` points, and that it points at the first match.
pub proof fn lemma_char_index_props(counts: Seq<CharCount>, c: char)
    ensures
        -1 <= char_index(counts, c) < counts.len(),
        char_index(counts, c) >= 0 ==> counts[char_index(counts, c)].ch == c,
        char_index(counts, c) >= 0 ==> forall|j: int|
            0 <= j < char_index(counts, c) ==> (#[trigger] counts[j]).ch != c,
        char_index(counts, c) == -1 ==> forall|j: int|
            0 <= j < counts.len() ==> (#[trigger] counts[j]).ch != c,
    decreases counts.len(),
{
    if counts.len() > 0 && counts[0].ch != c {
        lemma_char_index_props(counts.drop_first(), c);
        assert(forall|j: int|
            1 <= j < counts.len() ==> #[trigger] counts[j] == counts.drop_first()[j - 1]);
    }
}

/// Replacing a tally, keeping its character, moves no index.
pub proof fn lemma_char_index_update(counts: Seq<CharCount>, i: int, x: CharCount, c: char)
    requires
        0 <= i < counts.len(),
        x.ch == counts[i].ch,
    ensures
        char_index(counts.update(i, x), c) == char_index(counts, c),
    decreases counts.len(),
{
    let u = counts.update(i, x);
    if i == 0 {
        if counts[0].ch != c {
            assert(u.drop_first() =~= counts.drop_first());
        }
    } else {
        assert(u[0] == counts[0]);
        if counts[0].ch != c {
            assert(u.drop_first() =~= counts.drop_first().update(i - 1, x));
            lemma_char_index_update(counts.drop_first(), i - 1, x, c);
        }
    }
}

/// Appending a tally leaves old indexes and adds one for a new character.
pub proof fn lemma_char_index_push(counts: Seq<CharCount>, x: CharCount, c: char)
    ensures
        char_index(counts.push(x), c) == if char_index(counts, c) >= 0 {
            char_index(counts, c)
        } else if x.ch == c {
            counts.len() as int
        } else {
            -1
        },
    decreases counts.len(),
{
    let p = counts.push(x);
    assert(p.len() == counts.len() + 1);
    if counts.len() == 0 {
        assert(p[0] == x);
        assert(p.drop_first() =~= Seq::<CharCount>::empty());
        assert(char_index(p.drop_first(), c) == -1);
        if x.ch == c {
            assert(char_index(p, c) == 0);
        } else {
            assert(char_index(p, c) == -1);
        }
    } else {
        assert(p[0] == counts[0]);
        if counts[0].ch == c {
            assert(char_index(p, c) == 0);
            assert(char_index(counts, c) == 0);
        } else {
            assert(p.drop_first() =~= counts.drop_first().push(x));
            lemma_char_index_push(counts.drop_first(), x, c);
            assert(char_index(p.drop_first(), c) == char_index(counts.drop_first().push(x), c));
            let r = char_index(counts.drop_first(), c);
            if r >= 0 {
                assert(char_index(counts, c) == r + 1);
                assert(char_index(p, c) == r + 1);
            } else if x.ch == c {
                assert(char_index(counts, c) == -1);
                assert(char_index(p.drop_first(), c) == counts.drop_first().len());
                assert(char_index(p, c) == counts.len() as int);
            } else {
                assert(char_index(counts, c) == -1);
                assert(char_index(p, c) == -1);
            }
        }
    }
}

/// Where `key_index` points, and that it points at the first match.
pub proof fn lemma_key_index_props(entries: Seq<TableEntry>, key: Seq<char>)
    ensures
        -1 <= key_index(entries, key) < entries.len(),
        key_index(entries, key) >= 0 ==> entries[key_index(entries, key)].key@ == key,
        key_index(entries, key) >= 0 ==> forall|j: int|
            0 <= j < key_index(entries, key) ==> (#[trigger] entries[j]).key@ != key,
        key_index(entries, key) == -1 ==> forall|j: int|
            0 <= j < entries.len() ==> (#[trigger] entries[j]).key@ != key,
    decreases entries.len(),
{
    if entries.len() > 0 && entries[0].key@ != key {
        lemma_key_index_props(entries.drop_first(), key);
        assert(forall|j: int|
            1 <= j < entries.len() ==> #[trigger] entries[j] == entries.drop_first()[j - 1]);
    }
}

/// Replacing an entry, keeping its key, moves no index.
pub proof fn lemma_key_index_update(entries: Seq<TableEntry>, i: int, x: TableEntry, key: Seq<char>)
    requires
        0 <= i < entries.len(),
        x.key@ == entries[i].key@,
    ensures
        key_index(entries.update(i, x), key) == key_index(entries, key),
    decreases entries.len(),
{
    let u = entries.update(i, x);
    if i == 0 {
        if entries[0].key@ != key {
            assert(u.drop_first() =~= entries.drop_first());
        }
    } else {
        assert(u[0] == entries[0]);
        if entries[0].key@ != key {
            assert(u.drop_first() =~= entries.drop_first().update(i - 1, x));
            lemma_key_index_update(entries.drop_first(), i - 1, x, key);
        }
    }
}

/// Appending an entry leaves old indexes and adds one for a new key.
pub proof fn lemma_key_index_push(entries: Seq<TableEntry>, x: TableEntry, key: Seq<char>)
    ensures
        key_index(entries.push(x), key) == if key_index(entries, key) >= 0 {
            key_index(entries, key)
        } else if x.key@ == key {
            entries.len() as int
        } else {
            -1
        },
    decreases entries.len(),
{
    let p = entries.push(x);
    assert(p.len() == entries.len() + 1);
    if entries.len() == 0 {
        assert(p[0] == x);
        assert(p.drop_first() =~= Seq::<TableEntry>::empty());
        assert(key_index(p.drop_first(), key) == -1);
        if x.key@ == key {
            assert(key_index(p, key) == 0);
        } else {
            assert(key_index(p, key) == -1);
        }
    } else {
        assert(p[0] == entries[0]);
        if entries[0].key@ == key {
            assert(key_index(p, key) == 0);
            assert(key_index(entries, key) == 0);
        } else {
            assert(p.drop_first() =~= entries.drop_first().push(x));
            lemma_key_index_push(entries.drop_first(), x, key);
            assert(key_index(p.drop_first(), key) == key_index(entries.drop_first().push(x), key));
            let r = key_index(entries.drop_first(), key);
            if r >= 0 {
                assert(key_index(entries, key) == r + 1);
                assert(key_index(p, key) == r + 1);
            } else if x.key@ == key {
                assert(key_index(entries, key) == -1);
                assert(key_index(p.drop_first(), key) == entries.drop_first().len());
                assert(key_index(p, key) == entries.len() as int);
            } else {
                assert(key_index(entries, key) == -1);
                assert(key_index(p, key) == -1);
            }
        }
    }
}

/// Replacing one tally changes the sum by the difference of the two.
pub proof fn lemma_counts_sum_update(counts: Seq<CharCount>, i: int, x: CharCount)
    requires
        0 <= i < counts.len(),
    ensures
        counts_sum(counts.update(i, x)) == counts_sum(counts) - counts[i].n + x.n,
    decreases counts.len(),
{
    let u = counts.update(i, x);
    if i == counts.len() - 1 {
        assert(u.drop_last() =~= counts.drop_last());
        assert(u.last() == x);
    } else {
        assert(u.drop_last() =~= counts.drop_last().update(i, x));
        assert(u.last() == counts.last());
        lemma_counts_sum_update(counts.drop_last(), i, x);
    }
}

/// Appending a tally adds it to the sum.
pub proof fn lemma_counts_sum_push(counts: Seq<CharCount>, x: CharCount)
    ensures
        counts_sum(counts.push(x)) == counts_sum(counts) + x.n,
{
    assert(counts.push(x).drop_last() =~= counts);
    assert(counts.push(x).last() == x);
}

/// A sum of unsigned tallies is non-negative.
pub proof fn lemma_counts_sum_nonneg(counts: Seq<CharCount>)
    ensures
        counts_sum(counts) >= 0,
    decreases counts.len(),
{
    if counts.len() > 0 {
        lemma_counts_sum_nonneg(counts.drop_last());
    }
}

/// No single tally exceeds the sum of all of them.
pub proof fn lemma_counts_sum_lb(counts: Seq<CharCount>, i: int)
    requires
        0 <= i < counts.len(),
    ensures
        counts[i].n <= counts_sum(counts),
    decreases counts.len(),
{
    if i == counts.len() - 1 {
        lemma_counts_sum_nonneg(counts.drop_last());
    } else {
        lemma_counts_sum_lb(counts.drop_last(), i);
        assert(counts.drop_last()[i] == counts[i]);
        assert(counts.last().n >= 0);
    }
}

/// Do two character vectors hold the same characters?
fn eq_chars(a: &Vec<char>, b: &Vec<char>) -> (r: bool)
    ensures
        r == (a@ == b@),
{
    if a.len() != b.len() {
        return false;
    }
    let mut i: usize = 0;
    while i < a.len()
        invariant
            a@.len() == b@.len(),
            i <= a@.len(),
            forall|j: int| 0 <= j < i ==> a@[j] == b@[j],
        decreases a@.len() - i,
    {
        if a[i] != b[i] {
            return false;
        }
        i += 1;
    }
    proof {
        assert(a@ =~= b@);
    }
    true
}

/// Find the first tally of `c`, as `char_index` names it.
fn find_char(counts: &Vec<CharCount>, c: char) -> (r: Option<usize>)
    ensures
        match r {
            Some(i) => char_index(counts@, c) == i && i < counts@.len(),
            None => char_index(counts@, c) == -1,
        },
{
    let mut i: usize = 0;
    while i < counts.len()
        invariant
            i <= counts@.len(),
            forall|j: int| 0 <= j < i ==> (#[trigger] counts@[j]).ch != c,
        decreases counts@.len() - i,
    {
        if counts[i].ch == c {
            proof {
                lemma_char_index_props(counts@, c);
            }
            return Some(i);
        }
        i += 1;
    }
    proof {
        lemma_char_index_props(counts@, c);
    }
    None
}

/// Find the first entry keyed by `key`, as `key_index` names it.
pub(crate) fn find_key(entries: &Vec<TableEntry>, key: &Vec<char>) -> (r: Option<usize>)
    ensures
        match r {
            Some(i) => key_index(entries@, key@) == i && i < entries@.len(),
            None => key_index(entries@, key@) == -1,
        },
{
    let mut i: usize = 0;
    while i < entries.len()
        invariant
            i <= entries@.len(),
            forall|j: int| 0 <= j < i ==> (#[trigger] entries@[j]).key@ != key@,
        decreases entries@.len() - i,
    {
        if eq_chars(&entries[i].key, key) {
            proof {
                lemma_key_index_props(entries@, key@);
            }
            return Some(i);
        }
        i += 1;
    }
    proof {
        lemma_key_index_props(entries@, key@);
    }
    None
}

/// Copy the characters of `v` between positions `a` and `b`.
pub(crate) fn subvec(v: &Vec<char>, a: usize, b: usize) -> (r: Vec<char>)
    requires
        a <= b,
        b <= v@.len(),
    ensures
        r@ == v@.subrange(a as int, b as int),
{
    let mut r: Vec<char> = Vec::new();
    let mut i: usize = a;
    while i < b
        invariant
            a <= i <= b,
            b <= v@.len(),
            r@ == v@.subrange(a as int, i as int),
        decreases b - i,
    {
        r.push(v[i]);
        proof {
            assert(r@ =~= v@.subrange(a as int, i + 1));
        }
        i += 1;
    }
    r
}

/// Record one more observation of `c` right after the context `key`.
fn bump(entries: &mut Vec<TableEntry>, key: Vec<char>, c: char, k: Ghost<nat>, bound: Ghost<int>)
    requires
        entries_wf(old(entries)@, k@),
        key@.len() == k@,
        0 <= bound@,
        bound@ + 1 <= u64::MAX,
        forall|i: int|
            0 <= i < old(entries)@.len() ==> counts_sum(
                (#[trigger] old(entries)@[i]).counts@,
            ) <= bound@,
    ensures
        entries_wf(final(entries)@, k@),
        forall|i: int|
            0 <= i < final(entries)@.len() ==> counts_sum(
                (#[trigger] final(entries)@[i]).counts@,
            ) <= bound@ + 1,
        forall|key2: Seq<char>, c2: char|
            #[trigger] entries_count(final(entries)@, key2, c2) as int == entries_count(
                old(entries)@,
                key2,
                c2,
            ) as int + (if key2 == key@ && c2 == c {
                1int
            } else {
                0int
            }),
{
    let ghost entries0 = entries@;
    match find_key(entries, &key) {
        Some(ki) => {
            proof {
                lemma_key_index_props(entries0, key@);
            }
            let mut e = entries.remove(ki);
            let ghost e0 = e;
            match find_char(&e.counts, c) {
                Some(ci) => {
                    proof {
                        lemma_char_index_props(e0.counts@, c);
                        lemma_counts_sum_lb(e0.counts@, ci as int);
                    }
                    let n = e.counts[ci].n;
                    e.counts.set(ci, CharCount { ch: c, n: n + 1 });
                    proof {
                        lemma_counts_sum_update(
                            e0.counts@,
                            ci as int,
                            CharCount { ch: c, n: (n + 1) as u64 },
                        );
                        assert forall|c2: char| #[trigger] char_index(e.counts@, c2) == char_index(
                            e0.counts@,
                            c2,
                        ) by {
                            lemma_char_index_update(
                                e0.counts@,
                                ci as int,
                                CharCount { ch: c, n: (n + 1) as u64 },
                                c2,
                            );
                        }
                        assert(forall|i: int|
                            0 <= i < e.counts@.len() ==> (#[trigger] e.counts@[i]).ch
                                == e0.counts@[i].ch);
                        assert forall|c2: char| #[trigger] counts_count(e.counts@, c2) as int
                            == counts_count(e0.counts@, c2) as int + (if c2 == c {
                            1int
                        } else {
                            0int
                        }) by {
                            lemma_char_index_props(e0.counts@, c2);
                        }
                    }
                }
                None => {
                    proof {
                        lemma_char_index_props(e0.counts@, c);
                    }
                    e.counts.push(CharCount { ch: c, n: 1 });
                    proof {
                        lemma_counts_sum_push(e0.counts@, CharCount { ch: c, n: 1 });
                        assert forall|c2: char| #[trigger] counts_count(e.counts@, c2) as int
                            == counts_count(e0.counts@, c2) as int + (if c2 == c {
                            1int
                        } else {
                            0int
                        }) by {
                            lemma_char_index_push(e0.counts@, CharCount { ch: c, n: 1 }, c2);
                            lemma_char_index_props(e0.counts@, c2);
                        }
                    }
                }
            }
            proof {
                assert(counts_sum(e.counts@) == counts_sum(e0.counts@) + 1);
                assert(e.counts@.len() > 0);
                assert(forall|i: int| 0 <= i < e.counts@.len() ==> (#[trigger] e.counts@[i]).n >= 1);
                assert(forall|i: int, j: int|
                    0 <= i < j < e.counts@.len() ==> (#[trigger] e.counts@[i]).ch != (
                    #[trigger] e.counts@[j]).ch);
            }
            entries.insert(ki, e);
            proof {
                assert(entries@ =~= entries0.update(ki as int, e));
                assert(forall|i: int|
                    0 <= i < entries@.len() ==> (#[trigger] entries@[i]).key@
                        == entries0[i].key@);
                assert(entry_wf(e, k@));
                assert forall|key2: Seq<char>, c2: char| #[trigger] entries_count(
                    entries@,
                    key2,
                    c2,
                ) as int == entries_count(entries0, key2, c2) as int + (if key2 == key@ && c2
                    == c {
                    1int
                } else {
                    0int
                }) by {
                    lemma_key_index_update(entries0, ki as int, e, key2);
                    let ki2 = key_index(entries0, key2);
                    lemma_key_index_props(entries0, key2);
                    if ki2 >= 0 {
                        if ki2 == ki {
                            assert(key2 == key@);
                        } else {
                            assert(entries@[ki2] == entries0[ki2]);
                            assert(key2 != key@);
                        }
                    } else {
                        assert(key2 != key@);
                    }
                }
                assert forall|i: int| 0 <= i < entries@.len() implies counts_sum(
                    (#[trigger] entries@[i]).counts@,
                ) <= bound@ + 1 by {
                    if i != ki {
                        assert(entries@[i] == entries0[i]);
                    }
                }
            }
        }
        None => {
            proof {
                lemma_key_index_props(entries0, key@);
            }
            let mut counts: Vec<CharCount> = Vec::new();
            counts.push(CharCount { ch: c, n: 1 });
            let e = TableEntry { key, counts };
            let ghost eg = e;
            entries.push(e);
            proof {
                assert(entries@ =~= entries0.push(eg));
                assert(counts_sum(eg.counts@) == 1) by {
                    assert(eg.counts@.drop_last() =~= Seq::<CharCount>::empty());
                    assert(counts_sum(Seq::<CharCount>::empty()) == 0);
                }
                assert(entry_wf(eg, k@));
                assert forall|key2: Seq<char>, c2: char| #[trigger] entries_count(
                    entries@,
                    key2,
                    c2,
                ) as int == entries_count(entries0, key2, c2) as int + (if key2 == eg.key@ && c2
                    == c {
                    1int
                } else {
                    0int
                }) by {
                    lemma_key_index_push(entries0, eg, key2);
                    lemma_key_index_props(entries0, key2);
                    if key2 == eg.key@ {
                        assert(key_index(entries0, key2) == -1);
                        assert(key_index(entries@, key2) == entries0.len());
                        assert(entries@[entries0.len() as int] == eg);
                        assert(char_index(eg.counts@, c) == 0);
                        if c2 != c {
                            assert(eg.counts@.drop_first() =~= Seq::<CharCount>::empty());
                            assert(char_index(eg.counts@.drop_first(), c2) == -1);
                            assert(char_index(eg.counts@, c2) == -1);
                        }
                    } else {
                        let ki2 = key_index(entries0, key2);
                        if ki2 >= 0 {
                            assert(entries@[ki2] == entries0[ki2]);
                        }
                    }
                }
                assert(forall|i: int|
                    0 <= i < entries0.len() ==> #[trigger] entries@[i] == entries0[i]);
                assert forall|i: int| 0 <= i < entries@.len() implies counts_sum(
                    (#[trigger] entries@[i]).counts@,
                ) <= bound@ + 1 by {
                    if i < entries0.len() {
                        assert(entries@[i] == entries0[i]);
                    } else {
                        assert(entries@[i] == eg);
                    }
                }
            }
        }
    }
}

/// Relies on `str::to_lowercase`: the result is a function of the characters
/// alone, and every character maps to at least one lowercase character, so a
/// non-empty string stays non-empty.
#[verifier::external_body]
fn lower_chars(s: &String) -> (r: Vec<char>)
    ensures
        r@ == lower_of(s@),
        s@.len() > 0 ==> r@.len() > 0,
{
    s.to_lowercase().chars().collect()
}

/// Slide a window of width `k` over the stream and tally, for every window,
/// the character right after it.
fn build_table(stream: &Vec<char>, k: usize) -> (entries: Vec<TableEntry>)
    requires
        1 <= k,
        k + 1 <= stream@.len(),
    ensures
        entries_wf(entries@, k as nat),
        forall|key: Seq<char>, c: char| #[trigger] entries_count(entries@, key, c) == window_count(
            stream@,
            k as nat,
            key,
            c,
        ),
{
    let mut entries: Vec<TableEntry> = Vec::new();
    let n = stream.len();
    let mut i: usize = 0;
    while i < n - k
        invariant
            1 <= k,
            k + 1 <= stream@.len(),
            n == stream@.len(),
            i <= n - k,
            entries_wf(entries@, k as nat),
            forall|j: int|
                0 <= j < entries@.len() ==> counts_sum((#[trigger] entries@[j]).counts@) <= i,
            forall|key: Seq<char>, c: char| #[trigger] entries_count(entries@, key, c)
                == window_count_upto(stream@, k as nat, key, c, i as int),
        decreases n - k - i,
    {
        let key = subvec(stream, i, i + k);
        let ghost keyv = key@;
        let c = stream[i + k];
        let ghost pre = entries@;
        bump(&mut entries, key, c, Ghost(k as nat), Ghost(i as int));
        proof {
            assert forall|key2: Seq<char>, c2: char| #[trigger] entries_count(entries@, key2, c2)
                == window_count_upto(stream@, k as nat, key2, c2, i + 1) by {
                assert(window_count_upto(stream@, k as nat, key2, c2, i + 1)
                    == window_count_upto(stream@, k as nat, key2, c2, i as int) + (if window_at(
                    stream@,
                    k as nat,
                    key2,
                    c2,
                    i as int,
                ) {
                    1nat
                } else {
                    0nat
                }));
                if key2 == keyv && c2 == c {
                    assert(window_at(stream@, k as nat, key2, c2, i as int));
                } else {
                    assert(!window_at(stream@, k as nat, key2, c2, i as int));
                }
            }
        }
        i += 1;
    }
    entries
}

impl ProbabilityTable {
    /// Build the table for already-normalized `words` — each a sequence of
    /// characters, tallied as it stands — with context length `accuracy`.
    ///
    /// Rejects a zero `accuracy`, and a corpus whose padded stream is too
    /// short to hold a single window with a successor. On success the
    /// table tallies, for every context and character, exactly how often
    /// the padded stream shows that character right after that context;
    /// and the all-separator context is present whenever some word is
    /// non-empty.
    pub fn from_chars(words: &Vec<Vec<char>>, accuracy: usize) -> (r: Result<
        ProbabilityTable,
        WordGenError,
    >)
        ensures
            accuracy == 0 ==> r == Err::<ProbabilityTable, WordGenError>(
                WordGenError::InvalidConfiguration,
            ),
            accuracy >= 1 && padded(chars_views(words@), accuracy as nat).len() <= accuracy ==> r
                == Err::<ProbabilityTable, WordGenError>(WordGenError::InsufficientCorpus),
            accuracy >= 1 && padded(chars_views(words@), accuracy as nat).len() > accuracy ==> r
                is Ok,
            r matches Ok(t) ==> {
                &&& accuracy >= 1
                &&& t.wf()
                &&& t.accuracy == accuracy
                &&& forall|key: Seq<char>, c: char| #[trigger] t.count(key, c) == window_count(
                    padded(chars_views(words@), accuracy as nat),
                    accuracy as nat,
                    key,
                    c,
                )
                &&& ((exists|i: int| 0 <= i < words@.len() && (#[trigger] words@[i])@.len() > 0)
                    ==> t.has_context(spaces(accuracy as nat)))
            },
    {
        if accuracy == 0 {
            return Err(WordGenError::InvalidConfiguration);
        }
        let mut stream: Vec<char> = Vec::new();
        let mut wi: usize = 0;
        while wi < words.len()
            invariant
                accuracy >= 1,
                wi <= words@.len(),
                stream@ == padded(chars_views(words@).take(wi as int), accuracy as nat),
            decreases words@.len() - wi,
        {
            let ghost s0 = stream@;
            let mut si: usize = 0;
            while si < accuracy
                invariant
                    si <= accuracy,
                    stream@.len() == s0.len() + si,
                    forall|j: int| 0 <= j < s0.len() ==> stream@[j] == s0[j],
                    forall|j: int| s0.len() <= j < stream@.len() ==> stream@[j] == ' ',
                decreases accuracy - si,
            {
                stream.push(' ');
                si += 1;
            }
            proof {
                assert(stream@ =~= s0 + spaces(accuracy as nat));
            }
            let ghost s1 = stream@;
            let w = &words[wi];
            let mut ci: usize = 0;
            while ci < w.len()
                invariant
                    ci <= w@.len(),
                    stream@ == s1 + w@.take(ci as int),
                decreases w@.len() - ci,
            {
                stream.push(w[ci]);
                proof {
                    assert(stream@ =~= s1 + w@.take(ci + 1));
                }
                ci += 1;
            }
            proof {
                assert(w@.take(w@.len() as int) =~= w@);
                assert(chars_views(words@)[wi as int] == words@[wi as int]@);
                assert(chars_views(words@).take(wi + 1) =~= chars_views(words@).take(
                    wi as int,
                ).push(chars_views(words@)[wi as int]));
                lemma_padded_push(chars_views(words@).take(wi as int), w@, accuracy as nat);
                assert(stream@ == padded(chars_views(words@).take(wi + 1), accuracy as nat));
            }
            wi += 1;
        }
        proof {
            assert(chars_views(words@).take(words@.len() as int) =~= chars_views(words@));
            assert(stream@ == padded(chars_views(words@), accuracy as nat));
        }
        if stream.len() <= accuracy {
            return Err(WordGenError::InsufficientCorpus);
        }
        let entries = build_table(&stream, accuracy);
        let t = ProbabilityTable { entries, accuracy };
        proof {
            if exists|i: int| 0 <= i < words@.len() && (#[trigger] words@[i])@.len() > 0 {
                let i = choose|i: int| 0 <= i < words@.len() && (#[trigger] words@[i])@.len() > 0;
                assert(chars_views(words@)[i].len() > 0);
                lemma_nonempty_word_gives_start_window(chars_views(words@), accuracy as nat, i);
                let c = choose|c: char|
                    window_count(
                        padded(chars_views(words@), accuracy as nat),
                        accuracy as nat,
                        spaces(accuracy as nat),
                        c,
                    ) > 0;
                assert(t.count(spaces(accuracy as nat), c) > 0);
                assert(t.has_context(spaces(accuracy as nat)));
            }
        }
        Ok(t)
    }

    /// Build the table for `words` with context length `accuracy`, first
    /// lowercasing every word; the table is then the one `from_chars`
    /// builds for the lowercased words.
    pub fn from_words(words: &Vec<String>, accuracy: usize) -> (r: Result<
        ProbabilityTable,
        WordGenError,
    >)
        ensures
            accuracy == 0 ==> r == Err::<ProbabilityTable, WordGenError>(
                WordGenError::InvalidConfiguration,
            ),
            accuracy >= 1 && corpus_stream(words@, accuracy as nat).len() <= accuracy ==> r
                == Err::<ProbabilityTable, WordGenError>(WordGenError::InsufficientCorpus),
            accuracy >= 1 && corpus_stream(words@, accuracy as nat).len() > accuracy ==> r is Ok,
            r matches Ok(t) ==> {
                &&& accuracy >= 1
                &&& t.wf()
                &&& t.accuracy == accuracy
                &&& forall|key: Seq<char>, c: char| #[trigger] t.count(key, c) == window_count(
                    corpus_stream(words@, accuracy as nat),
                    accuracy as nat,
                    key,
                    c,
                )
                &&& ((exists|i: int| 0 <= i < words@.len() && (#[trigger] words@[i])@.len() > 0)
                    ==> t.has_context(spaces(accuracy as nat)))
            },
    {
        let mut lws: Vec<Vec<char>> = Vec::new();
        let mut wi: usize = 0;
        while wi < words.len()
            invariant
                wi <= words@.len(),
                lws@.len() == wi,
                forall|j: int| 0 <= j < wi ==> (#[trigger] lws@[j])@ == lowered(words@)[j],
                forall|j: int|
                    0 <= j < wi && (#[trigger] words@[j])@.len() > 0 ==> lowered(words@)[j].len()
                        > 0,
            decreases words@.len() - wi,
        {
            let lw = lower_chars(&words[wi]);
            proof {
                assert(lowered(words@)[wi as int] == lower_of(words@[wi as int]@));
            }
            lws.push(lw);
            wi += 1;
        }
        proof {
            assert(chars_views(lws@) =~= lowered(words@));
            assert(padded(chars_views(lws@), accuracy as nat) == corpus_stream(
                words@,
                accuracy as nat,
            ));
        }
        let r = ProbabilityTable::from_chars(&lws, accuracy);
        proof {
            if exists|i: int| 0 <= i < words@.len() && (#[trigger] words@[i])@.len() > 0 {
                let i = choose|i: int| 0 <= i < words@.len() && (#[trigger] words@[i])@.len() > 0;
                assert((lws@[i])@.len() > 0);
            }
        }
        r
    }
}

/// The per-character window counts of the tallied characters, summed.
pub open spec fn sum_window_counts(
    counts: Seq<CharCount>,
    s: Seq<char>,
    k: nat,
    key: Seq<char>,
    n: int,
) -> nat
    decreases counts.len(),
{
    if counts.len() == 0 {
        0
    } else {
        sum_window_counts(counts.drop_last(), s, k, key, n) + window_count_upto(
            s,
            k,
            key,
            counts.last().ch,
            n,
        )
    }
}

/// Below position zero there are no windows to sum.
proof fn lemma_sum_window_counts_zero(
    counts: Seq<CharCount>,
    s: Seq<char>,
    k: nat,
    key: Seq<char>,
    n: int,
)
    requires
        n <= 0,
    ensures
        sum_window_counts(counts, s, k, key, n) == 0,
    decreases counts.len(),
{
    if counts.len() > 0 {
        lemma_sum_window_counts_zero(counts.drop_last(), s, k, key, n);
    }
}

/// One more position adds one to the summed counts exactly when its window
/// reads `key` and its successor is a tallied character.
proof fn lemma_sum_window_counts_step(
    counts: Seq<CharCount>,
    s: Seq<char>,
    k: nat,
    key: Seq<char>,
    n: int,
)
    requires
        n >= 1,
        forall|i: int, j: int|
            0 <= i < j < counts.len() ==> (#[trigger] counts[i]).ch != (#[trigger] counts[j]).ch,
    ensures
        sum_window_counts(counts, s, k, key, n) == sum_window_counts(counts, s, k, key, n - 1) + (
        if key_window_at(s, k, key, n - 1) && char_index(counts, s[n - 1 + k]) >= 0 {
            1nat
        } else {
            0nat
        }),
    decreases counts.len(),
{
    if counts.len() == 0 {
        lemma_char_index_props(counts, s[n - 1 + k]);
    } else {
        let d = counts.drop_last();
        let x = counts.last();
        assert(forall|j: int| 0 <= j < d.len() ==> #[trigger] d[j] == counts[j]);
        lemma_sum_window_counts_step(d, s, k, key, n);
        assert(counts =~= d.push(x));
        lemma_char_index_push(d, x, s[n - 1 + k]);
        lemma_char_index_props(d, s[n - 1 + k]);
        if key_window_at(s, k, key, n - 1) {
            let cstar = s[n - 1 + k];
            if x.ch == cstar {
                assert(window_at(s, k, key, x.ch, n - 1));
                assert(char_index(d, cstar) == -1) by {
                    if char_index(d, cstar) >= 0 {
                        let ci = char_index(d, cstar);
                        assert(counts[ci].ch == cstar);
                        assert(counts[counts.len() - 1].ch == cstar);
                    }
                }
            } else {
                assert(!window_at(s, k, key, x.ch, n - 1));
            }
        } else {
            assert(!window_at(s, k, key, x.ch, n - 1));
        }
    }
}

/// When the tallied characters cover every character that follows `key`
/// anywhere in the stream, their summed window counts are the windows of
/// `key`.
proof fn lemma_sum_window_counts_total(
    counts: Seq<CharCount>,
    s: Seq<char>,
    k: nat,
    key: Seq<char>,
    n: int,
)
    requires
        0 <= n,
        n <= s.len() - k,
        forall|i: int, j: int|
            0 <= i < j < counts.len() ==> (#[trigger] counts[i]).ch != (#[trigger] counts[j]).ch,
        forall|c: char| #[trigger] counts_count(counts, c) == window_count(s, k, key, c),
    ensures
        sum_window_counts(counts, s, k, key, n) == key_window_count_upto(s, k, key, n),
    decreases n,
{
    if n == 0 {
        lemma_sum_window_counts_zero(counts, s, k, key, n);
    } else {
        lemma_sum_window_counts_total(counts, s, k, key, n - 1);
        lemma_sum_window_counts_step(counts, s, k, key, n);
        if key_window_at(s, k, key, n - 1) {
            let cstar = s[n - 1 + k];
            assert(window_at(s, k, key, cstar, n - 1));
            assert(window_count_upto(s, k, key, cstar, n) >= 1);
            lemma_upto_mono(s, k, key, cstar, n, s.len() - k);
            assert(counts_count(counts, cstar) >= 1);
            assert(char_index(counts, cstar) >= 0);
        }
    }
}

/// Tallies that each equal their character's window count sum to the
/// summed window counts.
proof fn lemma_counts_sum_as_windows(
    counts: Seq<CharCount>,
    s: Seq<char>,
    k: nat,
    key: Seq<char>,
    n: int,
)
    requires
        forall|j: int|
            0 <= j < counts.len() ==> (#[trigger] counts[j]).n == window_count_upto(
                s,
                k,
                key,
                counts[j].ch,
                n,
            ),
    ensures
        counts_sum(counts) == sum_window_counts(counts, s, k, key, n),
    decreases counts.len(),
{
    if counts.len() > 0 {
        assert(forall|j: int|
            0 <= j < counts.len() - 1 ==> #[trigger] counts.drop_last()[j] == counts[j]);
        lemma_counts_sum_as_windows(counts.drop_last(), s, k, key, n);
    }
}

/// Structure of a well-formed table: every context key has length exactly
/// the table's accuracy, and every tally is at least one.
pub proof fn lemma_wf_shape(t: ProbabilityTable)
    requires
        t.wf(),
    ensures
        forall|i: int|
            0 <= i < t.entries@.len() ==> (#[trigger] t.entries@[i]).key@.len() == t.accuracy,
        forall|i: int, j: int|
            0 <= i < t.entries@.len() && 0 <= j < t.entries@[i].counts@.len() ==> (
            #[trigger] t.entries@[i].counts@[j]).n >= 1,
{
    assert forall|i: int| 0 <= i < t.entries@.len() implies (#[trigger] t.entries@[i]).key@.len()
        == t.accuracy by {
        assert(entry_wf(t.entries@[i], t.accuracy as nat));
    }
    assert forall|i: int, j: int|
        0 <= i < t.entries@.len() && 0 <= j < t.entries@[i].counts@.len() implies (
    #[trigger] t.entries@[i].counts@[j]).n >= 1 by {
        assert(entry_wf(t.entries@[i], t.accuracy as nat));
    }
}

/// Count conservation: in a table whose tallies match a stream — as
/// `ProbabilityTable::from_words` ensures of its corpus stream — the
/// tallies recorded for any present context sum to the number of windows
/// of the stream that read that context and have a successor.
pub proof fn lemma_count_conservation(t: ProbabilityTable, s: Seq<char>, key: Seq<char>)
    requires
        t.wf(),
        forall|key2: Seq<char>, c: char| #[trigger] t.count(key2, c) == window_count(
            s,
            t.accuracy as nat,
            key2,
            c,
        ),
        t.has_context(key),
    ensures
        counts_sum(t.entries@[key_index(t.entries@, key)].counts@) == key_window_count(
            s,
            t.accuracy as nat,
            key,
        ),
{
    let k = t.accuracy as nat;
    let ki = key_index(t.entries@, key);
    lemma_key_index_props(t.entries@, key);
    let counts = t.entries@[ki].counts@;
    assert(entry_wf(t.entries@[ki], k));
    assert forall|c: char| #[trigger] counts_count(counts, c) == window_count(s, k, key, c) by {
        assert(t.count(key, c) == window_count(s, k, key, c));
    }
    assert forall|j: int| 0 <= j < counts.len() implies char_index(
        counts,
        (#[trigger] counts[j]).ch,
    ) == j by {
        lemma_char_index_props(counts, counts[j].ch);
        let ci = char_index(counts, counts[j].ch);
        assert(ci >= 0);
        if ci < j {
            assert(counts[ci].ch == counts[j].ch);
        }
    }
    let n = s.len() - k;
    if n < 0 {
        assert(counts_count(counts, counts[0].ch) == counts[0].n);
        assert(window_count_upto(s, k, key, counts[0].ch, n) == 0);
        assert(counts[0].n >= 1);
        assert(false);
    } else {
        assert forall|j: int| 0 <= j < counts.len() implies (#[trigger] counts[j]).n
            == window_count_upto(s, k, key, counts[j].ch, n) by {
            assert(counts_count(counts, counts[j].ch) == window_count(s, k, key, counts[j].ch));
        }
        lemma_counts_sum_as_windows(counts, s, k, key, n);
        lemma_sum_window_counts_total(counts, s, k, key, n);
    }
}

} // verus!
