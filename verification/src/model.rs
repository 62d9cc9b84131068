//! The mathematical model: the padded character stream a corpus is tallied
//! over, and how often each context window is followed by each character.

use vstd::prelude::*;

verus! {

/// A context of `k` separator (space) characters.
pub open spec fn spaces(k: nat) -> Seq<char> {
    Seq::new(k, |i: int| ' ')
}

/// What `str::to_lowercase` returns for the given characters.
pub uninterp spec fn lower_of(s: Seq<char>) -> Seq<char>;

/// The stream a corpus is tallied over: every word prefixed with `k`
/// separator characters, all concatenated in corpus order.
pub open spec fn padded(words: Seq<Seq<char>>, k: nat) -> Seq<char>
    decreases words.len(),
{
    if words.len() == 0 {
        Seq::empty()
    } else {
        padded(words.drop_last(), k) + spaces(k) + words.last()
    }
}

/// The views of a sequence of character vectors.
pub open spec fn chars_views(ws: Seq<Vec<char>>) -> Seq<Seq<char>> {
    ws.map_values(|w: Vec<char>| w@)
}

/// The views of a sequence of strings.
pub open spec fn word_views(ws: Seq<String>) -> Seq<Seq<char>> {
    ws.map_values(|w: String| w@)
}

/// The corpus words, each lowercased.
pub open spec fn lowered(words: Seq<String>) -> Seq<Seq<char>> {
    words.map_values(|w: String| lower_of(w@))
}

/// The stream that building a table from `words` with context length `k`
/// tallies: each word lowercased and prefixed with `k` separators.
pub open spec fn corpus_stream(words: Seq<String>, k: nat) -> Seq<char> {
    padded(lowered(words), k)
}

/// Does the window of width `k` at position `i` of `s` read `key`, with `c`
/// as the character right after it?
pub open spec fn window_at(s: Seq<char>, k: nat, key: Seq<char>, c: char, i: int) -> bool {
    &&& 0 <= i
    &&& i + k < s.len()
    &&& s.subrange(i, i + k) == key
    &&& s[i + k] == c
}

/// How many window positions `i < n` of `s` read `key` followed by `c`.
pub open spec fn window_count_upto(s: Seq<char>, k: nat, key: Seq<char>, c: char, n: int) -> nat
    decreases n,
{
    if n <= 0 {
        0
    } else {
        window_count_upto(s, k, key, c, n - 1) + if window_at(s, k, key, c, n - 1) {
            1nat
        } else {
            0nat
        }
    }
}

/// How many windows of `s` read `key` followed by `c`.
pub open spec fn window_count(s: Seq<char>, k: nat, key: Seq<char>, c: char) -> nat {
    window_count_upto(s, k, key, c, s.len() - k)
}

/// Does the window of width `k` at position `i` of `s` read `key`,
/// with any character after it?
pub open spec fn key_window_at(s: Seq<char>, k: nat, key: Seq<char>, i: int) -> bool {
    &&& 0 <= i
    &&& i + k < s.len()
    &&& s.subrange(i, i + k) == key
}

/// How many window positions `i < n` of `s` read `key` (with a successor).
pub open spec fn key_window_count_upto(s: Seq<char>, k: nat, key: Seq<char>, n: int) -> nat
    decreases n,
{
    if n <= 0 {
        0
    } else {
        key_window_count_upto(s, k, key, n - 1) + if key_window_at(s, k, key, n - 1) {
            1nat
        } else {
            0nat
        }
    }
}

/// How many windows of `s` read `key` and have a successor.
pub open spec fn key_window_count(s: Seq<char>, k: nat, key: Seq<char>) -> nat {
    key_window_count_upto(s, k, key, s.len() - k)
}

/// Every character of `s` past the leading `k` characters follows its
/// preceding window of width `k` somewhere in `stream`.
pub open spec fn follows_stream(stream: Seq<char>, k: nat, s: Seq<char>) -> bool {
    forall|j: int|
        k <= j < s.len() ==> window_count(stream, k, #[trigger] s.subrange(j - k, j), s[j]) >= 1
}

/// Counting up to a larger bound never counts fewer windows.
pub proof fn lemma_upto_mono(s: Seq<char>, k: nat, key: Seq<char>, c: char, n1: int, n2: int)
    requires
        n1 <= n2,
    ensures
        window_count_upto(s, k, key, c, n1) <= window_count_upto(s, k, key, c, n2),
    decreases n2,
{
    if n1 < n2 && n2 > 0 {
        lemma_upto_mono(s, k, key, c, n1, n2 - 1);
    }
}

/// Windows strictly inside a prefix are unchanged by what follows it.
pub proof fn lemma_upto_prefix(s1: Seq<char>, s2: Seq<char>, k: nat, key: Seq<char>, c: char, n: int)
    requires
        s1.len() <= s2.len(),
        forall|i: int| 0 <= i < s1.len() ==> s1[i] == s2[i],
        n + k <= s1.len(),
    ensures
        window_count_upto(s1, k, key, c, n) == window_count_upto(s2, k, key, c, n),
    decreases n,
{
    if n > 0 {
        lemma_upto_prefix(s1, s2, k, key, c, n - 1);
        let i = n - 1;
        if window_at(s1, k, key, c, i) || window_at(s2, k, key, c, i) {
            assert(s1.subrange(i, i + k) =~= s2.subrange(i, i + k));
        }
    }
}

/// A window of a prefix is a window of the whole stream.
pub proof fn lemma_count_prefix_le(s1: Seq<char>, s2: Seq<char>, k: nat, key: Seq<char>, c: char)
    requires
        s1.len() <= s2.len(),
        forall|i: int| 0 <= i < s1.len() ==> s1[i] == s2[i],
    ensures
        window_count(s1, k, key, c) <= window_count(s2, k, key, c),
{
    if s1.len() >= k {
        lemma_upto_prefix(s1, s2, k, key, c, s1.len() - k);
        lemma_upto_mono(s2, k, key, c, s1.len() - k, s2.len() - k);
    } else {
        assert(window_count_upto(s1, k, key, c, s1.len() - k) == 0);
    }
}

/// Appending one word extends the padded stream by its pad and its characters.
pub proof fn lemma_padded_push(ws: Seq<Seq<char>>, w: Seq<char>, k: nat)
    ensures
        padded(ws.push(w), k) == padded(ws, k) + spaces(k) + w,
{
    assert(ws.push(w).drop_last() =~= ws);
    assert(ws.push(w).last() == w);
}

/// If some word of the corpus is non-empty, then somewhere in the padded
/// stream the all-separator context is followed by a character: the leading
/// pad of that word.
pub proof fn lemma_nonempty_word_gives_start_window(ws: Seq<Seq<char>>, k: nat, i: int)
    requires
        k >= 1,
        0 <= i < ws.len(),
        ws[i].len() > 0,
    ensures
        exists|c: char| window_count(padded(ws, k), k, spaces(k), c) > 0,
    decreases ws.len(),
{
    let s = padded(ws, k);
    if i == ws.len() - 1 {
        let pre = padded(ws.drop_last(), k);
        let w = ws.last();
        let p = pre.len() as int;
        assert(s == pre + spaces(k) + w);
        assert(s.len() == p + k + w.len());
        let c = w[0];
        assert(s.subrange(p, p + k) =~= spaces(k)) by {
            assert forall|j: int| 0 <= j < k implies #[trigger] s.subrange(p, p + k)[j] == ' ' by {
                assert(s[p + j] == spaces(k)[j]);
            }
        }
        assert(s[p + k] == w[0]);
        assert(window_at(s, k, spaces(k), c, p));
        assert(window_count_upto(s, k, spaces(k), c, p + 1) >= 1);
        lemma_upto_mono(s, k, spaces(k), c, p + 1, s.len() - k);
        assert(window_count(s, k, spaces(k), c) > 0);
    } else {
        let pre = padded(ws.drop_last(), k);
        lemma_nonempty_word_gives_start_window(ws.drop_last(), k, i);
        let c = choose|c: char| window_count(pre, k, spaces(k), c) > 0;
        assert(s == pre + spaces(k) + ws.last());
        lemma_count_prefix_le(pre, s, k, spaces(k), c);
        assert(window_count(s, k, spaces(k), c) > 0);
    }
}

} // verus!
