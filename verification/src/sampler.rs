//! Sampling: random walks over a built table that draw one word each, and
//! batch generation that returns the words sorted by length.

use vstd::prelude::*;

use crate::model::{chars_views, spaces, word_views};
use crate::table::{
    counts_sum, entry_wf, find_key, subvec, CharCount, ProbabilityTable,
    lemma_char_index_props, lemma_key_index_props,
};
use crate::WordGenError;

verus! {

/// The most characters one sampling walk will draw before giving up.
pub const MAX_WORD_LEN: usize = 10000;

/// No character of `w` is a separator.
pub open spec fn no_separator(w: Seq<char>) -> bool {
    forall|j: int| 0 <= j < w.len() ==> w[j] != ' '
}

/// Every character of `s` past the leading context was recorded by the
/// table as following the `accuracy` characters right before it.
pub open spec fn follows_table(t: ProbabilityTable, s: Seq<char>) -> bool {
    forall|j: int|
        t.accuracy <= j < s.len() ==> t.count(#[trigger] s.subrange(j - t.accuracy, j), s[j]) >= 1
}

/// What a successful sampling walk returns: a word without separators, of
/// bounded length, whose every character — and the final separator — was
/// recorded by the table as following the context it was drawn at.
pub open spec fn valid_sample(t: ProbabilityTable, w: Seq<char>) -> bool {
    &&& no_separator(w)
    &&& w.len() <= MAX_WORD_LEN
    &&& follows_table(t, spaces(t.accuracy as nat) + w + seq![' '])
}

/// The words' lengths never decrease along the sequence.
pub open spec fn sorted_by_len(ws: Seq<Seq<char>>) -> bool {
    forall|i: int, j: int|
        0 <= i <= j < ws.len() ==> (#[trigger] ws[i]).len() <= (#[trigger] ws[j]).len()
}

/// The sum of a sequence of weights.
pub open spec fn sum_u64(s: Seq<u64>) -> int
    decreases s.len(),
{
    if s.len() == 0 {
        0
    } else {
        sum_u64(s.drop_last()) + s.last()
    }
}

/// Pointwise equal weights sum to the tally sum.
proof fn lemma_sum_pointwise(ws: Seq<u64>, counts: Seq<CharCount>)
    requires
        ws.len() == counts.len(),
        forall|j: int| 0 <= j < ws.len() ==> ws[j] == (#[trigger] counts[j]).n,
    ensures
        sum_u64(ws) == counts_sum(counts),
    decreases ws.len(),
{
    if ws.len() > 0 {
        assert(forall|j: int|
            0 <= j < ws.len() - 1 ==> ws.drop_last()[j] == (#[trigger] counts.drop_last()[j]).n);
        lemma_sum_pointwise(ws.drop_last(), counts.drop_last());
    }
}

/// Relies on rand's `WeightedIndex` and `thread_rng`: `sample` draws an
/// index with probability proportional to its weight, and never returns an
/// index whose weight is zero.
#[verifier::external_body]
fn pick_weighted(weights: &Vec<u64>) -> (i: usize)
    requires
        weights@.len() > 0,
        weights@[0] >= 1,
        sum_u64(weights@) <= u64::MAX,
    ensures
        i < weights@.len(),
        weights@[i as int] >= 1,
{
    let dist = rand::distributions::WeightedIndex::new(weights.iter()).unwrap();
    rand::distributions::Distribution::sample(&dist, &mut rand::thread_rng())
}

/// Relies on `String::push`: appends the character at the end.
#[verifier::external_body]
fn push_char(s: &mut String, c: char)
    ensures
        final(s)@ == old(s)@.push(c),
{
    s.push(c);
}

/// Build a `String` holding exactly the given characters.
fn chars_to_string(cs: &Vec<char>) -> (r: String)
    ensures
        r@ == cs@,
{
    let mut r = String::new();
    let mut i: usize = 0;
    while i < cs.len()
        invariant
            i <= cs@.len(),
            r@ == cs@.take(i as int),
        decreases cs@.len() - i,
    {
        push_char(&mut r, cs[i]);
        proof {
            assert(r@ =~= cs@.take(i + 1));
        }
        i += 1;
    }
    proof {
        assert(cs@.take(cs@.len() as int) =~= cs@);
    }
    r
}

/// The weight list of one entry: its tallies, in order.
fn counts_to_weights(counts: &Vec<CharCount>) -> (ws: Vec<u64>)
    ensures
        ws@.len() == counts@.len(),
        forall|j: int| 0 <= j < ws@.len() ==> ws@[j] == (#[trigger] counts@[j]).n,
{
    let mut ws: Vec<u64> = Vec::new();
    let mut i: usize = 0;
    while i < counts.len()
        invariant
            i <= counts@.len(),
            ws@.len() == i,
            forall|j: int| 0 <= j < i ==> ws@[j] == (#[trigger] counts@[j]).n,
        decreases counts@.len() - i,
    {
        ws.push(counts[i].n);
        i += 1;
    }
    ws
}

/// Draw one word from the table: walk from the all-separator context,
/// appending a character drawn with probability proportional to its tally,
/// until a separator is drawn; the word is the walk without its pad and
/// final separator. Fails with `MissingContext` when the walk reaches a
/// context the table has no entry for, and with `LengthLimitExceeded` when
/// `MAX_WORD_LEN` characters were drawn without a separator.
pub fn generate_word_chars(table: &ProbabilityTable) -> (r: Result<Vec<char>, WordGenError>)
    requires
        table.wf(),
    ensures
        r matches Ok(w) ==> valid_sample(*table, w@),
        r is Ok ==> table.has_context(spaces(table.accuracy as nat)),
        !table.has_context(spaces(table.accuracy as nat)) ==> r == Err::<Vec<char>, WordGenError>(
            WordGenError::MissingContext,
        ),
        r matches Err(e) ==> (e == WordGenError::MissingContext || e
            == WordGenError::LengthLimitExceeded),
{
    let k = table.accuracy;
    let mut buf: Vec<char> = Vec::new();
    let mut si: usize = 0;
    while si < k
        invariant
            si <= k,
            buf@.len() == si,
            forall|j: int| 0 <= j < si ==> buf@[j] == ' ',
        decreases k - si,
    {
        buf.push(' ');
        si += 1;
    }
    proof {
        assert(buf@ =~= spaces(k as nat));
    }
    let mut steps: usize = 0;
    while steps < MAX_WORD_LEN
        invariant
            table.wf(),
            k == table.accuracy,
            buf@.len() == k + steps,
            steps <= MAX_WORD_LEN,
            buf@.subrange(0, k as int) == spaces(k as nat),
            forall|j: int| k <= j < buf@.len() ==> buf@[j] != ' ',
            forall|j: int|
                k <= j < buf@.len() ==> table.count(#[trigger] buf@.subrange(j - k, j), buf@[j])
                    >= 1,
            steps >= 1 ==> table.has_context(spaces(k as nat)),
        decreases MAX_WORD_LEN - steps,
    {
        let key = subvec(&buf, buf.len() - k, buf.len());
        proof {
            if steps == 0 {
                assert(key@ =~= spaces(k as nat));
            }
        }
        match find_key(&table.entries, &key) {
            None => {
                return Err(WordGenError::MissingContext);
            },
            Some(ki) => {
                proof {
                    lemma_key_index_props(table.entries@, key@);
                    assert(table.entries@[ki as int].key@ == key@);
                }
                let weights = counts_to_weights(&table.entries[ki].counts);
                proof {
                    assert(entry_wf(table.entries@[ki as int], k as nat));
                    assert(table.entries@[ki as int].counts@[0].n >= 1);
                    lemma_sum_pointwise(weights@, table.entries@[ki as int].counts@);
                }
                let wi = pick_weighted(&weights);
                let c = table.entries[ki].counts[wi].ch;
                proof {
                    lemma_char_index_props(table.entries@[ki as int].counts@, c);
                    assert(table.count(key@, c) >= 1);
                }
                let ghost buf0 = buf@;
                buf.push(c);
                steps += 1;
                if c == ' ' {
                    let w = subvec(&buf, k, buf.len() - 1);
                    proof {
                        assert(spaces(k as nat) + w@ + seq![' '] =~= buf@);
                        assert forall|j: int| k <= j < buf@.len() implies table.count(
                            #[trigger] buf@.subrange(j - k, j),
                            buf@[j],
                        ) >= 1 by {
                            if j < buf0.len() {
                                assert(buf@.subrange(j - k, j) =~= buf0.subrange(j - k, j));
                                assert(buf@[j] == buf0[j]);
                            } else {
                                assert(buf@.subrange(j - k, j) =~= key@);
                            }
                        }
                        assert(no_separator(w@));
                        assert(valid_sample(*table, w@));
                    }
                    return Ok(w);
                }
                proof {
                    assert(buf@.subrange(0, k as int) =~= buf0.subrange(0, k as int));
                    assert forall|j: int| k <= j < buf@.len() implies table.count(
                        #[trigger] buf@.subrange(j - k, j),
                        buf@[j],
                    ) >= 1 by {
                        if j < buf0.len() {
                            assert(buf@.subrange(j - k, j) =~= buf0.subrange(j - k, j));
                            assert(buf@[j] == buf0[j]);
                        } else {
                            assert(buf@.subrange(j - k, j) =~= key@);
                        }
                    }
                }
            },
        }
    }
    Err(WordGenError::LengthLimitExceeded)
}

/// The words of `ws` of length exactly `l`, in order.
pub open spec fn same_len_words(ws: Seq<Vec<char>>, l: int) -> Seq<Vec<char>> {
    ws.filter(|w: Vec<char>| w@.len() == l)
}

/// A sequence without a word of length `l` filters to nothing.
proof fn lemma_same_len_none(ws: Seq<Vec<char>>, l: int)
    requires
        forall|a: int| 0 <= a < ws.len() ==> (#[trigger] ws[a])@.len() != l,
    ensures
        same_len_words(ws, l) == Seq::<Vec<char>>::empty(),
    decreases ws.len(),
{
    reveal_with_fuel(Seq::<Vec<char>>::filter, 2);
    if ws.len() > 0 {
        assert(forall|a: int| 0 <= a < ws.len() - 1 ==> #[trigger] ws.drop_last()[a] == ws[a]);
        lemma_same_len_none(ws.drop_last(), l);
        assert(ws.last()@.len() != l);
    }
}

/// Filtering a single word keeps it exactly when its length is `l`.
proof fn lemma_same_len_single(x: Vec<char>, l: int)
    ensures
        same_len_words(seq![x], l) == (if x@.len() == l {
            seq![x]
        } else {
            Seq::<Vec<char>>::empty()
        }),
{
    reveal_with_fuel(Seq::<Vec<char>>::filter, 2);
    assert(seq![x].drop_last() =~= Seq::<Vec<char>>::empty());
    assert(seq![x].last() == x);
    if x@.len() == l {
        assert(same_len_words(seq![x], l) =~= Seq::<Vec<char>>::empty().push(x));
        assert(Seq::<Vec<char>>::empty().push(x) =~= seq![x]);
    }
}

/// Filtering by length distributes over concatenation.
proof fn lemma_same_len_add(a: Seq<Vec<char>>, b: Seq<Vec<char>>, l: int)
    ensures
        same_len_words(a + b, l) == same_len_words(a, l) + same_len_words(b, l),
    decreases b.len(),
{
    reveal_with_fuel(Seq::<Vec<char>>::filter, 2);
    if b.len() == 0 {
        assert(a + b =~= a);
        assert(same_len_words(b, l) == Seq::<Vec<char>>::empty());
        assert(same_len_words(a, l) + same_len_words(b, l) =~= same_len_words(a, l));
    } else {
        lemma_same_len_add(a, b.drop_last(), l);
        assert((a + b).drop_last() =~= a + b.drop_last());
        assert((a + b).last() == b.last());
        if b.last()@.len() == l {
            assert(same_len_words(a + b, l) == same_len_words(a + b.drop_last(), l).push(
                b.last(),
            ));
            assert(same_len_words(b, l) == same_len_words(b.drop_last(), l).push(b.last()));
            assert((same_len_words(a, l) + same_len_words(b.drop_last(), l)).push(b.last())
                =~= same_len_words(a, l) + same_len_words(b.drop_last(), l).push(b.last()));
        } else {
            assert(same_len_words(a + b, l) == same_len_words(a + b.drop_last(), l));
            assert(same_len_words(b, l) == same_len_words(b.drop_last(), l));
        }
    }
}

/// Stable insertion sort by word length, shortest first: for every length,
/// the subsequence of words of that length is unchanged.
fn sort_words(v: &mut Vec<Vec<char>>)
    ensures
        final(v)@.len() == old(v)@.len(),
        final(v)@.to_multiset() == old(v)@.to_multiset(),
        sorted_by_len(chars_views(final(v)@)),
        forall|l: int| #[trigger] same_len_words(final(v)@, l) == same_len_words(old(v)@, l),
{
    broadcast use vstd::seq_lib::group_to_multiset_ensures;

    let ghost orig = v@;
    let mut i: usize = 1;
    while i < v.len()
        invariant
            1 <= i,
            v@.len() == orig.len(),
            v@.to_multiset() == orig.to_multiset(),
            forall|l: int| #[trigger] same_len_words(v@, l) == same_len_words(orig, l),
            forall|a: int, b: int|
                0 <= a <= b < i && b < v@.len() ==> (#[trigger] v@[a])@.len() <= (
                #[trigger] v@[b])@.len(),
        decreases v@.len() - i,
    {
        let ghost pre = v@;
        let x = v.remove(i);
        let ghost mid = v@;
        let mut j: usize = 0;
        while j < i && v[j].len() <= x.len()
            invariant
                j <= i,
                i <= v@.len(),
                v@ == mid,
                x == pre[i as int],
                forall|a: int| 0 <= a < j ==> (#[trigger] v@[a])@.len() <= x@.len(),
            decreases i - j,
        {
            j += 1;
        }
        let ghost jj = j as int;
        v.insert(j, x);
        proof {
            pre.to_multiset_ensures();
            mid.to_multiset_ensures();
            assert(pre.contains(x)) by {
                assert(pre[i as int] == x);
            }
            assert(pre.to_multiset().count(x) > 0);
            assert(mid.to_multiset() == pre.remove(i as int).to_multiset());
            assert(mid.to_multiset() =~= pre.to_multiset().remove(x));
            assert(v@ == mid.insert(jj, x));
            vstd::seq_lib::to_multiset_insert(mid, jj, x);
            assert(v@.to_multiset() == mid.to_multiset().insert(x));
            assert(v@.to_multiset() =~= pre.to_multiset());
            assert forall|l: int| #[trigger] same_len_words(v@, l) == same_len_words(pre, l) by {
                let n = pre.len() as int;
                let ii = i as int;
                let a0 = pre.subrange(0, ii);
                let b0 = pre.subrange(ii + 1, n);
                let a1 = a0.subrange(0, jj);
                let a2 = a0.subrange(jj, ii);
                assert(pre =~= a0 + seq![x] + b0);
                assert(a0 =~= a1 + a2);
                assert(v@ =~= a1 + seq![x] + a2 + b0);
                lemma_same_len_add(a0, seq![x], l);
                lemma_same_len_add(a0 + seq![x], b0, l);
                lemma_same_len_add(a1, a2, l);
                lemma_same_len_add(a1, seq![x], l);
                lemma_same_len_add(a1 + seq![x], a2, l);
                lemma_same_len_add(a1 + seq![x] + a2, b0, l);
                lemma_same_len_single(x, l);
                if x@.len() == l {
                    assert forall|a: int| 0 <= a < a2.len() implies (#[trigger] a2[a])@.len()
                        != l by {
                        assert(a2[a] == pre[jj + a]);
                        assert(mid[jj]@.len() > x@.len());
                        assert(pre[jj] == mid[jj]);
                        assert(pre[jj]@.len() <= pre[jj + a]@.len());
                    }
                    lemma_same_len_none(a2, l);
                    assert(same_len_words(a1, l) + same_len_words(seq![x], l) + same_len_words(
                        a2,
                        l,
                    ) =~= same_len_words(a1, l) + same_len_words(seq![x], l));
                    assert(same_len_words(a1, l) + same_len_words(a2, l) =~= same_len_words(
                        a1,
                        l,
                    ));
                    assert(same_len_words(v@, l) =~= same_len_words(pre, l));
                } else {
                    assert(same_len_words(seq![x], l) == Seq::<Vec<char>>::empty());
                    assert(same_len_words(a0, l) + same_len_words(seq![x], l) =~= same_len_words(
                        a0,
                        l,
                    ));
                    assert(same_len_words(a1, l) + same_len_words(seq![x], l) =~= same_len_words(
                        a1,
                        l,
                    ));
                    assert(same_len_words(v@, l) =~= same_len_words(pre, l));
                }
            }
            assert forall|a: int, b: int|
                0 <= a <= b < i + 1 && b < v@.len() implies (#[trigger] v@[a])@.len() <= (
            #[trigger] v@[b])@.len() by {
                if a < jj {
                    assert(v@[a] == mid[a]);
                }
                if b < jj {
                    assert(v@[b] == mid[b]);
                }
                if a > jj {
                    assert(v@[a] == mid[a - 1]);
                }
                if b > jj {
                    assert(v@[b] == mid[b - 1]);
                }
                if jj < i {
                    assert(mid[jj]@.len() > x@.len());
                }
            }
        }
        i += 1;
    }
}

/// Draw one word from the table, as [`generate_word_chars`] does, returned
/// as a `String`.
pub fn generate_word(table: &ProbabilityTable) -> (r: Result<String, WordGenError>)
    requires
        table.wf(),
    ensures
        r matches Ok(w) ==> valid_sample(*table, w@),
        !table.has_context(spaces(table.accuracy as nat)) ==> r == Err::<String, WordGenError>(
            WordGenError::MissingContext,
        ),
        r matches Err(e) ==> (e == WordGenError::MissingContext || e
            == WordGenError::LengthLimitExceeded),
{
    match generate_word_chars(table) {
        Ok(cs) => Ok(chars_to_string(&cs)),
        Err(e) => Err(e),
    }
}

/// Draw `number` words independently, then sort them by non-decreasing
/// length. A failed draw aborts the whole batch with its error.
pub fn generate_multiple_words(table: &ProbabilityTable, number: u32) -> (r: Result<
    Vec<String>,
    WordGenError,
>)
    requires
        table.wf(),
    ensures
        r matches Ok(v) ==> v@.len() == number,
        r matches Ok(v) ==> sorted_by_len(word_views(v@)),
        r matches Ok(v) ==> (forall|i: int|
            0 <= i < v@.len() ==> valid_sample(*table, #[trigger] word_views(v@)[i])),
        number == 0 ==> r is Ok,
        number >= 1 && !table.has_context(spaces(table.accuracy as nat)) ==> r == Err::<
            Vec<String>,
            WordGenError,
        >(WordGenError::MissingContext),
        r matches Err(e) ==> (e == WordGenError::MissingContext || e
            == WordGenError::LengthLimitExceeded),
{
    broadcast use vstd::seq_lib::group_to_multiset_ensures;

    let mut words: Vec<Vec<char>> = Vec::new();
    let mut i: u32 = 0;
    while i < number
        invariant
            table.wf(),
            i <= number,
            words@.len() == i,
            forall|j: int|
                0 <= j < words@.len() ==> valid_sample(*table, (#[trigger] words@[j])@),
            i >= 1 ==> table.has_context(spaces(table.accuracy as nat)),
        decreases number - i,
    {
        match generate_word_chars(table) {
            Ok(w) => {
                words.push(w);
            },
            Err(e) => {
                return Err(e);
            },
        }
        i += 1;
    }
    let ghost before = words@;
    sort_words(&mut words);
    proof {
        assert forall|j: int| 0 <= j < words@.len() implies valid_sample(
            *table,
            (#[trigger] words@[j])@,
        ) by {
            let w = words@[j];
            words@.to_multiset_ensures();
            before.to_multiset_ensures();
            assert(words@.contains(w)) by {
                assert(words@[j] == w);
            }
            assert(words@.to_multiset().count(w) > 0);
            assert(before.to_multiset().count(w) > 0);
            assert(before.contains(w));
            let a = choose|a: int| 0 <= a < before.len() && before[a] == w;
            assert(valid_sample(*table, (before[a])@));
        }
    }
    let ghost sorted = words@;
    let mut out: Vec<String> = Vec::new();
    let mut oi: usize = 0;
    while oi < words.len()
        invariant
            oi <= words@.len(),
            words@ == sorted,
            out@.len() == oi,
            forall|j: int| 0 <= j < oi ==> (#[trigger] out@[j])@ == (words@[j])@,
        decreases words@.len() - oi,
    {
        let s = chars_to_string(&words[oi]);
        out.push(s);
        oi += 1;
    }
    proof {
        assert(word_views(out@) =~= chars_views(words@));
    }
    Ok(out)
}

impl ProbabilityTable {
    /// Generate `amount` words from this table, sorted by non-decreasing
    /// length. A failed draw aborts the whole batch with its error.
    pub fn generate_words(&self, amount: u32) -> (r: Result<Vec<String>, WordGenError>)
        requires
            self.wf(),
        ensures
            r matches Ok(v) ==> v@.len() == amount,
            r matches Ok(v) ==> sorted_by_len(word_views(v@)),
            r matches Ok(v) ==> (forall|i: int|
                0 <= i < v@.len() ==> valid_sample(*self, #[trigger] word_views(v@)[i])),
            amount == 0 ==> r is Ok,
            amount >= 1 && !self.has_context(spaces(self.accuracy as nat)) ==> r == Err::<
                Vec<String>,
                WordGenError,
            >(WordGenError::MissingContext),
            r matches Err(e) ==> (e == WordGenError::MissingContext || e
                == WordGenError::LengthLimitExceeded),
    {
        generate_multiple_words(self, amount)
    }
}

} // verus!
