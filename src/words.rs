//! Counting the words of a text.

use vstd::prelude::*;

use crate::text::{chars_of, push_char};

verus! {

/// What `char::is_alphanumeric` says of a character.
pub uninterp spec fn alnum_of(c: char) -> bool;

/// Relies on `char::is_alphanumeric`: whether a character is a letter or a
/// digit in Unicode depends on the character alone.
#[verifier::external_body]
fn is_alphanumeric(c: char) -> (r: bool)
    ensures
        r == alnum_of(c),
{
    c.is_alphanumeric()
}

/// Words are made of letters, digits and underscores.
pub open spec fn word_char(c: char) -> bool {
    alnum_of(c) || c == '_'
}

/// The words of `s` from position `i` on, `cur` being the part of a word read
/// just before `i`: the longest runs of word characters, in order.
pub open spec fn words_from(s: Seq<char>, i: int, cur: Seq<char>) -> Seq<Seq<char>>
    decreases s.len() - i,
{
    if i >= s.len() {
        if cur.len() > 0 {
            seq![cur]
        } else {
            Seq::empty()
        }
    } else if word_char(s[i]) {
        words_from(s, i + 1, cur.push(s[i]))
    } else {
        (if cur.len() > 0 {
            seq![cur]
        } else {
            Seq::empty()
        }) + words_from(s, i + 1, Seq::empty())
    }
}

pub open spec fn words_of(s: Seq<char>) -> Seq<Seq<char>> {
    words_from(s, 0, Seq::empty())
}

/// How often a word was seen.
#[derive(Debug)]
pub struct WordCount {
    pub word: String,
    pub count: i64,
}

pub open spec fn tally_view(counts: Seq<WordCount>) -> Seq<(Seq<char>, int)> {
    counts.map_values(|c: WordCount| (c.word@, c.count as int))
}

/// The first entry from `k` on that counts `word`.
pub open spec fn entry_of(t: Seq<(Seq<char>, int)>, word: Seq<char>, k: int) -> int
    decreases t.len() - k,
{
    if k >= t.len() {
        t.len() as int
    } else if t[k].0 == word {
        k
    } else {
        entry_of(t, word, k + 1)
    }
}

/// `t` with one more sighting of `word`: its entry goes up by one, or a new
/// entry of one is added at the end.
pub open spec fn tally_one(t: Seq<(Seq<char>, int)>, word: Seq<char>) -> Seq<(Seq<char>, int)> {
    let k = entry_of(t, word, 0);
    if k < t.len() {
        t.update(k, (word, t[k].1 + 1))
    } else {
        t.push((word, 1))
    }
}

/// `t` with each of `words` counted in turn.
pub open spec fn tally(t: Seq<(Seq<char>, int)>, words: Seq<Seq<char>>) -> Seq<(Seq<char>, int)>
    decreases words.len(),
{
    if words.len() == 0 {
        t
    } else {
        tally_one(tally(t, words.drop_last()), words.last())
    }
}

proof fn lemma_entry_of(t: Seq<(Seq<char>, int)>, word: Seq<char>, k: int)
    requires
        0 <= k <= t.len(),
    ensures
        k <= entry_of(t, word, k) <= t.len(),
        entry_of(t, word, k) < t.len() ==> t[entry_of(t, word, k)].0 == word,
    decreases t.len() - k,
{
    if k < t.len() && t[k].0 != word {
        lemma_entry_of(t, word, k + 1);
    }
}

/// Counts one more sighting of `word`.
fn add_word(word: String, counts: &mut Vec<WordCount>)
    requires
        forall|i: int| 0 <= i < old(counts)@.len() ==> (#[trigger] old(counts)@[i]).count < i64::MAX,
    ensures
        tally_view(final(counts)@) == tally_one(tally_view(old(counts)@), word@),
{
    let ghost t = tally_view(counts@);
    let n = counts.len();
    let mut i: usize = 0;
    while i < n
        invariant
            n == counts@.len(),
            counts@ == old(counts)@,
            t == tally_view(counts@),
            forall|j: int| 0 <= j < counts@.len() ==> (#[trigger] counts@[j]).count < i64::MAX,
            i <= n,
            entry_of(t, word@, 0) == entry_of(t, word@, i as int),
        decreases n - i,
    {
        if counts[i].word == word {
            let c = counts[i].count;
            let w = counts[i].word.clone();
            counts.set(i, WordCount { word: w, count: c + 1 });
            assert(tally_view(counts@) =~= t.update(i as int, (word@, t[i as int].1 + 1)));
            return;
        }
        i = i + 1;
    }
    counts.push(WordCount { word, count: 1 });
    assert(tally_view(counts@) =~= t.push((word@, 1)));
}

proof fn lemma_tally_bounded(t: Seq<(Seq<char>, int)>, words: Seq<Seq<char>>, bound: int)
    requires
        bound >= 0,
        forall|i: int| 0 <= i < t.len() ==> #[trigger] t[i].1 <= bound,
    ensures
        forall|i: int|
            0 <= i < tally(t, words).len() ==> #[trigger] tally(t, words)[i].1 <= bound + words.len(),
    decreases words.len(),
{
    if words.len() > 0 {
        lemma_tally_bounded(t, words.drop_last(), bound);
        let before = tally(t, words.drop_last());
        lemma_entry_of(before, words.last(), 0);
        let after = tally(t, words);
        assert(after == tally_one(before, words.last()));
        assert forall|i: int| 0 <= i < after.len() implies #[trigger] after[i].1 <= bound + words.len() by {
            if i < before.len() {
                assert(before[i].1 <= bound + words.len() - 1);
            }
        }
    }
}

proof fn lemma_words_from_len(s: Seq<char>, i: int, cur: Seq<char>)
    requires
        0 <= i <= s.len(),
    ensures
        words_from(s, i, cur).len() <= s.len() - i + 1,
    decreases s.len() - i,
{
    if i < s.len() {
        if word_char(s[i]) {
            lemma_words_from_len(s, i + 1, cur.push(s[i]));
        } else {
            lemma_words_from_len(s, i + 1, Seq::empty());
        }
    }
}

/// Counts the words of `text` into `counts`, in the order they come.
pub fn count_words(text: &str, counts: &mut Vec<WordCount>)
    requires
        text@.len() <= i64::MAX - 2,
        forall|i: int|
            0 <= i < old(counts)@.len() ==> (#[trigger] old(counts)@[i]).count <= i64::MAX - text@.len()
                - 2,
    ensures
        tally_view(final(counts)@) == tally(tally_view(old(counts)@), words_of(text@)),
{
    let chars = chars_of(text);
    let n = chars.len();
    let ghost t0 = tally_view(counts@);
    let ghost mut seen: Seq<Seq<char>> = Seq::empty();
    let mut cur: Vec<char> = Vec::new();
    let mut word = String::new();
    let mut i: usize = 0;
    proof {
        lemma_words_from_len(text@, 0, Seq::empty());
    }
    while i < n
        invariant
            n == text@.len(),
            n <= i64::MAX - 2,
            chars@ == text@,
            i <= n,
            word@ == cur@,
            seen + words_from(text@, i as int, cur@) == words_of(text@),
            seen.len() <= i,
            cur@.len() <= i,
            words_from(text@, i as int, cur@).len() <= n - i + 1,
            t0 == tally_view(old(counts)@),
            forall|k: int| 0 <= k < t0.len() ==> #[trigger] t0[k].1 <= i64::MAX - n - 2,
            tally_view(counts@) == tally(t0, seen),
        decreases n - i,
    {
        let c = chars[i];
        if is_alphanumeric(c) || c == '_' {
            cur.push(c);
            push_char(&mut word, c);
            proof {
                lemma_words_from_len(text@, i + 1, cur@);
            }
        } else {
            if cur.len() > 0 {
                proof {
                    lemma_tally_bounded(t0, seen, i64::MAX - n - 2);
                }
                assert forall|k: int| 0 <= k < counts@.len() implies (#[trigger] counts@[k]).count
                    < i64::MAX by {
                    assert(tally_view(counts@)[k].1 == counts@[k].count);
                }
                let finished = word;
                add_word(finished, counts);
                proof {
                    assert(seen.push(cur@).drop_last() =~= seen);
                    assert(seen + words_from(text@, i as int, cur@) =~= seen.push(cur@) + words_from(
                        text@,
                        i + 1,
                        Seq::empty(),
                    ));
                    seen = seen.push(cur@);
                }
                cur = Vec::new();
                word = String::new();
            } else {
                assert(words_from(text@, i as int, cur@) =~= words_from(text@, i + 1, Seq::empty()));
                cur = Vec::new();
            }
            proof {
                lemma_words_from_len(text@, i + 1, cur@);
            }
        }
        i = i + 1;
    }
    if cur.len() > 0 {
        proof {
            lemma_tally_bounded(t0, seen, i64::MAX - n - 2);
        }
        assert forall|k: int| 0 <= k < counts@.len() implies (#[trigger] counts@[k]).count < i64::MAX by {
            assert(tally_view(counts@)[k].1 == counts@[k].count);
        }
        add_word(word, counts);
        proof {
            assert(seen.push(cur@).drop_last() =~= seen);
            assert(seen + words_from(text@, n as int, cur@) =~= seen.push(cur@));
            seen = seen.push(cur@);
        }
    } else {
        assert(seen + words_from(text@, n as int, cur@) =~= seen);
    }
}

} // verus!
