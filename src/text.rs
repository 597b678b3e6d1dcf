//! Text helpers: lowercase, substring search and splitting, over characters.

use vstd::prelude::*;

verus! {

/// What `str::to_lowercase` makes of a text.
pub uninterp spec fn lower_of(s: Seq<char>) -> Seq<char>;

/// Relies on `str::to_lowercase`: the lowercase form depends on the
/// characters alone, and an empty text stays empty.
#[verifier::external_body]
pub(crate) fn lowercase(s: &str) -> (r: String)
    ensures
        r@ == lower_of(s@),
        s@.len() == 0 ==> r@.len() == 0,
{
    s.to_lowercase()
}

/// Relies on `String::push`: the character is appended at the end.
#[verifier::external_body]
pub(crate) fn push_char(s: &mut String, c: char)
    ensures
        final(s)@ == old(s)@.push(c),
{
    s.push(c);
}

/// The characters of `s`, in order.
pub fn chars_of(s: &str) -> (r: Vec<char>)
    ensures
        r@ == s@,
{
    let n = s.unicode_len();
    let mut out: Vec<char> = Vec::new();
    let mut i: usize = 0;
    while i < n
        invariant
            n == s@.len(),
            i <= n,
            out@ == s@.subrange(0, i as int),
        decreases n - i,
    {
        out.push(s.get_char(i));
        i = i + 1;
    }
    assert(out@ =~= s@);
    out
}

/// `word` stands in `text` at position `i`.
pub open spec fn occurs_at(text: Seq<char>, word: Seq<char>, i: int) -> bool {
    0 <= i && i + word.len() <= text.len() && text.subrange(i, i + word.len()) == word
}

pub open spec fn contains_word(text: Seq<char>, word: Seq<char>) -> bool {
    exists|i: int| occurs_at(text, word, i)
}

/// The first position from `start` on where `word` stands in `text`.
pub open spec fn find_from(text: Seq<char>, word: Seq<char>, start: int) -> Option<int>
    decreases text.len() + 1 - start,
{
    if start < 0 || start + word.len() > text.len() {
        None
    } else if occurs_at(text, word, start) {
        Some(start)
    } else {
        find_from(text, word, start + 1)
    }
}

pub proof fn lemma_find_from(text: Seq<char>, word: Seq<char>, start: int)
    requires
        0 <= start,
    ensures
        find_from(text, word, start) is Some <==> exists|i: int|
            start <= i && #[trigger] occurs_at(text, word, i),
        find_from(text, word, start) is Some ==> start <= find_from(text, word, start)->Some_0
            && occurs_at(text, word, find_from(text, word, start)->Some_0),
    decreases text.len() + 1 - start,
{
    if start + word.len() <= text.len() && !occurs_at(text, word, start) {
        assert(decreases_to!(text.len() + 1 - start => text.len() + 1 - (start + 1)));
        lemma_find_from(text, word, start + 1);
        if exists|i: int| start <= i && #[trigger] occurs_at(text, word, i) {
            let i = choose|i: int| start <= i && #[trigger] occurs_at(text, word, i);
            assert(start + 1 <= i);
        }
    }
}

fn occurs_at_exec(text: &Vec<char>, word: &Vec<char>, i: usize) -> (r: bool)
    requires
        i + word@.len() <= text@.len(),
    ensures
        r == occurs_at(text@, word@, i as int),
{
    let n = word.len();
    let tn = text.len();
    let mut j: usize = 0;
    while j < n
        invariant
            n == word@.len(),
            tn == text@.len(),
            i + n <= text@.len(),
            j <= n,
            text@.subrange(i as int, i + j) == word@.subrange(0, j as int),
        decreases n - j,
    {
        if text[i + j] != word[j] {
            assert(text@.subrange(i as int, i + n)[j as int] != word@[j as int]);
            return false;
        }
        assert(text@.subrange(i as int, i + j + 1) =~= word@.subrange(0, j + 1));
        j = j + 1;
    }
    assert(word@.subrange(0, n as int) =~= word@);
    true
}

/// The first position from `start` on where `word` stands in `text`.
pub fn find_word(text: &Vec<char>, word: &Vec<char>, start: usize) -> (r: Option<usize>)
    ensures
        r matches Some(i) ==> find_from(text@, word@, start as int) == Some(i as int),
        r is None ==> find_from(text@, word@, start as int) is None,
{
    if word.len() > text.len() || start > text.len() - word.len() {
        return None;
    }
    let last = text.len() - word.len();
    let mut i = start;
    loop
        invariant
            last == text@.len() - word@.len(),
            start <= i <= last,
            find_from(text@, word@, start as int) == find_from(text@, word@, i as int),
        decreases last - i,
    {
        if occurs_at_exec(text, word, i) {
            return Some(i);
        }
        if i == last {
            return None;
        }
        i = i + 1;
    }
}

/// `word` stands somewhere in `text`.
pub fn contains_exec(text: &Vec<char>, word: &Vec<char>) -> (r: bool)
    ensures
        r == contains_word(text@, word@),
{
    proof {
        lemma_find_from(text@, word@, 0);
    }
    find_word(text, word, 0).is_some()
}

/// Each of `words`, in order, stands in `text` from `start` on, each found at
/// its first place after the one before it.
pub open spec fn fuzzy_match(text: Seq<char>, words: Seq<Seq<char>>, start: int) -> bool
    decreases words.len(),
{
    if words.len() == 0 {
        true
    } else {
        match find_from(text, words[0], start) {
            None => false,
            Some(i) => fuzzy_match(text, words.drop_first(), i + words[0].len()),
        }
    }
}

pub open spec fn char_views(words: Seq<Vec<char>>) -> Seq<Seq<char>> {
    words.map_values(|w: Vec<char>| w@)
}

/// Whether `words` stand in `text` in order, as `fuzzy_match` says.
pub fn fuzzy_match_exec(text: &Vec<char>, words: &Vec<Vec<char>>) -> (r: bool)
    ensures
        r == fuzzy_match(text@, char_views(words@), 0),
{
    let ghost ws = char_views(words@);
    let tn = text.len();
    assert(ws.subrange(0, ws.len() as int) =~= ws);
    let mut start: usize = 0;
    let mut k: usize = 0;
    while k < words.len()
        invariant
            ws == char_views(words@),
            tn == text@.len(),
            k <= words@.len(),
            start <= text@.len(),
            fuzzy_match(text@, ws, 0) == fuzzy_match(text@, ws.subrange(k as int, ws.len() as int), start as int),
        decreases words@.len() - k,
    {
        let ghost rest = ws.subrange(k as int, ws.len() as int);
        assert(rest[0] == words@[k as int]@);
        assert(rest.drop_first() =~= ws.subrange(k + 1, ws.len() as int));
        match find_word(text, &words[k], start) {
            None => {
                return false;
            },
            Some(i) => {
                proof {
                    lemma_find_from(text@, words@[k as int]@, start as int);
                }
                start = i + words[k].len();
            },
        }
        k = k + 1;
    }
    assert(ws.subrange(k as int, ws.len() as int).len() == 0);
    true
}

/// The pieces of `s` between the occurrences of `sep`, empty pieces included,
/// as `str::split` gives them.
pub open spec fn split_on(s: Seq<char>, sep: char) -> Seq<Seq<char>>
    decreases s.len(),
{
    if s.len() == 0 {
        seq![Seq::empty()]
    } else {
        let rest = split_on(s.drop_last(), sep);
        if s.last() == sep {
            rest.push(Seq::empty())
        } else {
            rest.update(rest.len() - 1, rest.last().push(s.last()))
        }
    }
}

proof fn lemma_split_on_len(s: Seq<char>, sep: char)
    ensures
        split_on(s, sep).len() >= 1,
    decreases s.len(),
{
    if s.len() > 0 {
        lemma_split_on_len(s.drop_last(), sep);
    }
}

/// The pieces of `s` between the occurrences of `sep`.
pub fn split_chars(s: &Vec<char>, sep: char) -> (r: Vec<Vec<char>>)
    ensures
        char_views(r@) == split_on(s@, sep),
{
    let mut done: Vec<Vec<char>> = Vec::new();
    let mut cur: Vec<char> = Vec::new();
    let mut i: usize = 0;
    while i < s.len()
        invariant
            i <= s@.len(),
            char_views(done@).push(cur@) == split_on(s@.subrange(0, i as int), sep),
        decreases s@.len() - i,
    {
        let c = s[i];
        let ghost prefix = s@.subrange(0, i + 1);
        assert(prefix.drop_last() =~= s@.subrange(0, i as int));
        assert(prefix.last() == c);
        if c == sep {
            let piece = cur;
            done.push(piece);
            cur = Vec::new();
            assert(char_views(done@).push(cur@) =~= split_on(prefix, sep));
        } else {
            let ghost before = char_views(done@).push(cur@);
            cur.push(c);
            assert(char_views(done@).push(cur@) =~= before.update(before.len() - 1, before.last().push(c)));
        }
        i = i + 1;
    }
    assert(s@.subrange(0, s@.len() as int) =~= s@);
    done.push(cur);
    assert(char_views(done@) =~= split_on(s@, sep));
    done
}

} // verus!
