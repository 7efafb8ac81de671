use vstd::prelude::*;
use vstd::utf8::*;

use crate::utf8_input::{bytes_to_str, lemma_utf8_append};

verus! {

/// Whether `c` is alphanumeric in the Unicode sense, as `char::is_alphanumeric` decides it.
pub uninterp spec fn alphanumeric(c: char) -> bool;

/// Relies on `char::is_alphanumeric`: its answer depends on the character alone.
#[verifier::external_body]
fn char_is_alphanumeric(c: char) -> (r: bool)
    ensures
        r == alphanumeric(c),
{
    c.is_alphanumeric()
}

/// A word character is a Unicode alphanumeric character or the ASCII apostrophe.
pub open spec fn word_char(c: char) -> bool {
    alphanumeric(c) || c == '\''
}

/// Which characters of `s` are word characters.
pub open spec fn word_mask(s: Seq<char>) -> Seq<bool> {
    Seq::new(s.len(), |i: int| word_char(s[i]))
}

pub fn is_word_char(c: char) -> (r: bool)
    ensures
        r == word_char(c),
{
    char_is_alphanumeric(c) || c == '\''
}

/// The word-character mask of `s`, one entry per character.
pub fn word_mask_of(s: &str) -> (m: Vec<bool>)
    ensures
        m@ == word_mask(s@),
{
    let mut m: Vec<bool> = Vec::new();
    for c in it: s.chars()
        invariant
            it.seq() == s@,
            m@ == word_mask(s@).take(it.index() as int),
    {
        m.push(is_word_char(c));
    }
    m
}


/// Scanning state after a prefix of text: the word runs completed so far, in order,
/// and the run of word characters that is still open at the end (empty when none is).
pub type RunState = (Seq<Seq<char>>, Seq<char>);

pub open spec fn empty_state() -> RunState {
    (Seq::empty(), Seq::empty())
}

/// Reads one character `c`, which is a word character exactly when `w`.
pub open spec fn scan_step(st: RunState, c: char, w: bool) -> RunState {
    if w {
        (st.0, st.1.push(c))
    } else if st.1.len() > 0 {
        (st.0.push(st.1), Seq::empty())
    } else {
        (st.0, Seq::empty())
    }
}

/// Reads `s` left to right from state `st`; `m` tells which characters are word characters.
pub open spec fn scan_runs(st: RunState, s: Seq<char>, m: Seq<bool>) -> RunState
    decreases s.len(),
{
    if s.len() == 0 {
        st
    } else {
        scan_step(scan_runs(st, s.drop_last(), m.drop_last()), s.last(), m.last())
    }
}

/// The words a state stands for: the completed runs and the open one, if any.
pub open spec fn state_words(st: RunState) -> Set<Seq<char>> {
    if st.1.len() > 0 {
        st.0.to_set().insert(st.1)
    } else {
        st.0.to_set()
    }
}

/// The tokens of `s`: its maximal runs of word characters.
pub open spec fn tokens(s: Seq<char>) -> Set<Seq<char>> {
    state_words(scan_runs(empty_state(), s, word_mask(s)))
}

pub open spec fn strings_view(v: Seq<String>) -> Seq<Seq<char>> {
    v.map_values(|x: String| x@)
}

pub open spec fn all_set(m: Seq<bool>) -> bool {
    forall|i: int| 0 <= i < m.len() ==> #[trigger] m[i]
}

pub open spec fn none_set(m: Seq<bool>) -> bool {
    forall|i: int| 0 <= i < m.len() ==> !#[trigger] m[i]
}

/// The words of one chunk of text, and how the chunk begins and ends.
pub struct WordsWithAlphanumericRuns {
    /// The runs of word characters that the chunk completes, in order.
    pub words: Vec<String>,
    /// Whether the chunk begins with a word character.
    pub leading_run: bool,
    /// The run of word characters that the chunk ends in, if it ends in one.
    pub trailing_run: Option<String>,
}

/// How one chunk of text splits into words.
pub enum ScanForWordsResult {
    /// The chunk holds no word character.
    NoWords,
    /// The chunk is one run of word characters from end to end.
    SingleAlphanumericRun,
    /// Any other chunk.
    Words(WordsWithAlphanumericRuns),
}

/// What scanning `s` with mask `m` returns.
pub open spec fn scan_result_matches(s: Seq<char>, m: Seq<bool>, r: ScanForWordsResult) -> bool {
    let st = scan_runs(empty_state(), s, m);
    match r {
        ScanForWordsResult::NoWords => none_set(m),
        ScanForWordsResult::SingleAlphanumericRun => s.len() > 0 && all_set(m),
        ScanForWordsResult::Words(w) => {
            &&& !none_set(m)
            &&& !all_set(m)
            &&& strings_view(w.words@) == st.0
            &&& w.leading_run == m[0]
            &&& match w.trailing_run {
                Some(t) => st.1.len() > 0 && t@ == st.1,
                None => st.1.len() == 0,
            }
        },
    }
}

proof fn lemma_scan_prefix(s: Seq<char>, m: Seq<bool>, i: int)
    requires
        0 <= i < s.len(),
        s.len() == m.len(),
    ensures
        scan_runs(empty_state(), s.take(i + 1), m.take(i + 1)) == scan_step(
            scan_runs(empty_state(), s.take(i), m.take(i)),
            s[i],
            m[i],
        ),
{
    assert(s.take(i + 1).drop_last() =~= s.take(i));
    assert(m.take(i + 1).drop_last() =~= m.take(i));
}

/// Splits `s` into runs of word characters, where `mask` says which characters are
/// word characters.
pub fn scan_masked(s: &str, mask: &Vec<bool>) -> (r: ScanForWordsResult)
    requires
        mask@.len() == s@.len(),
    ensures
        scan_result_matches(s@, mask@, r),
{
    let n = mask.len();
    let mut words: Vec<String> = Vec::new();
    let mut start: Option<usize> = None;
    let mut seen_word = false;
    let mut seen_other = false;
    let mut i: usize = 0;
    while i < n
        invariant
            n == mask@.len() == s@.len(),
            0 <= i <= n,
            strings_view(words@) == scan_runs(empty_state(), s@.take(i as int), mask@.take(i as int)).0,
            match start {
                Some(k) => k < i && scan_runs(empty_state(), s@.take(i as int), mask@.take(i as int)).1
                    == s@.subrange(k as int, i as int),
                None => scan_runs(empty_state(), s@.take(i as int), mask@.take(i as int)).1.len() == 0,
            },
            seen_word <==> exists|j: int| 0 <= j < i && #[trigger] mask@[j],
            seen_other <==> exists|j: int| 0 <= j < i && !#[trigger] mask@[j],
        decreases n - i,
    {
        proof {
            lemma_scan_prefix(s@, mask@, i as int);
        }
        let ghost prev = scan_runs(empty_state(), s@.take(i as int), mask@.take(i as int));
        if mask[i] {
            seen_word = true;
            match start {
                Some(k) => {
                    assert(prev.1.push(s@[i as int]) =~= s@.subrange(k as int, i + 1));
                },
                None => {
                    start = Some(i);
                    assert(prev.1.push(s@[i as int]) =~= s@.subrange(i as int, i + 1));
                },
            }
        } else {
            seen_other = true;
            match start {
                Some(k) => {
                    let w = s.substring_char(k, i).to_owned();
                    words.push(w);
                    start = None;
                    proof {
                        assert(strings_view(words@) =~= prev.0.push(prev.1));
                    }
                },
                None => {},
            }
        }
        i = i + 1;
    }
    assert(s@.take(n as int) =~= s@);
    assert(mask@.take(n as int) =~= mask@);
    if !seen_word {
        ScanForWordsResult::NoWords
    } else if !seen_other {
        ScanForWordsResult::SingleAlphanumericRun
    } else {
        let trailing_run = match start {
            Some(k) => Some(s.substring_char(k, n).to_owned()),
            None => None,
        };
        ScanForWordsResult::Words(WordsWithAlphanumericRuns { words, leading_run: mask[0], trailing_run })
    }
}


/// A run completed by the end of a chunk, or nothing when the run is empty.
pub open spec fn closed_run(r: Seq<char>) -> Seq<Seq<char>> {
    if r.len() > 0 {
        seq![r]
    } else {
        Seq::empty()
    }
}

/// The runs completed by a chunk whose own completed runs are `wc`, when the text before
/// it ends in the open run `r` and the chunk begins with a word character exactly when `lead`.
pub open spec fn joined_runs(r: Seq<char>, wc: Seq<Seq<char>>, lead: bool) -> Seq<Seq<char>> {
    if r.len() == 0 {
        wc
    } else if lead {
        seq![r + wc[0]] + wc.skip(1)
    } else {
        seq![r] + wc
    }
}

proof fn lemma_scan_concat(st: RunState, d: Seq<char>, md: Seq<bool>, c: Seq<char>, mc: Seq<bool>)
    requires
        d.len() == md.len(),
        c.len() == mc.len(),
    ensures
        scan_runs(st, d + c, md + mc) == scan_runs(scan_runs(st, d, md), c, mc),
    decreases c.len(),
{
    if c.len() == 0 {
        assert(d + c =~= d);
        assert(md + mc =~= md);
    } else {
        lemma_scan_concat(st, d, md, c.drop_last(), mc.drop_last());
        assert((d + c).drop_last() =~= d + c.drop_last());
        assert((md + mc).drop_last() =~= md + mc.drop_last());
    }
}

/// Scanning a chunk from any state, in terms of scanning the chunk alone.
proof fn lemma_scan_chunk(st: RunState, c: Seq<char>, m: Seq<bool>)
    requires
        c.len() == m.len(),
        c.len() > 0,
    ensures
        all_set(m) ==> scan_runs(st, c, m) == (st.0, st.1 + c),
        none_set(m) ==> scan_runs(st, c, m) == (st.0 + closed_run(st.1), Seq::<char>::empty()),
        !all_set(m) && !none_set(m) ==> {
            let sc = scan_runs(empty_state(), c, m);
            &&& scan_runs(st, c, m) == (st.0 + joined_runs(st.1, sc.0, m[0]), sc.1)
            &&& m[0] ==> sc.0.len() > 0
        },
    decreases c.len(),
{
    let c1 = c.drop_last();
    let m1 = m.drop_last();
    let x = c.last();
    let b = m.last();
    let e = empty_state();
    if c1.len() == 0 {
        assert(scan_runs(st, c1, m1) == st);
        if b {
            assert(all_set(m));
            assert(!none_set(m)) by {
                assert(m[0]);
            }
            assert(Seq::<char>::empty().push(x) =~= c);
            assert(st.1.push(x) =~= st.1 + c);
        } else {
            assert(none_set(m));
            assert(!all_set(m)) by {
                assert(!m[0]);
            }
            if st.1.len() > 0 {
                assert(st.0.push(st.1) =~= st.0 + closed_run(st.1));
            } else {
                assert(st.0 =~= st.0 + closed_run(st.1));
            }
        }
    } else {
        lemma_scan_chunk(st, c1, m1);
        lemma_scan_chunk(e, c1, m1);
        assert(m1[0] == m[0]);
        if all_set(m1) {
            assert(scan_runs(e, c1, m1) == (e.0, e.1 + c1));
            assert(e.1 + c1 =~= c1);
            assert(!none_set(m)) by {
                assert(m[0]);
            }
            if b {
                assert forall|i: int| 0 <= i < m.len() implies m[i] by {
                    if i < m1.len() {
                        assert(m[i] == m1[i]);
                    }
                }
                assert((st.1 + c1).push(x) =~= st.1 + c);
            } else {
                assert(!all_set(m));
                assert(!none_set(m)) by {
                    assert(m[0]);
                }
                assert(c1.len() > 0);
                let sc = scan_runs(e, c, m);
                assert(sc == (e.0.push(c1), Seq::<char>::empty()));
                if st.1.len() == 0 {
                    assert(st.1 + c1 =~= c1);
                    assert(st.0.push(st.1 + c1) =~= st.0 + joined_runs(st.1, sc.0, m[0]));
                } else {
                    assert(e.0.push(c1)[0] == c1);
                    assert(e.0.push(c1).skip(1) =~= Seq::<Seq<char>>::empty());
                    assert(st.0.push(st.1 + c1) =~= st.0 + joined_runs(st.1, sc.0, m[0]));
                }
            }
        } else if none_set(m1) {
            assert(scan_runs(e, c1, m1) == (e.0 + closed_run(e.1), Seq::<char>::empty()));
            assert(e.0 + closed_run(e.1) =~= e.0);
            if b {
                assert(!all_set(m)) by {
                    assert(!m[0]);
                }
                assert(!none_set(m)) by {
                    assert(m[c.len() - 1]);
                }
                let sc = scan_runs(e, c, m);
                assert(sc == (e.0, seq![x]));
                assert(Seq::<char>::empty().push(x) =~= seq![x]);
                assert(!m[0]);
                if st.1.len() == 0 {
                    assert(st.0 + closed_run(st.1) =~= st.0 + joined_runs(st.1, sc.0, m[0]));
                } else {
                    assert(st.0 + closed_run(st.1) =~= st.0 + joined_runs(st.1, sc.0, m[0]));
                }
            } else {
                assert(!all_set(m)) by {
                    assert(!m[0]);
                }
                assert forall|i: int| 0 <= i < m.len() implies !m[i] by {
                    if i < m1.len() {
                        assert(m[i] == m1[i]);
                    }
                }
            }
        } else {
            let sc1 = scan_runs(e, c1, m1);
            assert(!all_set(m)) by {
                let j = choose|j: int| 0 <= j < m1.len() && !m1[j];
                assert(!m[j]);
            }
            assert(!none_set(m)) by {
                let j = choose|j: int| 0 <= j < m1.len() && m1[j];
                assert(m[j]);
            }
            let sc = scan_runs(e, c, m);
            assert(e.0 + joined_runs(e.1, sc1.0, m1[0]) =~= sc1.0);
            let j1 = joined_runs(st.1, sc1.0, m[0]);
            if b {
                assert(sc == (sc1.0, sc1.1.push(x)));
            } else {
                assert(sc.0 == sc1.0 + closed_run(sc1.1)) by {
                    if sc1.1.len() > 0 {
                        assert(sc1.0.push(sc1.1) =~= sc1.0 + closed_run(sc1.1));
                    } else {
                        assert(sc1.0 =~= sc1.0 + closed_run(sc1.1));
                    }
                }
                assert(joined_runs(st.1, sc.0, m[0]) =~= j1 + closed_run(sc1.1)) by {
                    if st.1.len() > 0 && m[0] {
                        assert((sc1.0 + closed_run(sc1.1))[0] == sc1.0[0]);
                        assert((sc1.0 + closed_run(sc1.1)).skip(1) =~= sc1.0.skip(1) + closed_run(sc1.1));
                    }
                }
                if sc1.1.len() > 0 {
                    assert((st.0 + j1).push(sc1.1) =~= st.0 + (j1 + closed_run(sc1.1)));
                } else {
                    assert(st.0 + j1 =~= st.0 + (j1 + closed_run(sc1.1)));
                }
            }
        }
    }
}


/// The words held in `v`, as a set.
pub open spec fn word_set(v: Seq<String>) -> Set<Seq<char>> {
    strings_view(v).to_set()
}

/// No two strings of `v` are equal.
pub open spec fn distinct_words(v: Seq<String>) -> bool {
    strings_view(v).no_duplicates()
}

/// Adds `w` to the set of words held in `words`, unless it is there already.
pub fn insert_word(words: &mut Vec<String>, w: String)
    requires
        distinct_words(old(words)@),
    ensures
        distinct_words(final(words)@),
        word_set(final(words)@) == word_set(old(words)@).insert(w@),
{
    let n = words.len();
    let mut j: usize = 0;
    while j < n
        invariant
            n == words.len(),
            0 <= j <= n,
            words@ == old(words)@,
            distinct_words(words@),
            forall|k: int| 0 <= k < j ==> words@[k]@ != w@,
        decreases n - j,
    {
        if words[j] == w {
            proof {
                assert(strings_view(words@)[j as int] == w@);
                assert(word_set(words@) =~= word_set(words@).insert(w@));
                assert(distinct_words(words@));
            }
            return;
        }
        j = j + 1;
    }
    let ghost before = words@;
    words.push(w);
    proof {
        assert(strings_view(words@) =~= strings_view(before).push(w@));
        assert(!strings_view(before).contains(w@)) by {
            if strings_view(before).contains(w@) {
                let k = choose|k: int| 0 <= k < before.len() && strings_view(before)[k] == w@;
                assert(before[k]@ == w@);
            }
        }
        assert(word_set(words@) =~= word_set(before).insert(w@)) by {
            assert forall|x: Seq<char>| word_set(words@).contains(x) implies word_set(before).insert(x).contains(x) && (x == w@ || word_set(before).contains(x)) by {
                let k = choose|k: int| 0 <= k < words@.len() && strings_view(words@)[k] == x;
                if k < before.len() {
                    assert(strings_view(before)[k] == x);
                }
            }
            assert forall|x: Seq<char>| word_set(before).insert(w@).contains(x) implies word_set(words@).contains(x) by {
                if x == w@ {
                    assert(strings_view(words@)[before.len() as int] == x);
                } else {
                    let k = choose|k: int| 0 <= k < before.len() && strings_view(before)[k] == x;
                    assert(strings_view(words@)[k] == x);
                }
            }
        }
    }
}

/// Pushing a string onto a vector adds its text to the vector's word set.
pub proof fn lemma_word_set_push(v: Seq<String>, w: String)
    ensures
        word_set(v.push(w)) == word_set(v).insert(w@),
{
    let a = strings_view(v);
    assert(strings_view(v.push(w)) =~= a.push(w@));
    assert forall|x: Seq<char>| a.push(w@).contains(x) <==> a.to_set().insert(w@).contains(x) by {
        if a.push(w@).contains(x) {
            let k = choose|k: int| 0 <= k < a.len() + 1 && a.push(w@)[k] == x;
            if k < a.len() {
                assert(a[k] == x);
            }
        }
        if a.contains(x) {
            let k = choose|k: int| 0 <= k < a.len() && a[k] == x;
            assert(a.push(w@)[k] == x);
        }
        if x == w@ {
            assert(a.push(w@)[a.len() as int] == x);
        }
    }
    assert(word_set(v.push(w)) =~= word_set(v).insert(w@));
}

/// Adds every word of `items` to the set of words held in `words`.
pub fn insert_words(words: &mut Vec<String>, items: &Vec<String>)
    requires
        distinct_words(old(words)@),
    ensures
        distinct_words(final(words)@),
        word_set(final(words)@) == word_set(old(words)@) + word_set(items@),
{
    let ghost start = words@;
    let n = items.len();
    let mut j: usize = 0;
    while j < n
        invariant
            n == items.len(),
            0 <= j <= n,
            distinct_words(words@),
            word_set(words@) == word_set(start) + word_set(items@.take(j as int)),
        decreases n - j,
    {
        let w = items[j].clone();
        insert_word(words, w);
        proof {
            assert(items@.take(j + 1) =~= items@.take(j as int).push(items@[j as int]));
            lemma_word_set_push(items@.take(j as int), items@[j as int]);
            assert(word_set(words@) =~= word_set(start) + word_set(items@.take(j + 1)));
        }
        j = j + 1;
    }
    assert(items@.take(n as int) =~= items@);
}

/// Scans `s` for runs of word characters.
pub fn scan_for_words_from_reader(s: &str) -> (r: ScanForWordsResult)
    ensures
        scan_result_matches(s@, word_mask(s@), r),
{
    let mask = word_mask_of(s);
    scan_masked(s, &mask)
}

/// The set of words of `s`; `None` when `s` is empty.
pub fn scan_for_unique_words(s: &str) -> (r: Option<Vec<String>>)
    ensures
        s@.len() == 0 <==> r is None,
        r matches Some(w) ==> distinct_words(w@) && word_set(w@) == tokens(s@),
{
    if s.is_empty() {
        return None;
    }
    let mask = word_mask_of(s);
    let scanned = scan_masked(s, &mask);
    let ghost st = scan_runs(empty_state(), s@, mask@);
    let mut words: Vec<String> = Vec::new();
    match scanned {
        ScanForWordsResult::NoWords => {
            proof {
                lemma_scan_chunk(empty_state(), s@, mask@);
                assert(word_set(words@) =~= tokens(s@));
            }
        },
        ScanForWordsResult::SingleAlphanumericRun => {
            proof {
                lemma_scan_chunk(empty_state(), s@, mask@);
                assert(Seq::<char>::empty() + s@ =~= s@);
            }
            insert_word(&mut words, s.to_owned());
            proof {
                assert(word_set(words@) =~= tokens(s@));
            }
        },
        ScanForWordsResult::Words(w) => {
            insert_words(&mut words, &w.words);
            match w.trailing_run {
                Some(t) => insert_word(&mut words, t),
                None => {},
            }
            proof {
                assert(word_set(words@) =~= tokens(s@));
            }
        },
    }
    Some(words)
}


proof fn lemma_to_set_add<A>(a: Seq<A>, b: Seq<A>)
    ensures
        (a + b).to_set() == a.to_set() + b.to_set(),
{
    assert forall|x: A| (a + b).to_set().contains(x) <==> (a.to_set() + b.to_set()).contains(x) by {
        if (a + b).contains(x) {
            let k = choose|k: int| 0 <= k < (a + b).len() && (a + b)[k] == x;
            if k < a.len() {
                assert(a[k] == x);
            } else {
                assert(b[k - a.len()] == x);
            }
        }
        if a.contains(x) {
            let k = choose|k: int| 0 <= k < a.len() && a[k] == x;
            assert((a + b)[k] == x);
        }
        if b.contains(x) {
            let k = choose|k: int| 0 <= k < b.len() && b[k] == x;
            assert((a + b)[k + a.len()] == x);
        }
    }
    assert((a + b).to_set() =~= a.to_set() + b.to_set());
}

/// The scanning state after the text `t`.
pub open spec fn text_state(t: Seq<char>) -> RunState {
    scan_runs(empty_state(), t, word_mask(t))
}

proof fn lemma_text_state_append(t: Seq<char>, c: Seq<char>)
    ensures
        text_state(t + c) == scan_runs(text_state(t), c, word_mask(c)),
{
    assert(word_mask(t + c) =~= word_mask(t) + word_mask(c));
    lemma_scan_concat(empty_state(), t, word_mask(t), c, word_mask(c));
}

/// `words` and `pending` hold the words of state `st`: the completed runs as a set,
/// and the open run, if any.
pub open spec fn holds_state(words: Seq<String>, pending: Option<String>, st: RunState) -> bool {
    &&& distinct_words(words)
    &&& word_set(words) == st.0.to_set()
    &&& match pending {
        Some(p) => st.1.len() > 0 && p@ == st.1,
        None => st.1.len() == 0,
    }
}

/// Takes in one decoded chunk of text, carrying an unfinished word across chunks.
fn absorb_chunk(words: &mut Vec<String>, pending: &mut Option<String>, text: &str, Ghost(st): Ghost<RunState>)
    requires
        holds_state(old(words)@, *old(pending), st),
    ensures
        holds_state(final(words)@, *final(pending), scan_runs(st, text@, word_mask(text@))),
{
    if text.is_empty() {
        return;
    }
    let ghost m = word_mask(text@);
    let ghost sc = scan_runs(empty_state(), text@, m);
    proof {
        lemma_scan_chunk(st, text@, m);
    }
    match scan_for_words_from_reader(text) {
        ScanForWordsResult::NoWords => {
            match pending.take() {
                Some(p) => {
                    insert_word(words, p);
                    proof {
                        lemma_to_set_add(st.0, closed_run(st.1));
                        assert(closed_run(st.1).to_set() =~= set![st.1]) by {
                            assert(closed_run(st.1)[0] == st.1);
                        }
                        assert(word_set(words@) =~= (st.0 + closed_run(st.1)).to_set());
                    }
                },
                None => {
                    proof {
                        assert(st.0 + closed_run(st.1) =~= st.0);
                    }
                },
            }
        },
        ScanForWordsResult::SingleAlphanumericRun => {
            let joined = match pending.take() {
                Some(p) => p.concat(text),
                None => {
                    proof {
                        assert(st.1 + text@ =~= text@);
                    }
                    text.to_owned()
                },
            };
            *pending = Some(joined);
        },
        ScanForWordsResult::Words(w) => {
            let WordsWithAlphanumericRuns { words: found, leading_run, trailing_run } = w;
            let mut emitted = found;
            match pending.take() {
                Some(p) => {
                    if leading_run {
                        let first = emitted.remove(0);
                        let merged = p.concat(first.as_str());
                        emitted.insert(0, merged);
                        proof {
                            assert(strings_view(emitted@) =~= joined_runs(st.1, sc.0, m[0]));
                        }
                    } else {
                        emitted.insert(0, p);
                        proof {
                            assert(strings_view(emitted@) =~= joined_runs(st.1, sc.0, m[0]));
                        }
                    }
                },
                None => {
                    proof {
                        assert(strings_view(emitted@) =~= joined_runs(st.1, sc.0, m[0]));
                    }
                },
            }
            insert_words(words, &emitted);
            *pending = trailing_run;
            proof {
                lemma_to_set_add(st.0, joined_runs(st.1, sc.0, m[0]));
            }
        },
    }
}

/// Why a byte stream could not be split into words.
#[derive(Clone, Copy, Debug, PartialEq, Eq, Structural)]
pub enum TokenizeError {
    /// The bytes hold a sequence that is not UTF-8, whatever might follow it.
    InvalidUtf8,
    /// The bytes end inside a multi-byte character.
    UnexpectedEnd,
}

/// A tokenizer fed a byte stream chunk by chunk, in memory bounded by the words found
/// plus a constant: it keeps at most three bytes of an unfinished character and the
/// unfinished word at the end of what it has read.
pub struct WordStream {
    words: Vec<String>,
    pending: Option<String>,
    carry: Vec<u8>,
    failed: bool,
    consumed: Ghost<Seq<u8>>,
    decoded: Ghost<Seq<u8>>,
}

impl WordStream {
    /// Every byte fed to the stream so far, in order.
    pub closed spec fn consumed(&self) -> Seq<u8> {
        self.consumed@
    }

    pub closed spec fn wf(&self) -> bool {
        if self.failed {
            forall|x: Seq<u8>| !valid_utf8(#[trigger] (self.consumed@ + x))
        } else {
            &&& self.consumed@ == self.decoded@ + self.carry@
            &&& valid_utf8(self.decoded@)
            &&& self.carry@.len() <= 3
            &&& self.carry@.len() > 0 ==> !valid_utf8(self.carry@)
            &&& holds_state(self.words@, self.pending, text_state(decode_utf8(self.decoded@)))
        }
    }

    pub fn new() -> (r: WordStream)
        ensures
            r.wf(),
            r.consumed() == Seq::<u8>::empty(),
    {
        let r = WordStream {
            words: Vec::new(),
            pending: None,
            carry: Vec::new(),
            failed: false,
            consumed: Ghost(Seq::empty()),
            decoded: Ghost(Seq::empty()),
        };
        proof {
            assert(r.decoded@ + r.carry@ =~= r.consumed@);
            assert(decode_utf8(Seq::<u8>::empty()) =~= Seq::<char>::empty());
            assert(word_set(r.words@) =~= Set::<Seq<char>>::empty());
            assert(text_state(Seq::<char>::empty()) == empty_state());
            assert(Seq::<Seq<char>>::empty().to_set() =~= Set::<Seq<char>>::empty());
            assert(strings_view(r.words@) =~= Seq::<Seq<char>>::empty());
            assert(distinct_words(r.words@));
        }
        r
    }

    /// Reads the next chunk of the stream.
    ///
    /// Fails, and stays failed, once the bytes read hold a sequence that no further
    /// bytes can make valid UTF-8.
    pub fn feed(&mut self, bytes: &[u8]) -> (r: Result<(), TokenizeError>)
        requires
            old(self).wf(),
        ensures
            final(self).wf(),
            final(self).consumed() == old(self).consumed() + bytes@,
            r is Err ==> forall|x: Seq<u8>| !valid_utf8(#[trigger] (final(self).consumed() + x)),
            valid_utf8(final(self).consumed()) ==> r is Ok,
    {
        let ghost before = self.consumed@;
        self.consumed = Ghost(self.consumed@ + bytes@);
        if self.failed {
            proof {
                assert forall|x: Seq<u8>| !valid_utf8(#[trigger] (self.consumed@ + x)) by {
                    assert(self.consumed@ + x =~= before + (bytes@ + x));
                }
            }
            return Err(TokenizeError::InvalidUtf8);
        }
        let mut buf: Vec<u8> = Vec::new();
        std::mem::swap(&mut buf, &mut self.carry);
        let ghost carried = buf@;
        let n = bytes.len();
        let mut i: usize = 0;
        while i < n
            invariant
                n == bytes@.len(),
                0 <= i <= n,
                buf@ == carried + bytes@.take(i as int),
            decreases n - i,
        {
            buf.push(bytes[i]);
            proof {
                assert(carried + bytes@.take(i + 1) =~= (carried + bytes@.take(i as int)).push(bytes@[i as int]));
            }
            i = i + 1;
        }
        proof {
            assert(bytes@.take(n as int) =~= bytes@);
            assert(self.consumed@ =~= self.decoded@ + buf@);
        }
        let ghost d = self.decoded@;
        match bytes_to_str(buf.as_slice()) {
            Err(()) => {
                self.failed = true;
                proof {
                    assert forall|x: Seq<u8>| !valid_utf8(#[trigger] (self.consumed@ + x)) by {
                        assert(self.consumed@ + x =~= d + (buf@ + x));
                        lemma_utf8_append(d, buf@ + x);
                    }
                    assert(self.consumed@ + Seq::<u8>::empty() =~= self.consumed@);
                }
                Err(TokenizeError::InvalidUtf8)
            },
            Ok((text, left)) => {
                let v: usize = match left {
                    Some(k) => buf.len() - k,
                    None => buf.len(),
                };
                let ghost piece = buf@.take(v as int);
                proof {
                    lemma_utf8_append(d, piece);
                    lemma_text_state_append(decode_utf8(d), text@);
                }
                absorb_chunk(&mut self.words, &mut self.pending, text, Ghost(text_state(decode_utf8(d))));
                let ghost whole = buf@;
                let rest = buf.split_off(v);
                self.carry = rest;
                self.decoded = Ghost(d + piece);
                proof {
                    assert(whole =~= piece + self.carry@);
                    assert(self.consumed@ =~= self.decoded@ + self.carry@);
                    if valid_utf8(self.consumed@) {
                        lemma_utf8_append(self.decoded@, self.carry@);
                    }
                }
                Ok(())
            },
        }
    }

    /// Ends the stream and returns its words.
    pub fn finish(self) -> (r: Result<Vec<String>, TokenizeError>)
        requires
            self.wf(),
        ensures
            r is Ok <==> valid_utf8(self.consumed()),
            r matches Ok(w) ==> distinct_words(w@) && word_set(w@) == tokens(decode_utf8(self.consumed())),
            r matches Err(e) ==> (e is InvalidUtf8 ==> forall|x: Seq<u8>| !valid_utf8(#[trigger] (self.consumed() + x))),
    {
        if self.failed {
            proof {
                assert(self.consumed@ + Seq::<u8>::empty() =~= self.consumed@);
            }
            return Err(TokenizeError::InvalidUtf8);
        }
        if self.carry.len() > 0 {
            proof {
                lemma_utf8_append(self.decoded@, self.carry@);
            }
            return Err(TokenizeError::UnexpectedEnd);
        }
        let WordStream { mut words, pending, consumed, decoded, .. } = self;
        proof {
            assert(consumed@ =~= decoded@);
        }
        let ghost st = text_state(decode_utf8(decoded@));
        match pending {
            Some(p) => {
                insert_word(&mut words, p);
            },
            None => {},
        }
        proof {
            assert(word_set(words@) =~= state_words(st));
        }
        Ok(words)
    }
}

/// The size of the buffer through which `reader_to_words` reads its input.
pub const READ_BUFFER_SIZE: usize = 264;

/// The set of words in the UTF-8 text `bytes`, read through a fixed-size buffer.
pub fn reader_to_words(bytes: &[u8]) -> (r: Result<Vec<String>, TokenizeError>)
    ensures
        r is Ok <==> valid_utf8(bytes@),
        r matches Ok(w) ==> distinct_words(w@) && word_set(w@) == tokens(decode_utf8(bytes@)),
{
    let mut stream = WordStream::new();
    let n = bytes.len();
    let mut pos: usize = 0;
    while pos < n
        invariant
            n == bytes@.len(),
            0 <= pos <= n,
            stream.wf(),
            stream.consumed() == bytes@.take(pos as int),
        decreases n - pos,
    {
        let end = if n - pos > READ_BUFFER_SIZE { pos + READ_BUFFER_SIZE } else { n };
        let chunk = vstd::slice::slice_subrange(bytes, pos, end);
        let res = stream.feed(chunk);
        proof {
            assert(bytes@.take(pos as int) + chunk@ =~= bytes@.take(end as int));
        }
        match res {
            Err(e) => {
                proof {
                    assert(bytes@ =~= bytes@.take(end as int) + bytes@.skip(end as int));
                }
                return Err(e);
            },
            Ok(()) => {},
        }
        pos = end;
    }
    proof {
        assert(bytes@.take(n as int) =~= bytes@);
    }
    stream.finish()
}


/// Tokenizing the UTF-8 encoding of a text gives the tokens of the text itself: the
/// streaming tokenizer and the in-memory scan agree on every valid input.
pub proof fn law_stream_matches_in_memory(s: Seq<char>)
    ensures
        valid_utf8(encode_utf8(s)),
        tokens(decode_utf8(encode_utf8(s))) == tokens(s),
{
    encode_utf8_valid_utf8(s);
    encode_utf8_decode_utf8(s);
}

/// Every run recorded in `st` is a non-empty string of word characters, and every word
/// character of `s` lies in one of them.
pub open spec fn runs_cover(st: RunState, s: Seq<char>) -> bool {
    &&& forall|k: int| 0 <= k < st.0.len() ==> #[trigger] st.0[k].len() > 0
    &&& forall|k: int, i: int| 0 <= k < st.0.len() && 0 <= i < st.0[k].len() ==> word_char(#[trigger] st.0[k][i])
    &&& forall|i: int| 0 <= i < st.1.len() ==> word_char(#[trigger] st.1[i])
    &&& forall|i: int| 0 <= i < s.len() && word_char(#[trigger] s[i]) ==> st.1.contains(s[i]) || exists|k: int| 0 <= k < st.0.len() && #[trigger] st.0[k].contains(s[i])
}

proof fn lemma_runs_cover(s: Seq<char>)
    ensures
        runs_cover(text_state(s), s),
    decreases s.len(),
{
    if s.len() > 0 {
        let p = s.drop_last();
        let c = s.last();
        lemma_runs_cover(p);
        assert(word_mask(s).drop_last() =~= word_mask(p));
        let st = text_state(p);
        let st2 = text_state(s);
        assert(st2 == scan_step(st, c, word_char(c)));
        assert forall|i: int| 0 <= i < s.len() && word_char(#[trigger] s[i]) implies st2.1.contains(s[i]) || exists|k: int| 0 <= k < st2.0.len() && #[trigger] st2.0[k].contains(s[i]) by {
            if i == s.len() - 1 {
                if word_char(c) {
                    assert(st2.1[st2.1.len() - 1] == c);
                }
            } else {
                assert(p[i] == s[i]);
                if st.1.contains(s[i]) {
                    let j = choose|j: int| 0 <= j < st.1.len() && st.1[j] == s[i];
                    if word_char(c) {
                        assert(st2.1[j] == s[i]);
                    } else {
                        assert(st2.0[st.0.len() as int] == st.1);
                        assert(st2.0[st.0.len() as int].contains(s[i]));
                    }
                } else {
                    let k = choose|k: int| 0 <= k < st.0.len() && #[trigger] st.0[k].contains(s[i]);
                    assert(st2.0[k] == st.0[k]);
                }
            }
        }
        assert forall|k: int, i: int| 0 <= k < st2.0.len() && 0 <= i < st2.0[k].len() implies word_char(#[trigger] st2.0[k][i]) by {
            if k < st.0.len() {
                assert(st2.0[k] == st.0[k]);
            } else {
                assert(st2.0[k] == st.1);
            }
        }
        assert forall|k: int| 0 <= k < st2.0.len() implies #[trigger] st2.0[k].len() > 0 by {
            if k < st.0.len() {
                assert(st2.0[k] == st.0[k]);
            }
        }
        assert forall|i: int| 0 <= i < st2.1.len() implies word_char(#[trigger] st2.1[i]) by {
            if i < st.1.len() {
                assert(st2.1[i] == st.1[i]);
            }
        }
    }
}

/// A character lies in a token exactly when it is a word character: every token is a
/// non-empty string of word characters, and every word character of the text lies in a
/// token.
pub proof fn law_token_characters(s: Seq<char>)
    ensures
        forall|t: Seq<char>| #[trigger] tokens(s).contains(t) ==> t.len() > 0 && forall|i: int| 0 <= i < t.len() ==> word_char(#[trigger] t[i]),
        forall|i: int| 0 <= i < s.len() && word_char(#[trigger] s[i]) ==> exists|t: Seq<char>| #[trigger] tokens(s).contains(t) && t.contains(s[i]),
{
    lemma_runs_cover(s);
    let st = text_state(s);
    assert forall|t: Seq<char>| #[trigger] tokens(s).contains(t) implies t.len() > 0 && forall|i: int| 0 <= i < t.len() ==> word_char(#[trigger] t[i]) by {
        if st.0.contains(t) {
            let k = choose|k: int| 0 <= k < st.0.len() && st.0[k] == t;
            assert(st.0[k].len() > 0);
            assert forall|i: int| 0 <= i < t.len() implies word_char(#[trigger] t[i]) by {
                assert(st.0[k][i] == t[i]);
            }
        }
    }
    assert forall|i: int| 0 <= i < s.len() && word_char(#[trigger] s[i]) implies exists|t: Seq<char>| #[trigger] tokens(s).contains(t) && t.contains(s[i]) by {
        if st.1.contains(s[i]) {
            assert(tokens(s).contains(st.1));
        } else {
            let k = choose|k: int| 0 <= k < st.0.len() && #[trigger] st.0[k].contains(s[i]);
            assert(st.0.contains(st.0[k]));
            assert(tokens(s).contains(st.0[k]));
        }
    }
}

} // verus!
