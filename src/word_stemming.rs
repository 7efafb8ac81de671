use vstd::prelude::*;

use crate::word_filtering::{distinct_words, insert_word, lemma_word_set_push, word_set};

verus! {

/// What `str::to_lowercase` makes of a string.
pub uninterp spec fn lowercase_of(s: Seq<char>) -> Seq<char>;

/// What `porter_stemmer::stem` makes of a word.
pub uninterp spec fn porter_stem_of(s: Seq<char>) -> Seq<char>;

/// Relies on `str::to_lowercase`: the result depends on the characters alone.
#[verifier::external_body]
fn to_lowercase(s: &str) -> (r: String)
    ensures
        r@ == lowercase_of(s@),
{
    s.to_lowercase()
}

/// Relies on `porter_stemmer::stem`, Porter's English stemming algorithm: the result
/// depends on the word alone.
#[verifier::external_body]
fn porter_stem(s: &str) -> (r: String)
    ensures
        r@ == porter_stem_of(s@),
{
    porter_stemmer::stem(s)
}

/// The stem of a word: the word lowercased, then reduced by Porter's algorithm.
pub open spec fn stem_of(w: Seq<char>) -> Seq<char> {
    porter_stem_of(lowercase_of(w))
}

/// The stems of a set of words; words that share a stem share it once.
pub open spec fn stems_of(words: Set<Seq<char>>) -> Set<Seq<char>> {
    words.map(|w: Seq<char>| stem_of(w))
}

pub fn word_to_stem(s: String) -> (r: String)
    ensures
        r@ == stem_of(s@),
{
    let lower = to_lowercase(s.as_str());
    porter_stem(lower.as_str())
}

/// The set of stems of `words`.
pub fn stem_words(words: &Vec<String>) -> (r: Vec<String>)
    ensures
        distinct_words(r@),
        word_set(r@) == stems_of(word_set(words@)),
{
    let mut r: Vec<String> = Vec::new();
    let n = words.len();
    let mut j: usize = 0;
    proof {
        assert(word_set(words@.take(0)) =~= Set::<Seq<char>>::empty());
        assert(word_set(r@) =~= Set::<Seq<char>>::empty());
        assert(stems_of(Set::<Seq<char>>::empty()) =~= Set::<Seq<char>>::empty());
    }
    while j < n
        invariant
            n == words.len(),
            0 <= j <= n,
            distinct_words(r@),
            word_set(r@) == stems_of(word_set(words@.take(j as int))),
        decreases n - j,
    {
        let stem = word_to_stem(words[j].clone());
        let ghost w = words@[j as int];
        insert_word(&mut r, stem);
        proof {
            assert(words@.take(j + 1) =~= words@.take(j as int).push(w));
            lemma_word_set_push(words@.take(j as int), w);
            let before = word_set(words@.take(j as int));
            assert(stems_of(before.insert(w@)) =~= stems_of(before).insert(stem_of(w@))) by {
                assert forall|x: Seq<char>| stems_of(before.insert(w@)).contains(x) implies stems_of(before).insert(stem_of(w@)).contains(x) by {
                    let y = choose|y: Seq<char>| before.insert(w@).contains(y) && stem_of(y) == x;
                    if y != w@ {
                        assert(before.contains(y));
                    }
                }
                assert forall|x: Seq<char>| stems_of(before).insert(stem_of(w@)).contains(x) implies stems_of(before.insert(w@)).contains(x) by {
                    if x == stem_of(w@) {
                        assert(before.insert(w@).contains(w@));
                    } else {
                        let y = choose|y: Seq<char>| before.contains(y) && stem_of(y) == x;
                        assert(before.insert(w@).contains(y));
                    }
                }
            }
        }
        j = j + 1;
    }
    proof {
        assert(words@.take(n as int) =~= words@);
    }
    r
}

} // verus!
