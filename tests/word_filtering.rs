use std::collections::HashSet;

use parallel_computing::word_filtering::{
    is_word_char, reader_to_words, scan_for_unique_words, scan_for_words_from_reader,
    ScanForWordsResult, TokenizeError, WordStream, WordsWithAlphanumericRuns,
};

fn to_set(words: &[&str]) -> HashSet<String> {
    words.iter().map(|s| s.to_string()).collect()
}

fn owned(words: &[&str]) -> Vec<String> {
    words.iter().map(|s| s.to_string()).collect()
}

fn stream_in_chunks(bytes: &[u8], chunk: usize) -> Result<HashSet<String>, TokenizeError> {
    let mut stream = WordStream::new();
    for piece in bytes.chunks(chunk) {
        stream.feed(piece)?;
    }
    stream.finish().map(|w| w.into_iter().collect())
}

fn same_scan(actual: &ScanForWordsResult, expected: &ScanForWordsResult) -> bool {
    match (actual, expected) {
        (ScanForWordsResult::NoWords, ScanForWordsResult::NoWords) => true,
        (ScanForWordsResult::SingleAlphanumericRun, ScanForWordsResult::SingleAlphanumericRun) => true,
        (ScanForWordsResult::Words(a), ScanForWordsResult::Words(b)) => {
            a.words == b.words && a.leading_run == b.leading_run && a.trailing_run == b.trailing_run
        }
        _ => false,
    }
}

fn words_result(words: &[&str], leading_run: bool, trailing_run: Option<&str>) -> ScanForWordsResult {
    ScanForWordsResult::Words(WordsWithAlphanumericRuns {
        words: owned(words),
        leading_run,
        trailing_run: trailing_run.map(|s| s.to_string()),
    })
}

#[test]
fn test_reader_to_words() {
    let cases: Vec<(&str, Vec<&str>)> = vec![
        (
            "Yah. I know. It has the name \"Sinatra\" in the title, so how bad can it be? Well, it's bad, trust me! I rented this thinking it was some movie I missed in the theaters. It's not. It's some garbage \"movie\" made by the folks at Showtime (cable station). Geez, these cable stations make a few bucks they think they can make whatever garbage movies they want! It's not good. I am as big a Sinatra fan as any sane man, but this movie was just dumb. Boring. Dull. Unfunny. Uninteresting. The only redeeming quality is that (assuming they did stick to the facts) you do learn about what happened to the captors of Frank Jr. Otherwise it's just a stupid film.",
            vec!["in", "can", "they", "did", "Boring", "movies", "Sinatra", "was", "sane", "but", "has", "assuming", "fan", "Well", "stick", "learn", "thinking", "so", "movie", "me", "quality", "that", "think", "bucks", "stations", "any", "man", "It's", "about", "Frank", "It", "happened", "Jr", "made", "a", "the", "as", "do", "is", "film", "Yah", "of", "be", "you", "not", "missed", "redeeming", "I", "it", "by", "at", "Geez", "few", "The", "title", "it's", "some", "Uninteresting", "only", "good", "am", "folks", "how", "facts", "name", "stupid", "this", "dumb", "know", "bad", "theaters", "whatever", "just", "what", "big", "garbage", "these", "captors", "to", "cable", "Showtime", "trust", "Unfunny", "rented", "Otherwise", "station", "Dull", "want", "make"],
        ),
        (
            "I cannot understand...Simbu does not have any originality. ..He acts and copies Rajini's style, then copies Kamal's style .. then copies Vijay's style and then last but not least copies his dad's style. Does it mean he is more like a mimicry hero. ..who has no originality and just copies everyone...He wants to be like everyone and never wants to be like Simbu.....It is so annoying and boring to see the same crap. .. If the same portrait of Rajini, Kamal and Vijay are going to be always there, why see a dummy instead of a real one. Maybe Simbu should accept himself and act his own style instead of having no originality and copying everyone.<br /><br />Renu",
            vec!["his", "He", "acts", "but", "instead", "then", "wants", "portrait", "always", "any", "is", "originality", "mimicry", "not", "boring", "never", "why", "should", "accept", "himself", "annoying", "style", "the", "crap", "mean", "it", "no", "copies", "Does", "Rajini", "understand", "cannot", "Vijay\'s", "has", "are", "last", "Kamal\'s", "and", "hero", "does", "Kamal", "real", "Rajini\'s", "going", "he", "see", "same", "Renu", "having", "dummy", "Maybe", "a", "Simbu", "dad\'s", "like", "one", "just", "br", "to", "copying", "Vijay", "more", "everyone", "have", "It", "If", "least", "be", "act", "own", "so", "I", "of", "there", "who"],
        ),
        (
            "Wow!I am quite disappointed that this could not compete with his recent sh*t called 'Kaalai'(The Bull-It was even more pathetic) Vallavan-has no story,screenplay and direction.It only has a good original score by Yuvan Shankar Raja.If he hadn't been there,the movie would have fallen flat.Even when he is there the movie still falls flat.<br /><br />A youngster falls in love with a girl 3 years older than him,and thinks its no mistake.He even has sex with her.After knowing that he is a young boy the girl gets annoyed and refuses to marry him.Now another female who had a crush on this guy in high school enters and kidnaps a friend of this guy.How he convinces the older girl and marries her,deceiving the crush is the story.Okay,we can't call this a story but unfortunately this is what we have as a story.Now there is cheap and vulgar scenes which is more or less pornography,comedy which makes you weep,acting which makes you puke and horrifying punch dialogues to stab you over and over.Simbu is there to give you goosebumps!I wish I could rate this movie in minus infinity,sadly IMDb allows me rate 1 star as the lowest.<br /><br />Are you nuts?Are you a dumbo?Are you a bozo?Watch this movie.(I did because some nutcases recommended me this movie) <br /><br />Watch a tom and jerry episode,funny videos or even old photo albums.Try to miss this movie by all means.Otherwise you will repent on doing a life-time mistake.",
            vec!["nutcases", "episode", "but", "jerry", "enters", "did", "some", "tom", "crush", "would", "Bull", "marry", "only", "call", "lowest", "gets", "am", "goosebumps", "was", "star", "which", "time", "had", "dumbo", "annoyed", "youngster", "score", "less", "direction", "boy", "story", "3", "high", "scenes", "called", "minus", "deceiving", "If", "have", "vulgar", "of", "IMDb", "means", "who", "years", "been", "albums", "will", "refuses", "videos", "her", "me", "convinces", "movie", "school", "doing", "mistake", "flat", "1", "young", "disappointed", "over", "compete", "or", "sadly", "photo", "recent", "stab", "makes", "t", "still", "falls", "puke", "rate", "to", "It", "Yuvan", "Shankar", "in", "friend", "pathetic", "I", "even", "there", "this", "A", "dialogues", "punch", "weep", "is", "marries", "pornography", "wish", "girl", "can\'t", "Wow", "hadn\'t", "another", "\'Kaalai\'", "Otherwise", "repent", "has", "screenplay", "and", "cheap", "quite", "with", "allows", "Even", "he", "we", "infinity", "fallen", "old", "a", "its", "Simbu", "After", "comedy", "thinks", "sex", "older", "horrifying", "Are", "recommended", "Watch", "his", "when", "knowing", "He", "funny", "life", "original", "than", "guy", "love", "him", "not", "by", "good", "kidnaps", "the", "unfortunately", "Okay", "no", "Try", "Vallavan", "as", "all", "what", "Now", "because", "could", "you", "acting", "on", "nuts", "sh", "Raja", "How", "br", "female", "that", "more", "The", "give", "miss", "bozo"],
        ),
        (
            "oh god..please save the people who has seen this \"comical acting, fatuous direction, futile story, insane dialogues,etc\" which gave a non-stop unbelievable maligning experience till the end..people watching this will go into an irrecoverable coma..it was an harrowing experience..<br /><br />the director-what is he trying to make, it looks as though he was completely out of his mind..the viewers will not condone this piece of work..unfortunately this movie has the same director, story-writer, and also the leading actor..at least this time the blame goes to single person..simbhu takes the sole responsibility for making life difficult for viewers..he has given importance in exposing extreme vulgarity..<br /><br />music-this is the only good thing about this movie..it has some good numbers and good background score..but it doesn\'t make this rubbish watchable..<br /><br />nayanthara and reemasen - i pity them both..i feel that they would have done much better for any other movie..they were doing skin show in this entire movie..reemasen\'s acting was terrible..nayanthara has and always done glamorous roles..she does it so as to hide her acting inabilities..<br /><br />bottom line-what more to say..if you want to be peaceful please avoid this like dog sh**..if you want to terrorize yourself you are most welcome to watch this A-hole at the highest level..<br /><br />actually i would like to give it zero on 10..<br /><br />but the rating is 1/10",
            vec!["peaceful", "condone", "but", "single", "some", "entire", "people", "viewers", "would", "only", "director", "much", "goes", "10", "responsibility", "watch", "mind", "other", "were", "importance", "insane", "completely", "was", "does", "which", "time", "pity", "dog", "unbelievable", "score", "rating", "direction", "story", "about", "blame", "have", "seen", "go", "background", "of", "sole", "better", "hide", "who", "welcome", "actually", "will", "making", "any", "her", "trying", "roles", "also", "an", "movie", "doing", "doesn\'t", "given", "reemasen", "1", "it", "exposing", "zero", "i", "into", "are", "she", "glamorous", "hole", "same", "piece", "extreme", "bottom", "god", "save", "maligning", "to", "out", "at", "please", "in", "dialogues", "this", "A", "avoid", "terrorize", "numbers", "simbhu", "is", "watchable", "till", "looks", "difficult", "make", "yourself", "comical", "level", "thing", "has", "and", "for", "if", "feel", "he", "experience", "show", "a", "work", "most", "nayanthara", "like", "gave", "least", "rubbish", "life", "his", "always", "say", "fatuous", "watching", "not", "harrowing", "vulgarity", "coma", "good", "leading", "non", "the", "stop", "futile", "unfortunately", "inabilities", "takes", "writer", "they", "oh", "as", "what", "line", "actor", "skin", "irrecoverable", "you", "want", "acting", "on", "terrible", "sh", "them", "br", "end", "done", "music", "that", "reemasen\'s", "more", "be", "give", "both", "etc", "though", "person", "so", "highest"],
        ),
    ];
    for (content, expected) in cases {
        let words = reader_to_words(content.as_bytes());
        assert!(words.is_ok(), "Result is not OK; case: {}", content);
        let words: HashSet<String> = words.unwrap().into_iter().collect();
        let expected: HashSet<String> = expected.iter().map(|s| s.to_string()).collect();
        assert_eq!(words, expected, "Word sets do not match; case: {}", content);
    }
}

#[test]
fn test_scan_words() {
    let cases: Vec<(&str, ScanForWordsResult)> = vec![
        (
            "アニャ likes peanuts, ワクワク!",
            words_result(&["アニャ", "likes", "peanuts", "ワクワク"], true, None),
        ),
        (
            "!アニャ likes peanuts, ワクワク!",
            words_result(&["アニャ", "likes", "peanuts", "ワクワク"], false, None),
        ),
        (
            "アニャ likes peanuts, ワクワク",
            words_result(&["アニャ", "likes", "peanuts"], true, Some("ワクワク")),
        ),
        ("ワクワク", ScanForWordsResult::SingleAlphanumericRun),
        ("!,==<>", ScanForWordsResult::NoWords),
        ("let's play!", words_result(&["let's", "play"], true, None)),
    ];
    for (string, expected) in cases {
        let res = scan_for_words_from_reader(string);
        assert!(same_scan(&res, &expected), "case `{}`", string);
    }
}

#[test]
fn scan_leading_non_word_then_open_run() {
    let res = scan_for_words_from_reader("!abc");
    assert!(same_scan(&res, &words_result(&[], false, Some("abc"))));
}

#[test]
fn scan_empty_chunk_has_no_words() {
    assert!(same_scan(&scan_for_words_from_reader(""), &ScanForWordsResult::NoWords));
}

#[test]
fn word_characters() {
    assert!(is_word_char('a'));
    assert!(is_word_char('Z'));
    assert!(is_word_char('7'));
    assert!(is_word_char('\''));
    assert!(is_word_char('ア'));
    assert!(is_word_char('é'));
    assert!(!is_word_char('!'));
    assert!(!is_word_char(' '));
    assert!(!is_word_char('-'));
    assert!(!is_word_char('*'));
}

#[test]
fn unique_words_of_query() {
    let words = scan_for_unique_words("Let's play, アニャ!").unwrap();
    let words: HashSet<String> = words.into_iter().collect();
    assert_eq!(words, to_set(&["Let's", "play", "アニャ"]));
}

#[test]
fn unique_words_collapse_repeats() {
    let words = scan_for_unique_words("go go go, stop").unwrap();
    assert_eq!(words.len(), 2);
    let words: HashSet<String> = words.into_iter().collect();
    assert_eq!(words, to_set(&["go", "stop"]));
}

#[test]
fn unique_words_of_empty_query() {
    assert!(scan_for_unique_words("").is_none());
    assert_eq!(scan_for_unique_words("?! ..").unwrap().len(), 0);
}

#[test]
fn stream_through_four_byte_buffer() {
    let text = "アニャ likes peanuts, ワクワク";
    let streamed = stream_in_chunks(text.as_bytes(), 4).unwrap();
    let whole = stream_in_chunks(text.as_bytes(), text.len()).unwrap();
    let in_memory: HashSet<String> = scan_for_unique_words(text).unwrap().into_iter().collect();
    assert_eq!(streamed, whole);
    assert_eq!(streamed, in_memory);
    assert_eq!(streamed, to_set(&["アニャ", "likes", "peanuts", "ワクワク"]));
}

#[test]
fn stream_every_chunk_size_agrees() {
    let text = "Let's play, アニャ! It's ワクワク time... don't stop";
    let expected: HashSet<String> = scan_for_unique_words(text).unwrap().into_iter().collect();
    for chunk in 1..=text.len() {
        assert_eq!(stream_in_chunks(text.as_bytes(), chunk).unwrap(), expected, "chunk size {}", chunk);
    }
}

#[test]
fn stream_word_ends_at_chunk_of_separators() {
    let mut stream = WordStream::new();
    stream.feed(b"abc").unwrap();
    stream.feed(b"!!!").unwrap();
    stream.feed(b"def").unwrap();
    let words: HashSet<String> = stream.finish().unwrap().into_iter().collect();
    assert_eq!(words, to_set(&["abc", "def"]));
}

#[test]
fn stream_empty_input() {
    assert_eq!(reader_to_words(b"").unwrap().len(), 0);
    assert_eq!(WordStream::new().finish().unwrap().len(), 0);
}

#[test]
fn stream_rejects_invalid_utf8() {
    assert_eq!(reader_to_words(b"abc \xff def"), Err(TokenizeError::InvalidUtf8));
    let mut stream = WordStream::new();
    assert_eq!(stream.feed(b"ok \xc3\x28"), Err(TokenizeError::InvalidUtf8));
    assert_eq!(stream.feed(b"more"), Err(TokenizeError::InvalidUtf8));
    assert_eq!(stream.finish(), Err(TokenizeError::InvalidUtf8));
}

#[test]
fn stream_rejects_truncated_character() {
    let bytes = "abc ア".as_bytes();
    let cut = &bytes[..bytes.len() - 1];
    assert_eq!(reader_to_words(cut), Err(TokenizeError::UnexpectedEnd));
}

#[test]
fn stream_long_input_crosses_buffers() {
    let mut text = String::new();
    for i in 0..200 {
        text.push_str(&format!("wörd{} ", i));
    }
    let words = reader_to_words(text.as_bytes()).unwrap();
    assert_eq!(words.len(), 200);
    let words: HashSet<String> = words.into_iter().collect();
    assert!(words.contains("wörd0"));
    assert!(words.contains("wörd199"));
}
