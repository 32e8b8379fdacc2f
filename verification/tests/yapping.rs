use owo_bot::yapping::{
    add_ngrams, babble, corpus_well_formed, generate, has_starting_ngram, process, walk_step, yapping, YapError,
};

#[test]
fn learning_appends_lowercased_ngrams() {
    let out = process("Hi there", "").unwrap();
    assert_eq!(out, "Bhi tShi thSi theS therSthereShereE");
}

#[test]
fn learning_appends_after_a_separator() {
    let out = process("abcd", "xyzzy").unwrap();
    assert_eq!(out, "xyzzySBabcdSabcdE");
}

#[test]
fn short_text_is_not_learnt() {
    assert_eq!(process("abc", "xyzzy"), None);
}

#[test]
fn full_corpus_is_not_extended() {
    let big = "a".repeat(100_001);
    assert_eq!(process("hello there", &big), None);
    let limit = "a".repeat(100_000);
    assert!(process("hello there", &limit).is_some());
}

#[test]
fn babble_follows_the_only_path() {
    let (text, rest) = generate("Bhi tShi thSi theS therSthereShereE");
    assert_eq!(text, "hi there :3");
    assert_eq!(rest, "");
}

#[test]
fn babble_stops_without_continuation_and_keeps_unused_ngrams() {
    let (text, rest) = generate("Bab cSxyzzy");
    assert_eq!(text, "ab c :3");
    assert_eq!(rest, "xyzzy");
}

#[test]
fn babble_drops_the_end_mark_of_a_finished_reply() {
    let (text, rest) = generate("BabcE");
    assert_eq!(text, "abc :3");
    assert_eq!(rest, "");
}

#[test]
fn babble_needs_a_starting_ngram() {
    assert_eq!(babble("abcdeSfghij"), Err(YapError::NoStartingTriplet));
    assert_eq!(babble(""), Err(YapError::NoStartingTriplet));
    assert!(!has_starting_ngram("abcdeSfghij"));
    assert!(!has_starting_ngram(""));
    assert!(has_starting_ngram("xyzzySBab"));
}

#[test]
fn babble_picks_among_continuations() {
    let (text, _) = generate("BabcdSabcdxSabcdy");
    assert!(text == "abcdx :3" || text == "abcdy :3");
}

#[test]
fn well_formed_corpus() {
    assert!(corpus_well_formed("BabcdSabcdE"));
    assert!(corpus_well_formed(""));
    assert!(!corpus_well_formed("abcd"));
    assert!(!corpus_well_formed("abcdefSBabcd"));
    assert!(corpus_well_formed("Babcdef"));
    assert!(corpus_well_formed("BabcdefghSabSxyzzy"));
    assert!(!corpus_well_formed("BBBBBBSBBBBBBB"));
    assert!(corpus_well_formed("aBcde"));
    assert!(corpus_well_formed("BabcdSxBxyz"));
    assert!(corpus_well_formed("BBBBBSBBBBB"));
    assert!(!corpus_well_formed("BabcdeB"));
    assert!(!corpus_well_formed("BaaaaSaaaaaa"));
}

#[test]
fn babble_starts_from_a_long_starting_ngram() {
    let (text, rest) = generate("Babcdef");
    assert_eq!(text, "abcdef :3");
    assert_eq!(rest, "");
}

#[test]
fn yapping_babbles_over_a_long_starting_ngram() {
    let (learnt, reply) = yapping("ab", "Babcdef");
    assert_eq!(learnt, None);
    assert_eq!(reply, Ok(("abcdef :3".to_string(), String::new())));
}

#[test]
fn yapping_refuses_a_corpus_that_could_babble_forever() {
    let (_, reply) = yapping("ab", "BBBBBBSBBBBBBB");
    assert_eq!(reply, Err(YapError::MalformedCorpus));
}

#[test]
fn yapping_learns_then_babbles() {
    let (learnt, reply) = yapping("Hi there", "");
    assert_eq!(learnt.as_deref(), Some("Bhi tShi thSi theS therSthereShereE"));
    assert_eq!(reply, Ok(("hi there :3".to_string(), String::new())));
}

#[test]
fn yapping_refuses_a_malformed_corpus() {
    let (learnt, reply) = yapping("ab", "abcd");
    assert_eq!(learnt, None);
    assert_eq!(reply, Err(YapError::MalformedCorpus));
}

fn chars(s: &str) -> Vec<char> {
    s.chars().collect()
}

#[test]
fn walk_step_moves_the_pick_into_the_reply() {
    let mut reply = chars("Babcd");
    let mut pool = vec![chars("abcde"), chars("abcdx"), chars("bcdex"), chars("abcde")];
    assert!(!walk_step(&mut reply, &mut pool, 'e'));
    assert_eq!(reply, chars("Babcde"));
    assert_eq!(pool, vec![chars("abcdx"), chars("bcdex")]);
}

#[test]
fn walk_step_on_the_end_mark_finishes() {
    let mut reply = chars("Bab");
    let mut pool = vec![chars("BabE"), chars("xyzzy")];
    assert!(walk_step(&mut reply, &mut pool, 'E'));
    assert_eq!(reply, chars("Bab"));
    assert_eq!(pool, vec![chars("xyzzy")]);
}

#[test]
fn ngrams_of_a_lowercased_text() {
    assert_eq!(add_ngrams("hi there", ""), "Bhi tShi thSi theS therSthereShereE");
    assert_eq!(add_ngrams("abc", "xyzzy"), "xyzzySBabcE");
    assert_eq!(add_ngrams("ab", "xyzzy"), "xyzzy");
    assert_eq!(add_ngrams("ab", ""), "");
}

#[test]
fn learnt_segments_have_five_characters_and_one_of_each_mark() {
    let out = process("Hello World", "xyzzySabcde").unwrap();
    let segments: Vec<&str> = out.split('S').collect();
    assert!(segments.iter().all(|p| p.chars().count() == 5));
    let added = &segments[2..];
    assert_eq!(added.iter().filter(|p| p.starts_with('B')).count(), 1);
    assert!(added[0].starts_with('B'));
    assert_eq!(added.iter().filter(|p| p.ends_with('E')).count(), 1);
    assert!(added[added.len() - 1].ends_with('E'));
}

#[test]
fn a_learnt_text_is_babbled_back() {
    let (learnt, reply) = yapping("Hello World!", "");
    assert!(learnt.is_some());
    assert_eq!(reply, Ok(("hello world! :3".to_string(), String::new())));
}

#[test]
fn learning_keeps_the_corpus_well_formed() {
    let corpus = process("Hello World", "xyzzySabSBabcdefg").unwrap();
    assert!(corpus_well_formed(&corpus));
    assert!(babble(&corpus).is_ok());
}

#[test]
fn five_character_ngrams_with_a_begin_mark_inside_are_babbled_over() {
    assert_eq!(babble("BabcdSxBxyz"), Ok(("abcd :3".to_string(), "xBxyz".to_string())));
    let (learnt, reply) = yapping("", "BabcdSxBxyz");
    assert_eq!(learnt, None);
    assert_eq!(reply, Ok(("abcd :3".to_string(), "xBxyz".to_string())));
}

#[test]
fn a_walk_through_inner_begin_marks_ends() {
    let out = generate("BBBBBSBBBBBSBBBBE");
    assert!(
        out == ("BBBB :3".to_string(), String::new())
            || out == ("BBB :3".to_string(), "BBBBBSBBBBB".to_string())
    );
}

#[test]
fn a_long_starting_ngram_ending_in_the_begin_mark_is_refused() {
    assert_eq!(babble("BBBBBBSBBBBBBB"), Err(YapError::MalformedCorpus));
    assert_eq!(babble("BaaaaSaaaaaa"), Err(YapError::MalformedCorpus));
}
