use transcript_text::correct::apply_custom_words;
use transcript_text::correct::extract_punctuation;
use transcript_text::correct::preserve_case_pattern;
use transcript_text::correct::Threshold;
use transcript_text::filter::collapse_stutters;
use transcript_text::filter::filter_transcription_output;

fn half() -> Threshold {
    Threshold { num: 1, den: 2 }
}

#[test]
fn test_apply_custom_words_exact_match() {
    let text = "hello world";
    let custom_words = vec!["Hello".to_string(), "World".to_string()];
    let result = apply_custom_words(text, &custom_words, half());
    assert_eq!(result, "Hello World");
}

#[test]
fn test_apply_custom_words_fuzzy_match() {
    let text = "helo wrold";
    let custom_words = vec!["hello".to_string(), "world".to_string()];
    let result = apply_custom_words(text, &custom_words, half());
    assert_eq!(result, "hello world");
}

#[test]
fn test_preserve_case_pattern() {
    assert_eq!(preserve_case_pattern("HELLO", "world"), "WORLD");
    assert_eq!(preserve_case_pattern("Hello", "world"), "World");
    assert_eq!(preserve_case_pattern("hello", "WORLD"), "WORLD");
}

#[test]
fn test_extract_punctuation() {
    assert_eq!(extract_punctuation("hello"), ("", ""));
    assert_eq!(extract_punctuation("!hello?"), ("!", "?"));
    assert_eq!(extract_punctuation("...hello..."), ("...", "..."));
}

#[test]
fn test_empty_custom_words() {
    let text = "hello world";
    let custom_words = vec![];
    let result = apply_custom_words(text, &custom_words, half());
    assert_eq!(result, "hello world");
}

#[test]
fn test_filter_filler_words() {
    let text = "So um I was thinking uh about this";
    let result = filter_transcription_output(text);
    assert_eq!(result, "So I was thinking about this");
}

#[test]
fn test_filter_filler_words_case_insensitive() {
    let text = "UM this is UH a test";
    let result = filter_transcription_output(text);
    assert_eq!(result, "this is a test");
}

#[test]
fn test_filter_filler_words_with_punctuation() {
    let text = "Well, um, I think, uh. that's right";
    let result = filter_transcription_output(text);
    assert_eq!(result, "Well, I think, that's right");
}

#[test]
fn test_filter_cleans_whitespace() {
    let text = "Hello    world   test";
    let result = filter_transcription_output(text);
    assert_eq!(result, "Hello world test");
}

#[test]
fn test_filter_trims() {
    let text = "  Hello world  ";
    let result = filter_transcription_output(text);
    assert_eq!(result, "Hello world");
}

#[test]
fn test_filter_combined() {
    let text = "  Um, so I was, uh, thinking about this  ";
    let result = filter_transcription_output(text);
    assert_eq!(result, "so I was, thinking about this");
}

#[test]
fn test_filter_preserves_valid_text() {
    let text = "This is a completely normal sentence.";
    let result = filter_transcription_output(text);
    assert_eq!(result, "This is a completely normal sentence.");
}

#[test]
fn test_filter_stutter_collapse() {
    let text = "w wh wh wh wh wh wh wh wh wh why";
    let result = filter_transcription_output(text);
    assert_eq!(result, "w wh why");
}

#[test]
fn test_filter_stutter_short_words() {
    let text = "I I I I think so so so so";
    let result = filter_transcription_output(text);
    assert_eq!(result, "I think so");
}

#[test]
fn test_filter_stutter_mixed_case() {
    let text = "No NO no NO no";
    let result = filter_transcription_output(text);
    assert_eq!(result, "No");
}

#[test]
fn test_filter_stutter_preserves_two_repetitions() {
    let text = "no no is fine";
    let result = filter_transcription_output(text);
    assert_eq!(result, "no no is fine");
}

#[test]
fn test_punctuation_preserved_through_correction() {
    let custom_words = vec!["hello".to_string()];
    let result = apply_custom_words("!hello?", &custom_words, half());
    assert_eq!(result, "!hello?");
}

#[test]
fn test_phonetic_boost_enables_match() {
    // "fone" and "fun" share the Soundex code F500 but differ by two edits
    // out of four characters (raw score 0.5), so only the three-tenths
    // phonetic boost (0.15) brings the score under the threshold.
    let custom_words = vec!["fun".to_string()];
    let result = apply_custom_words("fone", &custom_words, half());
    assert_eq!(result, "fun");
}

#[test]
fn test_no_phonetic_match_stays_above_threshold() {
    // "far" scores 0.75 lexically against "fone" and does not match
    // phonetically, so the token passes through.
    let custom_words = vec!["far".to_string()];
    let result = apply_custom_words("fone", &custom_words, half());
    assert_eq!(result, "fone");
}

#[test]
fn test_long_token_passes_through() {
    // at 51 cleaned characters the length cutoff skips the token even
    // though the vocabulary holds an exact (differently-cased) match
    let long = "a".repeat(51);
    let custom_words = vec!["A".repeat(51)];
    let result = apply_custom_words(&long, &custom_words, half());
    assert_eq!(result, long);
}

#[test]
fn test_fifty_char_token_still_corrected() {
    let long = "a".repeat(50);
    let custom_words = vec!["A".repeat(50)];
    let result = apply_custom_words(&long, &custom_words, half());
    assert_eq!(result, "A".repeat(50));
}

#[test]
fn test_tie_keeps_first_seen_entry() {
    // both entries score zero against "helo"; the first seen stays
    let custom_words = vec!["Helo".to_string(), "helo".to_string()];
    let result = apply_custom_words("helo", &custom_words, half());
    assert_eq!(result, "Helo");
}

#[test]
fn test_zero_threshold_disables_correction() {
    let custom_words = vec!["hello".to_string()];
    let result = apply_custom_words("hello", &custom_words, Threshold { num: 0, den: 1 });
    assert_eq!(result, "hello");
}

#[test]
fn test_corrector_rejoins_with_single_spaces() {
    let custom_words = vec!["hello".to_string()];
    let result = apply_custom_words("helo   wrold", &custom_words, half());
    assert_eq!(result, "hello wrold");
}

#[test]
fn test_filter_all_fillers_yields_empty() {
    let result = filter_transcription_output("um uh umm hmm");
    assert_eq!(result, "");
}

#[test]
fn test_filter_empty_input() {
    assert_eq!(filter_transcription_output(""), "");
}

#[test]
fn test_filter_idempotent_on_samples() {
    let samples = [
        "  Um, so I was, uh, thinking about this  ",
        "w wh wh wh wh why",
        "No NO no NO no",
        "This is a completely normal sentence.",
        "",
        "   ",
    ];
    for s in samples {
        let once = filter_transcription_output(s);
        let twice = filter_transcription_output(&once);
        assert_eq!(twice, once);
    }
}

#[test]
fn test_filler_inside_word_is_kept() {
    assert_eq!(
        filter_transcription_output("umbrella ahead mhm"),
        "umbrella ahead mhm"
    );
}

#[test]
fn test_filter_tab_between_tokens_becomes_space() {
    assert_eq!(filter_transcription_output("a\tb"), "a b");
}

#[test]
fn test_filter_only_whitespace_yields_empty() {
    assert_eq!(filter_transcription_output(" \t \n "), "");
}

#[test]
fn test_collapse_stutters_direct() {
    assert_eq!(collapse_stutters("no no no yes"), "no yes");
    assert_eq!(collapse_stutters("no no yes"), "no no yes");
    assert_eq!(collapse_stutters("abc abc abc abc"), "abc abc abc abc");
}

#[test]
fn test_stutter_case_keeps_first_appearance() {
    assert_eq!(collapse_stutters("NO no no"), "NO");
}

#[test]
fn test_uppercase_token_uppercases_replacement() {
    let custom_words = vec!["world".to_string()];
    let result = apply_custom_words("WROLD", &custom_words, half());
    assert_eq!(result, "WORLD");
}
