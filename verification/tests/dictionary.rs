use wordle::DictEntry;
use wordle::DictError;
use wordle::dictionary::parse_dictionary;
use wordle::dictionary::parse_dictionary_line;

#[test]
fn well_formed_line() {
    let entry = parse_dictionary_line("moved 123").unwrap();
    assert_eq!(entry.word, "moved");
    assert_eq!(entry.count, 123);
}

#[test]
fn zero_count_is_fine() {
    let entry = parse_dictionary_line("right 0").unwrap();
    assert_eq!(entry.word, "right");
    assert_eq!(entry.count, 0);
}

#[test]
fn largest_count_is_fine() {
    let entry = parse_dictionary_line("right 18446744073709551615").unwrap();
    assert_eq!(entry.count, u64::MAX);
}

#[test]
fn short_word_is_rejected() {
    assert_eq!(
        parse_dictionary_line("movd 12"),
        Err(DictError::MalformedWord)
    );
}

#[test]
fn missing_space_is_rejected() {
    assert_eq!(
        parse_dictionary_line("moved12"),
        Err(DictError::MalformedWord)
    );
}

#[test]
fn uppercase_word_is_rejected() {
    assert_eq!(
        parse_dictionary_line("MOVED 12"),
        Err(DictError::MalformedWord)
    );
}

#[test]
fn empty_count_is_rejected() {
    assert_eq!(
        parse_dictionary_line("moved "),
        Err(DictError::MalformedCount)
    );
}

#[test]
fn non_digit_count_is_rejected() {
    assert_eq!(
        parse_dictionary_line("moved 12x"),
        Err(DictError::MalformedCount)
    );
}

#[test]
fn second_space_is_rejected() {
    assert_eq!(
        parse_dictionary_line("moved 1 2"),
        Err(DictError::MalformedCount)
    );
}

#[test]
fn oversized_count_is_rejected() {
    assert_eq!(
        parse_dictionary_line("moved 18446744073709551616"),
        Err(DictError::CountTooLarge)
    );
}

#[test]
fn whole_dictionary_parses_in_order() {
    let lines = vec!["moved 3".to_string(), "right 2".to_string()];
    let entries: Vec<DictEntry> = parse_dictionary(&lines).unwrap();
    assert_eq!(entries.len(), 2);
    assert_eq!(entries[0].word, "moved");
    assert_eq!(entries[0].count, 3);
    assert_eq!(entries[1].word, "right");
    assert_eq!(entries[1].count, 2);
}

#[test]
fn first_malformed_line_fails_the_load() {
    let lines = vec!["moved 3".to_string(), "bad".to_string()];
    assert_eq!(parse_dictionary(&lines), Err(DictError::MalformedWord));
}
