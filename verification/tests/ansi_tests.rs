use ansi_styled::scanner::ANSIParser;
use ansi_styled::styled::AnsiString;

#[test]
fn test_ansi_iterator() {
    let input = "\x1B[48;2;5;10;15m\x1B[38;2;70;130;180mhi\x1B[0m";
    let ansistring = ANSIParser::default().parse_ansi(input);
    let mut it = ansistring.iter();
    let arr: Vec<(usize, u16)> = vec![(0, 11), (0, 12)];
    assert_eq!(Some(('h', &arr[..2])), it.next());
    assert_eq!(Some(('i', &arr[..0])), it.next());
}

#[test]
fn iterator_ends_after_stripped_text() {
    let input = "\x1B[48;2;5;10;15m\x1B[38;2;70;130;180mhi\x1B[0m";
    let ansistring = ANSIParser::default().parse_ansi(input);
    let mut it = ansistring.iter();
    assert!(it.next().is_some());
    assert!(it.next().is_some());
    assert_eq!(None, it.next());
    assert_eq!(None, it.next());
}

#[test]
fn example_three_sgr_codes() {
    let input = "\x1B[48;2;5;10;15m\x1B[38;2;70;130;180mhi\x1B[0m";
    let ansistring = ANSIParser::default().parse_ansi(input);
    assert_eq!("hi", ansistring.stripped);
    assert_eq!(vec![(0, 11), (0, 12), (2, 13)], ansistring.ansi_states);
}

#[test]
fn example_plain_text() {
    let ansistring = AnsiString::from_str("plain text");
    assert_eq!("plain text", ansistring.stripped);
    assert!(ansistring.ansi_states.is_empty());
    assert!(!ansistring.has_attrs());
}

#[test]
fn example_carry_over_to_next_line() {
    let mut parser = ANSIParser::default();
    let first = parser.parse_ansi("\x1B[1mbold");
    assert_eq!("bold", first.stripped);
    assert_eq!(vec![(0, 11)], first.ansi_states);
    let second = parser.parse_ansi("more");
    assert_eq!("more", second.stripped);
    assert_eq!(vec![(0, 11)], second.ansi_states);
}

#[test]
fn carry_over_on_empty_line() {
    let mut parser = ANSIParser::default();
    parser.parse_ansi("\x1B[1m");
    let next = parser.parse_ansi("");
    assert_eq!("", next.stripped);
    assert_eq!(vec![(0, 11)], next.ansi_states);
}

#[test]
fn clear_line_emits_nothing_and_resets() {
    let mut parser = ANSIParser::default();
    parser.parse_ansi("\x1B[1mbold");
    let cleared = parser.parse_ansi("\x1B[K");
    assert_eq!("", cleared.stripped);
    assert!(cleared.ansi_states.is_empty());
    let after = parser.parse_ansi("more");
    assert_eq!("more", after.stripped);
    assert!(after.ansi_states.is_empty());
}

#[test]
fn clear_screen_emits_nothing_and_resets() {
    let mut parser = ANSIParser::default();
    parser.parse_ansi("\x1B[31mred");
    let cleared = parser.parse_ansi("\x1B[2J");
    assert_eq!("", cleared.stripped);
    assert!(cleared.ansi_states.is_empty());
    let after = parser.parse_ansi("plain");
    assert!(after.ansi_states.is_empty());
}

#[test]
fn equal_codes_get_equal_tokens() {
    let ansistring = AnsiString::from_str("\x1B[1mx\x1B[1my\x1B[4mz");
    assert_eq!("xyz", ansistring.stripped);
    assert_eq!(vec![(0, 11), (1, 11), (2, 12)], ansistring.ansi_states);
}

#[test]
fn unmatched_escape_stays_literal() {
    let ansistring = AnsiString::from_str("\x1B[zabc");
    assert_eq!("\x1B[zabc", ansistring.stripped);
    assert!(ansistring.ansi_states.is_empty());
}

#[test]
fn trailing_escape_byte_stays_literal() {
    let ansistring = AnsiString::from_str("abc\x1B");
    assert_eq!("abc\x1B", ansistring.stripped);
    assert!(ansistring.ansi_states.is_empty());
}

#[test]
fn cursor_and_mode_sequences_are_stripped() {
    let ansistring = AnsiString::from_str("\x1B[1;2Hok\x1B[3Aup\x1B[s\x1B[u\x1B[=5hend");
    assert_eq!("okupend", ansistring.stripped);
    assert_eq!(
        vec![(0, 11), (2, 12), (4, 13), (4, 14), (4, 15)],
        ansistring.ansi_states
    );
}

#[test]
fn offsets_count_characters_not_bytes() {
    let ansistring = AnsiString::from_str("\u{e9}\x1B[1m\u{fc}");
    assert_eq!("\u{e9}\u{fc}", ansistring.stripped);
    assert_eq!(vec![(1, 11)], ansistring.ansi_states);
}

#[test]
fn round_trip_keeps_literal_order() {
    let input = "one\x1B[1mtwo\x1B[0mthree";
    let ansistring = AnsiString::from_str(input);
    assert_eq!("onetwothree", ansistring.stripped);
    assert!(ansistring.stripped.len() <= input.len());
}

#[test]
fn monotone_offsets() {
    let ansistring = AnsiString::from_str("\x1B[1ma\x1B[2mbc\x1B[3m\x1B[4md");
    let offsets: Vec<usize> = ansistring.ansi_states.iter().map(|p| p.0).collect();
    assert_eq!(vec![0, 1, 3, 3], offsets);
    for w in offsets.windows(2) {
        assert!(w[0] <= w[1]);
    }
}

#[test]
fn new_empty_and_into_inner() {
    let empty = AnsiString::new_empty();
    assert_eq!("", empty.stripped);
    assert!(!empty.has_attrs());
    let ansistring = AnsiString::from_str("\x1B[1mtext");
    assert!(ansistring.has_attrs());
    assert_eq!("text".to_string(), ansistring.into_inner());
}

#[test]
fn print_orders_attributes_before_characters() {
    let input = "\x1B[48;2;5;10;15m\x1B[38;2;70;130;180mhi\x1B[0m";
    let ansistring = ANSIParser::default().parse_ansi(input);
    let plan = ansistring.print();
    assert_eq!(vec![(vec![11, 12], 'h'), (vec![], 'i')], plan);
}

#[test]
fn print_carries_token_onto_plain_line() {
    let mut parser = ANSIParser::default();
    parser.parse_ansi("\x1B[7m");
    let line = parser.parse_ansi("ab");
    let plan = line.print();
    assert_eq!(vec![(vec![11], 'a'), (vec![], 'b')], plan);
}

#[test]
fn iterator_yields_one_item_per_character() {
    let ansistring = AnsiString::from_str("a\x1B[1mb\x1B[2mc");
    let mut it = ansistring.iter();
    let mut yielded: Vec<(char, Vec<(usize, u16)>)> = Vec::new();
    while let Some((c, run)) = it.next() {
        yielded.push((c, run.to_vec()));
    }
    assert_eq!(3, yielded.len());
    assert_eq!(('a', vec![]), yielded[0]);
    assert_eq!(('b', vec![(1, 11)]), yielded[1]);
    assert_eq!(('c', vec![(2, 12)]), yielded[2]);
    let joined: Vec<(usize, u16)> = yielded.into_iter().flat_map(|p| p.1).collect();
    assert_eq!(ansistring.ansi_states, joined);
}

#[test]
fn empty_sgr_code_is_recognized() {
    let ansistring = AnsiString::from_str("a\x1B[mb");
    assert_eq!("ab", ansistring.stripped);
    assert_eq!(vec![(1, 11)], ansistring.ansi_states);
}

#[test]
fn clear_in_middle_emits_no_change_for_it() {
    let mut parser = ANSIParser::default();
    let line = parser.parse_ansi("a\x1B[Kb\x1B[1mc");
    assert_eq!("abc", line.stripped);
    assert_eq!(vec![(2, 11)], line.ansi_states);
}
