use lsystem::combinator::{
    any, at_least, character, complete, eof, flat_map, ignore_spaces, literal, many, one_of,
    optional, recognize, sequence, sequence_ignore_spaces, skip_spaces, ParseError, Parser,
};

#[test]
fn parses_literal_string() {
    let (res, rem) = literal("foo").parse("foo").unwrap();
    assert_eq!("foo", res);
    assert!(rem.is_empty());
}

#[test]
fn parse_sequence_ignore_spaces_using_macro() {
    let parser = lsystem::combinator::map(
        sequence_ignore_spaces(
            sequence_ignore_spaces(character('A'), literal("foo")),
            character('C'),
        ),
        |((a, _foo), c)| (a, c),
    );
    let (result, rem) = parser.parse(" \t A foo\t C  \t ").unwrap();
    assert_eq!(('A', 'C'), result);
    assert!(rem.is_empty());
}

#[test]
fn parse_sequence_using_macro() {
    let parser = sequence(character('A'), character('b'));
    let (result, rem) = parser.parse("Ab").expect("failed to parse");
    assert_eq!(('A', 'b'), result);
    assert!(rem.is_empty());
}

#[test]
fn parse_a_character() {
    let input = "ABCD";
    let parser = character('A');

    let actual = parser.parse(input);

    let expected = Ok(('A', "BCD"));
    assert_eq!(actual, expected);
}

#[test]
fn parse_many_a_characters() {
    let input = "AAABCD";
    let parser = many(character('A'));

    let actual = parser.parse(input);

    let expected = Ok((vec!['A', 'A', 'A'], "BCD"));
    assert_eq!(actual, expected);
}

#[test]
fn parse_at_least_2_a_characters() {
    let input = "AAABCD";
    let parser = at_least(2, character('A'));

    let actual = parser.parse(input);

    let expected = Ok((vec!['A', 'A', 'A'], "BCD"));
    assert_eq!(actual, expected);
}

#[test]
fn parse_any_character() {
    let input = "AAABCD";
    let parser = any(|c: char| c.is_alphabetic());

    let actual = parser.parse(input);

    let expected = Ok(('A', "AABCD"));
    assert_eq!(actual, expected);
}

#[test]
fn map_many_a_character_to_length() {
    let input = "AAABCD";
    let parser = lsystem::combinator::map(many(character('A')), |cs: Vec<char>| cs.len());

    let actual = parser.parse(input);

    let expected = Ok((3, "BCD"));
    assert_eq!(actual, expected);
}

#[test]
fn parse_one_of_b_or_a_characters() {
    let input = "AAABCD";
    let parser = one_of(vec![character('B'), character('A')]);

    let actual = parser.parse(input);

    let expected = Ok(('A', "AABCD"));
    assert_eq!(actual, expected);
}

#[test]
fn at_least_fails_before_the_minimum() {
    let parser = at_least(4, character('A'));
    assert_eq!(parser.parse("AAABCD"), Err(ParseError::ExpectingCharacter('A')));
}

#[test]
fn optional_never_fails() {
    let parser = optional(character('A'));
    assert_eq!(parser.parse("AB"), Ok((Some('A'), "B")));
    assert_eq!(parser.parse("BA"), Ok((None, "BA")));
    assert_eq!(parser.parse(""), Ok((None, "")));
}

#[test]
fn flat_map_converts_the_value_or_fails() {
    let digit = flat_map(any(|c: char| c.is_ascii_digit()), |c: char| {
        if c == '0' {
            Err(ParseError::Custom("zero".to_owned()))
        } else {
            Ok(c as u32 - '0' as u32)
        }
    });
    assert_eq!(digit.parse("7x"), Ok((7, "x")));
    assert_eq!(digit.parse("0x"), Err(ParseError::Custom("zero".to_owned())));
    assert_eq!(digit.parse("x"), Err(ParseError::ExpectingPredicate));
    assert_eq!(digit.parse(""), Err(ParseError::EndOfInput));
}

#[test]
fn recognize_yields_the_consumed_text() {
    let parser = recognize(sequence(many(character('a')), literal("\u{e9}b")));
    assert_eq!(parser.parse("aa\u{e9}bcd"), Ok(("aa\u{e9}b", "cd")));
    assert_eq!(parser.parse("\u{e9}b"), Ok(("\u{e9}b", "")));
    assert_eq!(
        parser.parse("aab"),
        Err(ParseError::ExpectingString("\u{e9}b".to_owned()))
    );
}

#[test]
fn complete_requires_the_end_of_the_input() {
    let parser = complete(many(character('A')));
    assert_eq!(parser.parse("AAA"), Ok((vec!['A', 'A', 'A'], "")));
    assert_eq!(parser.parse(""), Ok((vec![], "")));
    assert_eq!(parser.parse("AAB"), Err(ParseError::ExpectingEOF));
    assert_eq!(eof(""), Ok(((), "")));
    assert_eq!(eof("x"), Err(ParseError::ExpectingEOF));
}

#[test]
fn sequence_fails_with_the_first_failure() {
    let parser = sequence(character('A'), character('b'));
    assert_eq!(parser.parse("xb"), Err(ParseError::ExpectingCharacter('A')));
    assert_eq!(parser.parse("Ax"), Err(ParseError::ExpectingCharacter('b')));
    assert_eq!(parser.parse("A"), Err(ParseError::ExpectingCharacter('b')));
}

#[test]
fn spaces_and_tabs_are_skipped_and_nothing_else() {
    assert_eq!(skip_spaces(" \t \nx"), Ok(((), "\nx")));
    assert_eq!(skip_spaces("x "), Ok(((), "x ")));
    assert_eq!(skip_spaces(""), Ok(((), "")));
    let parser = ignore_spaces(character('A'));
    assert_eq!(parser.parse("\t A \tB"), Ok(('A', "B")));
    assert_eq!(parser.parse("\nA"), Err(ParseError::ExpectingCharacter('A')));
}

#[test]
fn one_of_fails_when_every_option_fails() {
    let parser = one_of(vec![literal("ab"), literal("a"), literal("")]);
    assert_eq!(parser.parse("abc"), Ok(("ab", "c")));
    assert_eq!(parser.parse("ac"), Ok(("a", "c")));
    assert_eq!(parser.parse("c"), Ok(("", "c")));
    let none = one_of(vec![character('x'), character('y')]);
    assert_eq!(none.parse("abc"), Err(ParseError::ExpectingOneOfToParse));
    let empty = one_of(Vec::<lsystem::combinator::Character>::new());
    assert_eq!(empty.parse("abc"), Err(ParseError::ExpectingOneOfToParse));
}

#[test]
fn characters_beyond_ascii_are_whole_characters() {
    assert_eq!(character('\u{e9}').parse("\u{e9}t\u{e9}"), Ok(('\u{e9}', "t\u{e9}")));
    assert_eq!(
        any(|c: char| c.is_alphabetic()).parse("\u{3b1}\u{3b2}"),
        Ok(('\u{3b1}', "\u{3b2}"))
    );
    assert_eq!(
        literal("foo").parse("fo"),
        Err(ParseError::ExpectingString("foo".to_owned()))
    );
}
