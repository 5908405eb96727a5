use lsystem::combinator::{Any, AtLeast, Character, Mapped, OneOf, Parser};

#[test]
fn combinator_parse_a_character() {
    let input = "ABCD";
    let parser = Character::new('A');

    let actual = parser.parse(input);

    let expected = Ok(('A', "BCD"));
    assert_eq!(actual, expected);
}

#[test]
fn combinator_parse_many_a_characters() {
    let input = "AAABCD";
    let parser = AtLeast::new(0, Character::new('A'));

    let actual = parser.parse(input);

    let expected = Ok((vec!['A', 'A', 'A'], "BCD"));
    assert_eq!(actual, expected);
}

#[test]
fn combinator_parse_at_least_2_a_characters() {
    let input = "AAABCD";
    let parser = AtLeast::new(2, Character::new('A'));

    let actual = parser.parse(input);

    let expected = Ok((vec!['A', 'A', 'A'], "BCD"));
    assert_eq!(actual, expected);
}

#[test]
fn combinator_parse_any_character() {
    let input = "AAABCD";
    let parser = Any::new(|c: char| c.is_alphabetic());

    let actual = parser.parse(input);

    let expected = Ok(('A', "AABCD"));
    assert_eq!(actual, expected);
}

#[test]
fn combinator_map_many_a_character_to_length() {
    let input = "AAABCD";
    let parser = Mapped::new(AtLeast::new(0, Character::new('A')), |cs: Vec<char>| cs.len());

    let actual = parser.parse(input);

    let expected = Ok((3, "BCD"));
    assert_eq!(actual, expected);
}

#[test]
fn combinator_parse_one_of_b_or_a_characters() {
    let input = "AAABCD";
    let parser = OneOf::new(vec![Character::new('B'), Character::new('A')]);

    let actual = parser.parse(input);

    let expected = Ok(('A', "AABCD"));
    assert_eq!(actual, expected);
}
