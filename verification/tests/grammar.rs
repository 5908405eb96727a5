use lsystem::combinator::{ParseError, Parser};
use lsystem::config::RendererConfig;
use lsystem::config::Decimal;
use lsystem::grammar::{
    config_item, config_value, decimal, newline, non_ws_char, parse_config, parse_l_system,
    parse_rules, parse_symbol, rule_parser, rules_parser, skip_all_ws, spaces, ConfigKey,
};
use lsystem::text::{is_whitespace, trim};
use lsystem::rules::Rule;

fn number(text: &str) -> f64 {
    text.parse::<f64>().unwrap()
}

#[test]
fn valid_renderer_config_is_parsed() {
    let input = r##"
        render:
        step = 40.5

        rules:
        A => BCD
        B=>AAA
        C   =>    DAD
        D=> ABC
        "##;
    assert!(parse_l_system(input).is_err());
}

#[test]
fn valid_rules_are_parsed() {
    let input = r##"
        A => BC [ [ +D D

        B=>AAA


        C   =>    DAD
        D=> ABC

        "##;
    let expected = vec![
        Rule::new('A', vec!['B', 'C', '[', '[', '+', 'D', 'D']),
        Rule::new('B', vec!['A', 'A', 'A']),
        Rule::new('C', vec!['D', 'A', 'D']),
        Rule::new('D', vec!['A', 'B', 'C']),
    ];
    let actual = parse_rules(input).unwrap();
    assert_eq!(expected, actual);
}

#[test]
fn should_parse_multiple_spaces() {
    let input = "    ";
    let parser = spaces();

    let actual = parser.parse(input);

    assert!(actual.is_ok());
    assert_eq!(actual, Ok((vec![' ', ' ', ' ', ' '], "")));
}

#[test]
fn definition_with_one_key_is_parsed() {
    let input =
        "render:\nstarting_step = 40.5\n\nrules:\nA => BCD\nB=>AAA\nC   =>    DAD\nD=> ABC\n";
    let system = parse_l_system(input).unwrap();
    assert_eq!(system.rules.apply('A'), vec!['B', 'C', 'D']);
    assert_eq!(system.rules.apply('B'), vec!['A', 'A', 'A']);
    assert_eq!(system.rules.apply('C'), vec!['D', 'A', 'D']);
    assert_eq!(system.rules.apply('D'), vec!['A', 'B', 'C']);
    assert_eq!(system.rules.apply('E'), vec!['E']);
    let config = system.render_config;
    assert_eq!(number(config.starting_step.as_str()), 40.5);
    let defaults = RendererConfig::default();
    assert_eq!(config.step_multiplier, defaults.step_multiplier);
    assert_eq!(config.starting_angle, defaults.starting_angle);
    assert_eq!(config.angle_multiplier, defaults.angle_multiplier);
    assert_eq!(config.starting_line_width, defaults.starting_line_width);
    assert_eq!(config.line_width_multiplier, defaults.line_width_multiplier);
    assert_eq!(config.background_color, "white");
    assert_eq!(config.pen_color, "black");
}

#[test]
fn rule_line_without_arrow_fails() {
    let input = "render:\nrules:\nA BCD\n";
    assert_eq!(
        parse_l_system(input),
        Err(ParseError::ExpectingString("=>".to_owned()))
    );
    let later = "render:\nrules:\nA => B\nB CD\n";
    assert_eq!(parse_l_system(later), Err(ParseError::ExpectingEOF));
}

#[test]
fn empty_config_section_gives_the_defaults() {
    let system = parse_l_system("render:\nrules:\nF => F F\n").unwrap();
    let config = system.render_config;
    assert_eq!(config, RendererConfig::default());
    assert_eq!(number(config.starting_step.as_str()), 10.0);
    assert_eq!(number(config.step_multiplier.as_str()), 1.5);
    assert_eq!(number(config.starting_angle.as_str()), 45.0);
    assert_eq!(number(config.angle_multiplier.as_str()), 2.0);
    assert_eq!(number(config.starting_line_width.as_str()), 4.0);
    assert_eq!(number(config.line_width_multiplier.as_str()), 1.5);
    assert_eq!(config.background_color, "white");
    assert_eq!(config.pen_color, "black");
}

#[test]
fn config_keys_in_any_order_and_the_last_one_wins() {
    let lines = [
        "pen_color =  dark red \t\r\n",
        "angle_multiplier=3.25\n",
        "  starting_step = 1.0\n",
        "starting_step = 2.5\rrest",
    ];
    let text = lines.concat();
    let input = text.as_str();
    let (config, rest) = parse_config(input).unwrap();
    assert_eq!(rest, "rest");
    assert_eq!(config.pen_color, "dark red");
    assert_eq!(config.angle_multiplier.as_str(), "3.25");
    assert_eq!(config.starting_step.as_str(), "2.5");
    assert_eq!(config.background_color, "white");
}

#[test]
fn config_section_ends_at_a_value_that_is_no_decimal() {
    let input = "step_multiplier = 2.0\nstarting_angle = 90\npen_color = red\n";
    let (config, rest) = parse_config(input).unwrap();
    assert_eq!(config.step_multiplier.as_str(), "2.0");
    assert_eq!(rest, "starting_angle = 90\npen_color = red\n");
    assert_eq!(config.pen_color, "black");
}

#[test]
fn config_item_reports_the_value_that_is_no_decimal() {
    let result = config_item(ConfigKey::StartingAngle).parse("starting_angle = 1e5 \n");
    assert_eq!(
        result,
        Err(ParseError::Custom(
            "Invalid config value: '1e5\n           '".to_owned()
        ))
    );
    for bad in ["5", ".5", "5.", "-1.0", "1.0.0", "1,5", "+1.5", "1.5f"] {
        let line = format!("starting_angle = {}\n", bad);
        assert!(matches!(
            config_item(ConfigKey::StartingAngle).parse(&line),
            Err(ParseError::Custom(_))
        ));
    }
}

#[test]
fn config_value_is_the_trimmed_rest_of_the_line() {
    assert_eq!(config_value("a b  \t\nnext"), Ok(("a b", "\nnext")));
    assert_eq!(config_value("\nnext"), Err(ParseError::ExpectingPredicate));
    assert_eq!(config_value(""), Err(ParseError::EndOfInput));
}

#[test]
fn newline_takes_each_kind_of_line_break() {
    assert_eq!(newline().parse("\nx"), Ok(((), "x")));
    assert_eq!(newline().parse("\r\nx"), Ok(((), "x")));
    assert_eq!(newline().parse("\rx"), Ok(((), "x")));
    assert_eq!(newline().parse("x"), Err(ParseError::ExpectingOneOfToParse));
    assert_eq!(newline().parse(""), Err(ParseError::ExpectingOneOfToParse));
}

#[test]
fn symbols_are_printable_characters() {
    assert_eq!(non_ws_char("+x"), Ok(('+', "x")));
    assert_eq!(non_ws_char(" x"), Err(ParseError::ExpectingPredicate));
    assert_eq!(non_ws_char("\u{e9}"), Err(ParseError::ExpectingPredicate));
    assert_eq!(non_ws_char(""), Err(ParseError::EndOfInput));
    assert_eq!(parse_symbol().parse(" \t[ \t]"), Ok(('[', "]")));
    assert_eq!(skip_all_ws(" \n\t\r\n x "), Ok(((), "x ")));
}

#[test]
fn rule_line_needs_a_replacement_and_a_line_break() {
    assert_eq!(
        rule_parser().parse("\n\n  F  =>  F + F \n  rest"),
        Ok((Rule::new('F', vec!['F', '+', 'F']), "rest"))
    );
    assert_eq!(
        rule_parser().parse("F =>\n"),
        Err(ParseError::ExpectingPredicate)
    );
    assert_eq!(
        rule_parser().parse("F => F"),
        Err(ParseError::ExpectingOneOfToParse)
    );
    assert_eq!(rule_parser().parse(""), Err(ParseError::EndOfInput));
}

#[test]
fn header_failures_are_reported() {
    assert_eq!(
        parse_l_system("rules:\nF => F\n"),
        Err(ParseError::ExpectingString("render".to_owned()))
    );
    assert_eq!(
        parse_l_system("render\nrules:\nF => F\n"),
        Err(ParseError::ExpectingString(":".to_owned()))
    );
    assert_eq!(
        parse_l_system("render:\nstep = 1.0\nrules:\nF => F\n"),
        Err(ParseError::ExpectingString("rules".to_owned()))
    );
    assert_eq!(
        parse_l_system("render:\nrules:\n"),
        Err(ParseError::EndOfInput)
    );
    assert_eq!(
        parse_l_system("render:\nrules:\nF => F\n\n"),
        Err(ParseError::ExpectingEOF)
    );
}

#[test]
fn decimal_literals_are_digits_a_point_and_digits() {
    let (value, rest) = decimal().parse("40.5 rest").unwrap();
    assert_eq!(value.as_str(), "40.5");
    assert_eq!(number(value.as_str()), 40.5);
    assert_eq!(rest, " rest");
    let (value, rest) = decimal().parse("007.250.1").unwrap();
    assert_eq!(value.as_str(), "007.250");
    assert_eq!(rest, ".1");
    assert_eq!(decimal().parse("").err(), Some(ParseError::EndOfInput));
    assert_eq!(decimal().parse(".5").err(), Some(ParseError::ExpectingPredicate));
    assert_eq!(decimal().parse("-1.5").err(), Some(ParseError::ExpectingPredicate));
    assert_eq!(
        decimal().parse("15").err(),
        Some(ParseError::ExpectingString(".".to_owned()))
    );
    assert_eq!(decimal().parse("15.").err(), Some(ParseError::EndOfInput));
    assert_eq!(decimal().parse("15.x").err(), Some(ParseError::ExpectingPredicate));
    assert_eq!(
        Decimal::parse("1.5").map(|d| d.as_str().to_owned()),
        Some("1.5".to_owned())
    );
    for bad in ["", "1", "1.", ".1", "1.5 ", " 1.5", "1e5", "1.5.2", "+1.5", "\u{661}.\u{662}"] {
        assert_eq!(Decimal::parse(bad), None);
    }
    assert_eq!(Decimal::parse("0.0").unwrap().clone().as_str(), "0.0");
}

#[test]
fn rules_parser_folds_the_lines_into_a_store() {
    let (store, rest) = rules_parser().parse("A => B\nA => C C\nB => A\n!").unwrap();
    assert_eq!(rest, "!");
    assert_eq!(store.apply('A'), vec!['C', 'C']);
    assert_eq!(store.apply('B'), vec!['A']);
    assert_eq!(store.apply('C'), vec!['C']);
    assert_eq!(
        rules_parser().parse("!").err(),
        Some(ParseError::ExpectingString("=>".to_owned()))
    );
}

#[test]
fn whitespace_is_trimmed_at_both_ends() {
    assert_eq!(trim(" \t\u{a0}a b\u{3000}\r\n"), "a b");
    assert_eq!(trim("  "), "");
    assert_eq!(trim(""), "");
    for code in 0..0x3100u32 {
        if let Some(c) = char::from_u32(code) {
            assert_eq!(is_whitespace(c), c.is_whitespace());
        }
    }
}
