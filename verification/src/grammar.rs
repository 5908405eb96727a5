//! The parser of L-system definitions.
//!
//! A definition has two sections:
//!
//! ```text
//! render:
//! <key> = <value>
//! ...
//! rules:
//! <symbol> => <symbol> <symbol> ...
//! ...
//! ```
//!
//! Every parser of this module is built from the combinators, and what it
//! does is a function of the input, stated next to it.

use crate::combinator::{
    any, at_least, character, complete, is_suffix, lemma_unpadded_narrows, literal, many, one_of,
    productive, recognize, sequence, unpadded, AtLeast, Character, Failure, Literal, ParseError,
    ParseResult, Parser,
};
use crate::config::{
    default_config, is_decimal, with_items, ConfigItem, ConfigItemView, Decimal, RendererConfig,
    RendererConfigView,
};
use crate::outcome::{
    lemma_at_least_values, yielding,
    any_outcome, at_least_outcome, consuming, first_outcome, lemma_any_decides,
    lemma_at_least_decides, lemma_at_least_narrows, lemma_at_least_one_any, lemma_one_of_decides,
    lemma_recognize_decides, lemma_repeated_narrows, lemma_sequence_decides, literal_outcome,
    narrowing, repeated, sequence_outcome, Outcome,
};
use crate::rules::{fold_rules, rule_views, LSystemRules, Rule};
use crate::system::LSystem;
use crate::text::{
    digit, graphic, is_digit, is_graphic, is_within_line, leading, lemma_leading_run, skip_blanks,
    skip_whitespace, trim, trimmed, whitespace, within_line, without_leading,
};
use vstd::prelude::*;
use vstd::string::*;

verus! {

/// The outcome of matching a line break: a line feed, a carriage return
/// with a line feed, or a carriage return alone.
pub open spec fn newline_outcome(input: Seq<char>) -> Outcome<()> {
    if input.len() > 0 && input[0] == '\n' {
        Ok(((), input.skip(1)))
    } else if input.len() > 1 && input[0] == '\r' && input[1] == '\n' {
        Ok(((), input.skip(2)))
    } else if input.len() > 0 && input[0] == '\r' {
        Ok(((), input.skip(1)))
    } else {
        Err(Failure::ExpectingOneOfToParse)
    }
}

/// Matches a line break.
pub struct Newline;

/// A parser that matches a line break.
pub fn newline() -> Newline {
    Newline
}

/// The three line breaks, character by character.
proof fn lemma_line_breaks()
    ensures
        "\n"@ == seq!['\n'],
        "\r\n"@ == seq!['\r', '\n'],
        "\r"@ == seq!['\r'],
{
    reveal_strlit("\n");
    reveal_strlit("\r\n");
    reveal_strlit("\r");
}

/// The first of the three line breaks that matches is what
/// `newline_outcome` gives.
proof fn lemma_newline_is_first(input: Seq<char>)
    ensures
        match first_outcome(
            seq![
                |i: Seq<char>| literal_outcome("\n"@, i),
                |i: Seq<char>| literal_outcome("\r\n"@, i),
                |i: Seq<char>| literal_outcome("\r"@, i),
            ],
            0,
            input,
        ) {
            Ok((_, rest)) => newline_outcome(input) == Ok::<((), Seq<char>), Failure>(((), rest)),
            Err(failure) => newline_outcome(input) == Err::<((), Seq<char>), Failure>(failure),
        },
{
    lemma_line_breaks();
    reveal_with_fuel(first_outcome, 4);
    let feed = seq!['\n'];
    let both = seq!['\r', '\n'];
    let back = seq!['\r'];
    assert(feed.is_prefix_of(input) <==> input.len() > 0 && input[0] == '\n') by {
        if input.len() > 0 && input[0] == '\n' {
            assert(feed =~= input.subrange(0, 1));
        }
        if feed.is_prefix_of(input) {
            assert(input.subrange(0, 1)[0] == input[0]);
        }
    }
    assert(both.is_prefix_of(input) <==> input.len() > 1 && input[0] == '\r' && input[1] == '\n')
        by {
        if input.len() > 1 && input[0] == '\r' && input[1] == '\n' {
            assert(both =~= input.subrange(0, 2));
        }
        if both.is_prefix_of(input) {
            assert(input.subrange(0, 2)[0] == input[0]);
            assert(input.subrange(0, 2)[1] == input[1]);
        }
    }
    assert(back.is_prefix_of(input) <==> input.len() > 0 && input[0] == '\r') by {
        if input.len() > 0 && input[0] == '\r' {
            assert(back =~= input.subrange(0, 1));
        }
        if back.is_prefix_of(input) {
            assert(input.subrange(0, 1)[0] == input[0]);
        }
    }
}

impl<'a> Parser<'a, ()> for Newline {
    open spec fn ready(&self) -> bool {
        true
    }

    open spec fn yields(&self, input: Seq<char>, value: (), rest: Seq<char>) -> bool {
        newline_outcome(input) == Ok::<((), Seq<char>), Failure>(((), rest))
    }

    open spec fn fails(&self, input: Seq<char>, failure: Failure) -> bool {
        newline_outcome(input) == Err::<((), Seq<char>), Failure>(failure)
    }

    proof fn lemma_narrows(&self, input: Seq<char>, value: (), rest: Seq<char>) {
    }

    fn parse(&self, input: &'a str) -> (result: ParseResult<'a, ()>) {
        let mut options: Vec<Literal<'static>> = Vec::new();
        options.push(literal("\n"));
        options.push(literal("\r\n"));
        options.push(literal("\r"));
        let breaks = one_of::<&'a str, Literal<'static>>(options);
        proof {
            let outcomes = seq![
                |i: Seq<char>| literal_outcome("\n"@, i),
                |i: Seq<char>| literal_outcome("\r\n"@, i),
                |i: Seq<char>| literal_outcome("\r"@, i),
            ];
            let view = |value: &'a str| value@;
            lemma_one_of_decides(&breaks, view, outcomes);
            lemma_newline_is_first(input@);
        }
        match breaks.parse(input) {
            Ok((_, rest)) => Ok(((), rest)),
            Err(e) => Err(e),
        }
    }
}

/// The outcome of matching one printable character other than the space.
pub open spec fn non_ws_char_outcome(input: Seq<char>) -> Outcome<char> {
    any_outcome(|c: char| graphic(c), input)
}

/// Matches one printable character other than the space.
pub fn non_ws_char(input: &str) -> (result: Result<(char, &str), ParseError>)
    ensures
        match result {
            Ok((value, rest)) => non_ws_char_outcome(input@) == Ok::<(char, Seq<char>), Failure>(
                (value, rest@),
            ),
            Err(error) => non_ws_char_outcome(input@) == Err::<(char, Seq<char>), Failure>(error@),
        },
{
    let accepts = |c: char| -> (accepted: bool)
        ensures
            accepted == graphic(c),
        {
            is_graphic(c)
        };
    let printable = any(accepts);
    proof {
        lemma_any_decides(&printable, |c: char| graphic(c));
    }
    printable.parse(input)
}

/// The outcome of matching a symbol: one printable character other than the
/// space, between optional spaces and tabs.
pub open spec fn symbol_outcome(input: Seq<char>) -> Outcome<char> {
    match non_ws_char_outcome(unpadded(input)) {
        Ok((symbol, rest)) => Ok((symbol, unpadded(rest))),
        Err(failure) => Err(failure),
    }
}

/// Matches a symbol.
pub struct ParseSymbol;

/// A parser that matches a symbol.
pub fn parse_symbol() -> ParseSymbol {
    ParseSymbol
}

/// A symbol parse leaves a suffix of the input, and less than the input.
pub proof fn lemma_symbol_narrows(input: Seq<char>)
    ensures
        match symbol_outcome(input) {
            Ok((_, rest)) => is_suffix(rest, input) && rest.len() < input.len(),
            Err(_) => true,
        },
{
    lemma_unpadded_narrows(input);
    match non_ws_char_outcome(unpadded(input)) {
        Ok((symbol, rest)) => {
            lemma_unpadded_narrows(rest);
        },
        Err(_) => {},
    }
}

impl<'a> Parser<'a, char> for ParseSymbol {
    open spec fn ready(&self) -> bool {
        true
    }

    open spec fn yields(&self, input: Seq<char>, value: char, rest: Seq<char>) -> bool {
        symbol_outcome(input) == Ok::<(char, Seq<char>), Failure>((value, rest))
    }

    open spec fn fails(&self, input: Seq<char>, failure: Failure) -> bool {
        symbol_outcome(input) == Err::<(char, Seq<char>), Failure>(failure)
    }

    proof fn lemma_narrows(&self, input: Seq<char>, value: char, rest: Seq<char>) {
        lemma_symbol_narrows(input);
    }

    fn parse(&self, input: &'a str) -> (result: ParseResult<'a, char>) {
        let start = skip_blanks(input);
        match non_ws_char(start) {
            Ok((symbol, rest)) => Ok((symbol, skip_blanks(rest))),
            Err(e) => Err(e),
        }
    }
}

/// Consumes the leading whitespace of the input, line breaks included; never
/// fails.
pub fn skip_all_ws(input: &str) -> (result: Result<((), &str), ParseError>)
    ensures
        result matches Ok((_, rest)) && rest@ == without_leading(input@, |c: char| whitespace(c)),
{
    Ok(((), skip_whitespace(input)))
}

/// The outcome of matching one rule line: optional blank lines, the symbol
/// to rewrite, `=>`, one or more symbols to put in its place, and a line
/// break, with optional spaces and tabs around each of them.
pub open spec fn rule_outcome(input: Seq<char>) -> Outcome<(char, Seq<char>)> {
    let start = unpadded(without_leading(unpadded(input), |c: char| whitespace(c)));
    match symbol_outcome(start) {
        Err(failure) => Err(failure),
        Ok((to_match, after_symbol)) => match literal_outcome("=>"@, unpadded(after_symbol)) {
            Err(failure) => Err(failure),
            Ok((_, after_arrow)) => match at_least_outcome(
                |i: Seq<char>| symbol_outcome(i),
                1,
                unpadded(after_arrow),
            ) {
                Err(failure) => Err(failure),
                Ok((replacements, after_symbols)) => match newline_outcome(
                    unpadded(after_symbols),
                ) {
                    Err(failure) => Err(failure),
                    Ok((_, rest)) => Ok(((to_match, replacements), unpadded(rest))),
                },
            },
        },
    }
}

/// What is left after leading whitespace is a suffix of the input.
pub proof fn lemma_whitespace_narrows(input: Seq<char>)
    ensures
        is_suffix(without_leading(input, |c: char| whitespace(c)), input),
{
    lemma_leading_run(input, |c: char| whitespace(c));
}

/// A rule parse leaves a suffix of the input, and less than the input.
pub proof fn lemma_rule_narrows(input: Seq<char>)
    ensures
        match rule_outcome(input) {
            Ok((_, rest)) => is_suffix(rest, input) && rest.len() < input.len(),
            Err(_) => true,
        },
{
    let symbols = |i: Seq<char>| symbol_outcome(i);
    let s0 = unpadded(input);
    let s1 = without_leading(s0, |c: char| whitespace(c));
    let start = unpadded(s1);
    lemma_unpadded_narrows(input);
    lemma_whitespace_narrows(s0);
    lemma_unpadded_narrows(s1);
    lemma_symbol_narrows(start);
    match symbol_outcome(start) {
        Err(_) => {},
        Ok((to_match, after_symbol)) => {
            let s2 = unpadded(after_symbol);
            lemma_unpadded_narrows(after_symbol);
            match literal_outcome("=>"@, s2) {
                Err(_) => {},
                Ok((_, after_arrow)) => {
                    let s3 = unpadded(after_arrow);
                    lemma_unpadded_narrows(after_arrow);
                    assert(narrowing(symbols)) by {
                        assert forall|i: Seq<char>|
                            match #[trigger] symbols(i) {
                                Ok((_, rest)) => is_suffix(rest, i),
                                Err(_) => true,
                            } by {
                            lemma_symbol_narrows(i);
                        }
                    }
                    lemma_at_least_narrows(symbols, 1, s3);
                    match at_least_outcome(symbols, 1, s3) {
                        Err(_) => {},
                        Ok((replacements, after_symbols)) => {
                            let s4 = unpadded(after_symbols);
                            lemma_unpadded_narrows(after_symbols);
                            match newline_outcome(s4) {
                                Err(_) => {},
                                Ok((_, rest)) => {
                                    lemma_unpadded_narrows(rest);
                                },
                            }
                        },
                    }
                },
            }
        },
    }
}

/// The symbols of a rule line are printable characters other than the
/// space, and at least one symbol stands after the `=>`.
pub proof fn lemma_rule_symbols_are_graphic(input: Seq<char>)
    ensures
        match rule_outcome(input) {
            Ok(((to_match, replacements), _)) => {
                &&& graphic(to_match)
                &&& replacements.len() >= 1
                &&& forall|i: int|
                    0 <= i < replacements.len() ==> graphic(#[trigger] replacements[i])
            },
            Err(_) => true,
        },
{
    let symbols = |i: Seq<char>| symbol_outcome(i);
    let printable = |c: char| graphic(c);
    assert(yielding(symbols, printable) && narrowing(symbols)) by {
        assert forall|i: Seq<char>|
            match #[trigger] symbols(i) {
                Ok((symbol, rest)) => printable(symbol) && is_suffix(rest, i),
                Err(_) => true,
            } by {
            lemma_symbol_narrows(i);
        }
    }
    let start = unpadded(without_leading(unpadded(input), |c: char| whitespace(c)));
    match symbol_outcome(start) {
        Err(_) => {},
        Ok((to_match, after_symbol)) => match literal_outcome("=>"@, unpadded(after_symbol)) {
            Err(_) => {},
            Ok((_, after_arrow)) => {
                lemma_at_least_values(symbols, printable, 1, unpadded(after_arrow));
                lemma_at_least_narrows(symbols, 1, unpadded(after_arrow));
            },
        },
    }
}

/// Matches one rule line.
pub struct RuleParser;

/// A parser that matches one rule line.
pub fn rule_parser() -> RuleParser {
    RuleParser
}

impl<'a> Parser<'a, Rule<char>> for RuleParser {
    open spec fn ready(&self) -> bool {
        true
    }

    open spec fn yields(&self, input: Seq<char>, value: Rule<char>, rest: Seq<char>) -> bool {
        rule_outcome(input) == Ok::<((char, Seq<char>), Seq<char>), Failure>((value@, rest))
    }

    open spec fn fails(&self, input: Seq<char>, failure: Failure) -> bool {
        rule_outcome(input) == Err::<((char, Seq<char>), Seq<char>), Failure>(failure)
    }

    proof fn lemma_narrows(&self, input: Seq<char>, value: Rule<char>, rest: Seq<char>) {
        lemma_rule_narrows(input);
    }

    fn parse(&self, input: &'a str) -> (result: ParseResult<'a, Rule<char>>) {
        let rem = skip_blanks(input);
        let rem = skip_whitespace(rem);
        let rem = skip_blanks(rem);
        let (to_match, rem) = match parse_symbol().parse(rem) {
            Ok(found) => found,
            Err(e) => {
                return Err(e);
            },
        };
        let rem = skip_blanks(rem);
        let arrow = literal("=>");
        let rem = match arrow.parse(rem) {
            Ok((_, rest)) => rest,
            Err(e) => {
                return Err(e);
            },
        };
        let rem = skip_blanks(rem);
        let symbols = at_least(1, parse_symbol());
        proof {
            let outcome = |i: Seq<char>| symbol_outcome(i);
            let inner = symbols.inner();
            assert(productive(&inner)) by {
                assert forall|i: Seq<char>, value: char, rest: Seq<char>| #[trigger]
                    inner.yields(i, value, rest) implies rest.len() < i.len() by {
                    lemma_symbol_narrows(i);
                }
            }
            lemma_at_least_decides(&symbols, |value: char| value, outcome);
        }
        let (replacements, rem) = match symbols.parse(rem) {
            Ok(found) => found,
            Err(e) => {
                return Err(e);
            },
        };
        assert(replacements@.map_values(|value: char| value) == replacements@);
        let rem = skip_blanks(rem);
        let rem = match newline().parse(rem) {
            Ok((_, rest)) => rest,
            Err(e) => {
                return Err(e);
            },
        };
        let rem = skip_blanks(rem);
        Ok((Rule::new(to_match, replacements), rem))
    }
}

/// A parser that matches any number of spaces.
pub fn spaces<'a>() -> (parser: AtLeast<'a, char, Character>)
    ensures
        parser.minimum() == 0,
        parser.inner().expected() == ' ',
        parser.ready(),
{
    many(character(' '))
}

/// The outcome of matching one or more rule lines.
pub open spec fn rules_outcome(input: Seq<char>) -> Outcome<Seq<(char, Seq<char>)>> {
    at_least_outcome(|i: Seq<char>| rule_outcome(i), 1, input)
}

/// A parse of rule lines leaves a suffix of the input, and less than the
/// input.
pub proof fn lemma_rules_narrow(input: Seq<char>)
    ensures
        match rules_outcome(input) {
            Ok((rules, rest)) => is_suffix(rest, input) && rest.len() < input.len() && rules.len()
                >= 1,
            Err(_) => true,
        },
{
    let lines = |i: Seq<char>| rule_outcome(i);
    assert(narrowing(lines) && consuming(lines)) by {
        assert forall|i: Seq<char>|
            match #[trigger] lines(i) {
                Ok((_, rest)) => is_suffix(rest, i) && rest.len() < i.len(),
                Err(_) => true,
            } by {
            lemma_rule_narrows(i);
        }
    }
    lemma_at_least_narrows(lines, 1, input);
}

/// Matches one or more rule lines and yields the rules.
pub fn parse_rule_lines(input: &str) -> (result: Result<(Vec<Rule<char>>, &str), ParseError>)
    ensures
        match result {
            Ok((rules, rest)) => rules_outcome(input@) == Ok::<
                (Seq<(char, Seq<char>)>, Seq<char>),
                Failure,
            >((rule_views(rules@), rest@)),
            Err(error) => rules_outcome(input@) == Err::<
                (Seq<(char, Seq<char>)>, Seq<char>),
                Failure,
            >(error@),
        },
{
    let lines = at_least(1, rule_parser());
    proof {
        let outcome = |i: Seq<char>| rule_outcome(i);
        let view = |rule: Rule<char>| rule@;
        let inner = lines.inner();
        assert(productive(&inner)) by {
            assert forall|i: Seq<char>, value: Rule<char>, rest: Seq<char>| #[trigger]
                inner.yields(i, value, rest) implies rest.len() < i.len() by {
                lemma_rule_narrows(i);
            }
        }
        lemma_at_least_decides(&lines, view, outcome);
    }
    lines.parse(input)
}

/// Parses one or more rule lines; what follows them is left unread.
pub fn parse_rules(input: &str) -> (result: Result<Vec<Rule<char>>, ParseError>)
    ensures
        match result {
            Ok(rules) => rules_outcome(input@) matches Ok((views, _)) && views == rule_views(
                rules@,
            ),
            Err(error) => rules_outcome(input@) == Err::<
                (Seq<(char, Seq<char>)>, Seq<char>),
                Failure,
            >(error@),
        },
{
    match parse_rule_lines(input) {
        Ok((rules, _)) => Ok(rules),
        Err(e) => Err(e),
    }
}

/// Matches one or more rule lines and yields the rule store that they fold
/// into.
pub struct RulesParser;

/// A parser that matches one or more rule lines.
pub fn rules_parser() -> RulesParser {
    RulesParser
}

impl<'a> Parser<'a, LSystemRules<char>> for RulesParser {
    open spec fn ready(&self) -> bool {
        true
    }

    open spec fn yields(
        &self,
        input: Seq<char>,
        value: LSystemRules<char>,
        rest: Seq<char>,
    ) -> bool {
        match rules_outcome(input) {
            Ok((rules, end)) => value@ == fold_rules(rules) && rest == end,
            Err(_) => false,
        }
    }

    open spec fn fails(&self, input: Seq<char>, failure: Failure) -> bool {
        rules_outcome(input) == Err::<(Seq<(char, Seq<char>)>, Seq<char>), Failure>(failure)
    }

    proof fn lemma_narrows(&self, input: Seq<char>, value: LSystemRules<char>, rest: Seq<char>) {
        lemma_rules_narrow(input);
    }

    fn parse(&self, input: &'a str) -> (result: ParseResult<'a, LSystemRules<char>>) {
        match parse_rule_lines(input) {
            Ok((rules, rest)) => Ok((LSystemRules::from_rules(rules), rest)),
            Err(e) => Err(e),
        }
    }
}

/// The keys of a configuration section, in the order in which a line is
/// tried against them.
#[derive(Debug, Clone, Copy, PartialEq, Eq, Structural)]
pub enum ConfigKey {
    StartingStep,
    StepMultiplier,
    StartingAngle,
    AngleMultiplier,
    StartingLineWidth,
    LineWidthMultiplier,
    BackgroundColor,
    PenColor,
}

/// All the keys, in the order in which a line is tried against them.
pub open spec fn config_keys() -> Seq<ConfigKey> {
    seq![
        ConfigKey::StartingStep,
        ConfigKey::StepMultiplier,
        ConfigKey::StartingAngle,
        ConfigKey::AngleMultiplier,
        ConfigKey::StartingLineWidth,
        ConfigKey::LineWidthMultiplier,
        ConfigKey::BackgroundColor,
        ConfigKey::PenColor,
    ]
}

/// The message of the failure for a value that is no decimal literal.
pub open spec fn invalid_value_message(text: Seq<char>) -> Seq<char> {
    "Invalid config value: '"@ + text + "\n           '"@
}

impl ConfigKey {
    /// The key as it is written.
    pub open spec fn name(self) -> Seq<char> {
        match self {
            ConfigKey::StartingStep => "starting_step"@,
            ConfigKey::StepMultiplier => "step_multiplier"@,
            ConfigKey::StartingAngle => "starting_angle"@,
            ConfigKey::AngleMultiplier => "angle_multiplier"@,
            ConfigKey::StartingLineWidth => "starting_line_width"@,
            ConfigKey::LineWidthMultiplier => "line_width_multiplier"@,
            ConfigKey::BackgroundColor => "background_color"@,
            ConfigKey::PenColor => "pen_color"@,
        }
    }

    /// The value of the key is a decimal.
    pub open spec fn numeric(self) -> bool {
        !(self is BackgroundColor || self is PenColor)
    }

    /// The item that gives the key the value `text`.
    pub open spec fn item(self, text: Seq<char>) -> ConfigItemView {
        match self {
            ConfigKey::StartingStep => ConfigItemView::StartingStep(text),
            ConfigKey::StepMultiplier => ConfigItemView::StepMultiplier(text),
            ConfigKey::StartingAngle => ConfigItemView::StartingAngle(text),
            ConfigKey::AngleMultiplier => ConfigItemView::AngleMultiplier(text),
            ConfigKey::StartingLineWidth => ConfigItemView::StartingLineWidth(text),
            ConfigKey::LineWidthMultiplier => ConfigItemView::LineWidthMultiplier(text),
            ConfigKey::BackgroundColor => ConfigItemView::BackgroundColor(text),
            ConfigKey::PenColor => ConfigItemView::PenColor(text),
        }
    }

    /// The key that `item` gives a value.
    pub open spec fn of(item: ConfigItemView) -> ConfigKey {
        match item {
            ConfigItemView::StartingStep(_) => ConfigKey::StartingStep,
            ConfigItemView::StepMultiplier(_) => ConfigKey::StepMultiplier,
            ConfigItemView::StartingAngle(_) => ConfigKey::StartingAngle,
            ConfigItemView::AngleMultiplier(_) => ConfigKey::AngleMultiplier,
            ConfigItemView::StartingLineWidth(_) => ConfigKey::StartingLineWidth,
            ConfigItemView::LineWidthMultiplier(_) => ConfigKey::LineWidthMultiplier,
            ConfigItemView::BackgroundColor(_) => ConfigKey::BackgroundColor,
            ConfigItemView::PenColor(_) => ConfigKey::PenColor,
        }
    }

    /// The value that `item` gives its key.
    pub open spec fn value(item: ConfigItemView) -> Seq<char> {
        match item {
            ConfigItemView::StartingStep(text) => text,
            ConfigItemView::StepMultiplier(text) => text,
            ConfigItemView::StartingAngle(text) => text,
            ConfigItemView::AngleMultiplier(text) => text,
            ConfigItemView::StartingLineWidth(text) => text,
            ConfigItemView::LineWidthMultiplier(text) => text,
            ConfigItemView::BackgroundColor(text) => text,
            ConfigItemView::PenColor(text) => text,
        }
    }

    /// The value that the key has in `config`.
    pub open spec fn field(self, config: RendererConfigView) -> Seq<char> {
        match self {
            ConfigKey::StartingStep => config.starting_step,
            ConfigKey::StepMultiplier => config.step_multiplier,
            ConfigKey::StartingAngle => config.starting_angle,
            ConfigKey::AngleMultiplier => config.angle_multiplier,
            ConfigKey::StartingLineWidth => config.starting_line_width,
            ConfigKey::LineWidthMultiplier => config.line_width_multiplier,
            ConfigKey::BackgroundColor => config.background_color,
            ConfigKey::PenColor => config.pen_color,
        }
    }

    /// The item that gives the key the value `text`, or the failure for a
    /// key whose value has to be a decimal literal and is none.
    pub open spec fn convert(self, text: Seq<char>) -> Result<ConfigItemView, Failure> {
        if self.numeric() && !is_decimal(text) {
            Err(Failure::Custom(invalid_value_message(text)))
        } else {
            Ok(self.item(text))
        }
    }

    /// The key as it is written.
    pub fn as_str(&self) -> (name: &'static str)
        ensures
            name@ == self.name(),
    {
        match self {
            ConfigKey::StartingStep => "starting_step",
            ConfigKey::StepMultiplier => "step_multiplier",
            ConfigKey::StartingAngle => "starting_angle",
            ConfigKey::AngleMultiplier => "angle_multiplier",
            ConfigKey::StartingLineWidth => "starting_line_width",
            ConfigKey::LineWidthMultiplier => "line_width_multiplier",
            ConfigKey::BackgroundColor => "background_color",
            ConfigKey::PenColor => "pen_color",
        }
    }

    /// Makes the item that gives the key the value `text`.
    pub fn make(&self, text: &str) -> (result: Result<ConfigItem, ParseError>)
        ensures
            match result {
                Ok(item) => self.convert(text@) == Ok::<ConfigItemView, Failure>(item@),
                Err(error) => self.convert(text@) == Err::<ConfigItemView, Failure>(error@),
            },
    {
        match self {
            ConfigKey::BackgroundColor => Ok(ConfigItem::BackgroundColor(text.to_owned())),
            ConfigKey::PenColor => Ok(ConfigItem::PenColor(text.to_owned())),
            _ => match Decimal::parse(text) {
                Some(value) => Ok(
                    match self {
                        ConfigKey::StartingStep => ConfigItem::StartingStep(value),
                        ConfigKey::StepMultiplier => ConfigItem::StepMultiplier(value),
                        ConfigKey::StartingAngle => ConfigItem::StartingAngle(value),
                        ConfigKey::AngleMultiplier => ConfigItem::AngleMultiplier(value),
                        ConfigKey::StartingLineWidth => ConfigItem::StartingLineWidth(value),
                        _ => ConfigItem::LineWidthMultiplier(value),
                    },
                ),
                None => {
                    let mut message = "Invalid config value: '".to_owned();
                    message.append(text);
                    message.append("\n           '");
                    Err(ParseError::Custom(message))
                },
            },
        }
    }
}

/// Of the items that give a key a value the last one stands, wherever the
/// items for other keys are.
pub proof fn lemma_with_items_last_wins(
    config: RendererConfigView,
    items: Seq<ConfigItemView>,
    last: int,
)
    requires
        0 <= last < items.len(),
        forall|later: int|
            last < later < items.len() ==> ConfigKey::of(#[trigger] items[later]) != ConfigKey::of(
                items[last],
            ),
    ensures
        ConfigKey::of(items[last]).field(with_items(config, items)) == ConfigKey::value(
            items[last],
        ),
    decreases items.len(),
{
    if last < items.len() - 1 {
        lemma_with_items_last_wins(config, items.drop_last(), last);
    }
}

/// A key that no item gives a value keeps the value it had.
pub proof fn lemma_with_items_keeps_others(
    config: RendererConfigView,
    items: Seq<ConfigItemView>,
    key: ConfigKey,
)
    requires
        forall|i: int| 0 <= i < items.len() ==> ConfigKey::of(#[trigger] items[i]) != key,
    ensures
        key.field(with_items(config, items)) == key.field(config),
    decreases items.len(),
{
    if items.len() > 0 {
        lemma_with_items_keeps_others(config, items.drop_last(), key);
    }
}

/// The outcome of matching one or more digits.
pub open spec fn digits_outcome(input: Seq<char>) -> Outcome<Seq<char>> {
    at_least_outcome(|i: Seq<char>| any_outcome(|c: char| digit(c), i), 1, input)
}

/// The outcome of matching a decimal literal at the start of the input: one
/// or more digits, a point, and one or more digits.
pub open spec fn decimal_outcome(input: Seq<char>) -> Outcome<Seq<char>> {
    match digits_outcome(input) {
        Err(failure) => Err(failure),
        Ok((_, after_whole)) => match literal_outcome("."@, after_whole) {
            Err(failure) => Err(failure),
            Ok((_, after_point)) => match digits_outcome(after_point) {
                Err(failure) => Err(failure),
                Ok((_, rest)) => Ok((input.take(input.len() - rest.len()), rest)),
            },
        },
    }
}

/// What matches as a decimal literal is a decimal literal, and what is left
/// after it is a proper suffix of the input.
pub proof fn lemma_decimal_outcome_is_decimal(input: Seq<char>)
    ensures
        match decimal_outcome(input) {
            Ok((text, rest)) => is_decimal(text) && is_suffix(rest, input) && rest.len()
                < input.len() && input == text + rest,
            Err(_) => true,
        },
{
    let class = |c: char| digit(c);
    reveal_strlit(".");
    lemma_at_least_one_any(class, input);
    lemma_leading_run(input, class);
    match digits_outcome(input) {
        Err(_) => {},
        Ok((_, after_whole)) => {
            let whole = leading(input, class) as int;
            match literal_outcome("."@, after_whole) {
                Err(_) => {},
                Ok((_, after_point)) => {
                    assert(after_whole.subrange(0, 1)[0] == after_whole[0]);
                    lemma_at_least_one_any(class, after_point);
                    lemma_leading_run(after_point, class);
                    match digits_outcome(after_point) {
                        Err(_) => {},
                        Ok((_, rest)) => {
                            let fraction = leading(after_point, class) as int;
                            let text = input.take(whole + 1 + fraction);
                            assert forall|i: int|
                                0 <= i < text.len() && i != whole implies digit(
                                #[trigger] text[i],
                            ) by {
                                if i > whole {
                                    assert(text[i] == after_point[i - whole - 1]);
                                }
                            }
                            assert(input == text + rest);
                        },
                    }
                },
            }
        },
    }
}

/// Matches a decimal literal at the start of the input.
pub struct DecimalParser;

/// A parser that matches a decimal literal.
pub fn decimal() -> DecimalParser {
    DecimalParser
}

impl<'a> Parser<'a, Decimal> for DecimalParser {
    open spec fn ready(&self) -> bool {
        true
    }

    open spec fn yields(&self, input: Seq<char>, value: Decimal, rest: Seq<char>) -> bool {
        decimal_outcome(input) == Ok::<(Seq<char>, Seq<char>), Failure>((value@, rest))
    }

    open spec fn fails(&self, input: Seq<char>, failure: Failure) -> bool {
        decimal_outcome(input) == Err::<(Seq<char>, Seq<char>), Failure>(failure)
    }

    proof fn lemma_narrows(&self, input: Seq<char>, value: Decimal, rest: Seq<char>) {
        lemma_decimal_outcome_is_decimal(input);
    }

    fn parse(&self, input: &'a str) -> (result: ParseResult<'a, Decimal>) {
        let ghost class = |c: char| digit(c);
        let ghost one = |i: Seq<char>| any_outcome(class, i);
        let ghost identity = |value: char| value;
        let ghost digits = |i: Seq<char>| at_least_outcome(one, 1, i);
        let ghost point = |i: Seq<char>| literal_outcome("."@, i);
        let accepts_whole = |c: char| -> (accepted: bool)
            ensures
                accepted == digit(c),
            {
                is_digit(c)
            };
        let accepts_fraction = |c: char| -> (accepted: bool)
            ensures
                accepted == digit(c),
            {
                is_digit(c)
            };
        let whole_digit = any(accepts_whole);
        let fraction_digit = any(accepts_fraction);
        proof {
            lemma_any_decides(&whole_digit, class);
            lemma_any_decides(&fraction_digit, class);
        }
        let whole = at_least(1, whole_digit);
        let fraction = at_least(1, fraction_digit);
        let dot = literal(".");
        let ghost digits_view = |values: Vec<char>| values@.map_values(identity);
        let ghost text_view = |value: &'a str| value@;
        proof {
            lemma_at_least_decides(&whole, identity, one);
            lemma_at_least_decides(&fraction, identity, one);
        }
        let front = sequence(whole, dot);
        let ghost front_view = |value: (Vec<char>, &'a str)|
            (digits_view(value.0), text_view(value.1));
        let ghost front_outcome = |i: Seq<char>| sequence_outcome(digits, point, i);
        proof {
            lemma_sequence_decides(&front, digits_view, digits, text_view, point);
        }
        let parts = sequence(front, fraction);
        let ghost parts_view = |value: ((Vec<char>, &'a str), Vec<char>)|
            (front_view(value.0), digits_view(value.1));
        let ghost parts_outcome = |i: Seq<char>| sequence_outcome(front_outcome, digits, i);
        proof {
            lemma_sequence_decides(&parts, front_view, front_outcome, digits_view, digits);
        }
        let decimal_str = recognize(parts);
        proof {
            lemma_recognize_decides(&decimal_str, parts_view, parts_outcome);
            lemma_decimal_outcome_is_decimal(input@);
        }
        match decimal_str.parse(input) {
            Ok((text, rest)) => match Decimal::parse(text) {
                Some(value) => Ok((value, rest)),
                None => Err(ParseError::Custom("invalid decimal".to_owned())),
            },
            Err(e) => Err(e),
        }
    }
}

/// The outcome of matching the value of a configuration line: what is left
/// of the line, without the whitespace around it.
pub open spec fn value_outcome(input: Seq<char>) -> Outcome<Seq<char>> {
    let count = leading(input, |c: char| within_line(c)) as int;
    if input.len() == 0 {
        Err(Failure::EndOfInput)
    } else if count == 0 {
        Err(Failure::ExpectingPredicate)
    } else {
        Ok((trimmed(input.take(count)), input.skip(count)))
    }
}

/// The characters up to the end of the line, matched one by one, are what
/// `value_outcome` trims.
proof fn lemma_value_is_line(input: Seq<char>)
    ensures
        match at_least_outcome(
            |i: Seq<char>| any_outcome(|c: char| within_line(c), i),
            1,
            input,
        ) {
            Ok((_, rest)) => {
                let count = leading(input, |c: char| within_line(c)) as int;
                &&& 0 < count <= input.len()
                &&& rest == input.skip(count)
                &&& value_outcome(input) == Ok::<(Seq<char>, Seq<char>), Failure>(
                    (trimmed(input.take(count)), rest),
                )
            },
            Err(failure) => value_outcome(input) == Err::<(Seq<char>, Seq<char>), Failure>(
                failure,
            ),
        },
{
    lemma_at_least_one_any(|c: char| within_line(c), input);
}

/// Matches the value of a configuration line.
pub fn config_value(input: &str) -> (result: Result<(&str, &str), ParseError>)
    ensures
        match result {
            Ok((value, rest)) => value_outcome(input@) == Ok::<(Seq<char>, Seq<char>), Failure>(
                (value@, rest@),
            ),
            Err(error) => value_outcome(input@) == Err::<(Seq<char>, Seq<char>), Failure>(error@),
        },
{
    let accepts = |c: char| -> (accepted: bool)
        ensures
            accepted == within_line(c),
        {
            is_within_line(c)
        };
    let in_line = any(accepts);
    let ghost class = |c: char| within_line(c);
    let ghost outcome = |i: Seq<char>| any_outcome(class, i);
    proof {
        lemma_any_decides(&in_line, class);
    }
    let line = at_least(1, in_line);
    let ghost run = |i: Seq<char>| at_least_outcome(outcome, 1, i);
    proof {
        lemma_at_least_decides(&line, |value: char| value, outcome);
        assert forall|i: Seq<char>, value: Vec<char>, rest: Seq<char>| #[trigger]
            line.yields(i, value, rest) implies run(i) == Ok::<(Seq<char>, Seq<char>), Failure>(
            (value@, rest),
        ) by {
            assert(value@.map_values(|v: char| v) == value@);
        }
    }
    let recognize_value = recognize(line);
    proof {
        lemma_recognize_decides(&recognize_value, |values: Vec<char>| values@, run);
        lemma_value_is_line(input@);
    }
    match recognize_value.parse(input) {
        Ok((value, rest)) => Ok((trim(value), rest)),
        Err(e) => Err(e),
    }
}

/// The outcome of matching the line that gives `key` a value: the key, `=`,
/// the value, and a line break, with optional spaces and tabs around each of
/// them.
pub open spec fn config_item_outcome(key: ConfigKey, input: Seq<char>) -> Outcome<ConfigItemView> {
    match literal_outcome(key.name(), unpadded(input)) {
        Err(failure) => Err(failure),
        Ok((_, after_key)) => match literal_outcome("="@, unpadded(after_key)) {
            Err(failure) => Err(failure),
            Ok((_, after_equals)) => match value_outcome(unpadded(after_equals)) {
                Err(failure) => Err(failure),
                Ok((text, after_value)) => match key.convert(text) {
                    Err(failure) => Err(failure),
                    Ok(item) => match newline_outcome(unpadded(after_value)) {
                        Err(failure) => Err(failure),
                        Ok((_, rest)) => Ok((item, unpadded(rest))),
                    },
                },
            },
        },
    }
}

/// A parse of a configuration line leaves a suffix of the input, and less
/// than the input.
pub proof fn lemma_config_item_narrows(key: ConfigKey, input: Seq<char>)
    ensures
        match config_item_outcome(key, input) {
            Ok((_, rest)) => is_suffix(rest, input) && rest.len() < input.len(),
            Err(_) => true,
        },
{
    let s0 = unpadded(input);
    lemma_unpadded_narrows(input);
    match literal_outcome(key.name(), s0) {
        Err(_) => {},
        Ok((_, after_key)) => {
            let s1 = unpadded(after_key);
            lemma_unpadded_narrows(after_key);
            match literal_outcome("="@, s1) {
                Err(_) => {},
                Ok((_, after_equals)) => {
                    let s2 = unpadded(after_equals);
                    lemma_unpadded_narrows(after_equals);
                    lemma_leading_run(s2, |c: char| within_line(c));
                    match value_outcome(s2) {
                        Err(_) => {},
                        Ok((text, after_value)) => {
                            let s3 = unpadded(after_value);
                            match newline_outcome(s3) {
                                Err(_) => {},
                                Ok((_, rest)) => {
                                    lemma_unpadded_narrows(rest);
                                },
                            }
                        },
                    }
                },
            }
        },
    }
}

/// Matches the line that gives one key a value.
pub struct ConfigItemParser {
    key: ConfigKey,
}

impl ConfigItemParser {
    /// The key that the line has to give a value.
    pub closed spec fn key(&self) -> ConfigKey {
        self.key
    }
}

/// A parser that matches the line that gives `key` a value.
pub fn config_item(key: ConfigKey) -> (parser: ConfigItemParser)
    ensures
        parser.key() == key,
{
    ConfigItemParser { key }
}

impl<'a> Parser<'a, ConfigItem> for ConfigItemParser {
    open spec fn ready(&self) -> bool {
        true
    }

    open spec fn yields(&self, input: Seq<char>, value: ConfigItem, rest: Seq<char>) -> bool {
        config_item_outcome(self.key(), input) == Ok::<(ConfigItemView, Seq<char>), Failure>(
            (value@, rest),
        )
    }

    open spec fn fails(&self, input: Seq<char>, failure: Failure) -> bool {
        config_item_outcome(self.key(), input) == Err::<(ConfigItemView, Seq<char>), Failure>(
            failure,
        )
    }

    proof fn lemma_narrows(&self, input: Seq<char>, value: ConfigItem, rest: Seq<char>) {
        lemma_config_item_narrows(self.key(), input);
    }

    fn parse(&self, input: &'a str) -> (result: ParseResult<'a, ConfigItem>) {
        let rem = skip_blanks(input);
        let name = literal(self.key.as_str());
        let rem = match name.parse(rem) {
            Ok((_, rest)) => rest,
            Err(e) => {
                return Err(e);
            },
        };
        let rem = skip_blanks(rem);
        let equals = literal("=");
        let rem = match equals.parse(rem) {
            Ok((_, rest)) => rest,
            Err(e) => {
                return Err(e);
            },
        };
        let rem = skip_blanks(rem);
        let (text, rem) = match config_value(rem) {
            Ok(found) => found,
            Err(e) => {
                return Err(e);
            },
        };
        let item = match self.key.make(text) {
            Ok(item) => item,
            Err(e) => {
                return Err(e);
            },
        };
        let rem = skip_blanks(rem);
        let rem = match newline().parse(rem) {
            Ok((_, rest)) => rest,
            Err(e) => {
                return Err(e);
            },
        };
        let rem = skip_blanks(rem);
        Ok((item, rem))
    }
}

/// The outcomes of the configuration lines of the keys, in the order in
/// which a line is tried against them.
pub open spec fn config_item_outcomes() -> Seq<spec_fn(Seq<char>) -> Outcome<ConfigItemView>> {
    config_keys().map_values(|key: ConfigKey| (|i: Seq<char>| config_item_outcome(key, i)))
}

/// The outcome of matching one configuration line: that of the first key
/// whose line matches.
pub open spec fn config_line_outcome(input: Seq<char>) -> Outcome<ConfigItemView> {
    first_outcome(config_item_outcomes(), 0, input)
}

/// The parameters that the leading configuration lines of the input give,
/// and what is left after the last line that matches.  The first line that
/// matches no key, or that gives a key no value it can have, ends the
/// section.
pub open spec fn config_outcome(input: Seq<char>) -> (RendererConfigView, Seq<char>) {
    let (items, rest) = repeated(|i: Seq<char>| config_line_outcome(i), input);
    (with_items(default_config(), items), rest)
}

/// A section without configuration lines gives the defaults.
pub proof fn lemma_empty_section_gives_defaults(input: Seq<char>)
    requires
        config_line_outcome(input) is Err,
    ensures
        config_outcome(input) == (default_config(), input),
{
}

/// A parse of a configuration line of any key leaves a suffix of the input,
/// and less than the input.
proof fn lemma_config_line_narrows(input: Seq<char>)
    ensures
        match config_line_outcome(input) {
            Ok((_, rest)) => is_suffix(rest, input) && rest.len() < input.len(),
            Err(_) => true,
        },
{
    let outcomes = config_item_outcomes();
    reveal_with_fuel(first_outcome, 9);
    assert forall|k: int| 0 <= k < 8 implies match #[trigger] outcomes[k](input) {
        Ok((_, rest)) => is_suffix(rest, input) && rest.len() < input.len(),
        Err(_) => true,
    } by {
        lemma_config_item_narrows(config_keys()[k], input);
    }
}

/// What is left after the configuration lines is a suffix of the input.
pub proof fn lemma_config_narrows(input: Seq<char>)
    ensures
        is_suffix(config_outcome(input).1, input),
{
    let lines = |i: Seq<char>| config_line_outcome(i);
    assert(narrowing(lines)) by {
        assert forall|i: Seq<char>|
            match #[trigger] lines(i) {
                Ok((_, rest)) => is_suffix(rest, i),
                Err(_) => true,
            } by {
            lemma_config_line_narrows(i);
        }
    }
    lemma_repeated_narrows(lines, input);
}

/// Matches the configuration lines at the start of the input and yields the
/// defaults with their values put in; never fails.
pub fn parse_config(input: &str) -> (result: Result<(RendererConfig, &str), ParseError>)
    ensures
        result matches Ok((config, rest)) && config_outcome(input@) == (config@, rest@),
{
    let mut options: Vec<ConfigItemParser> = Vec::new();
    options.push(config_item(ConfigKey::StartingStep));
    options.push(config_item(ConfigKey::StepMultiplier));
    options.push(config_item(ConfigKey::StartingAngle));
    options.push(config_item(ConfigKey::AngleMultiplier));
    options.push(config_item(ConfigKey::StartingLineWidth));
    options.push(config_item(ConfigKey::LineWidthMultiplier));
    options.push(config_item(ConfigKey::BackgroundColor));
    options.push(config_item(ConfigKey::PenColor));
    let line = one_of(options);
    let ghost view = |item: ConfigItem| item@;
    let ghost line_outcome = |i: Seq<char>| config_line_outcome(i);
    proof {
        let outcomes = config_item_outcomes();
        lemma_one_of_decides(&line, view, outcomes);
        assert(productive(&line)) by {
            assert forall|i: Seq<char>, value: ConfigItem, rest: Seq<char>| #[trigger]
                line.yields(i, value, rest) implies rest.len() < i.len() by {
                lemma_config_line_narrows(i);
            }
        }
    }
    let items_parser = many(line);
    proof {
        lemma_at_least_decides(&items_parser, view, line_outcome);
    }
    match items_parser.parse(input) {
        Ok((items, rest)) => Ok((RendererConfig::from_items(items), rest)),
        Err(e) => Err(e),
    }
}

/// What a definition comes to as specifications see it: the rendering
/// parameters and the rules in the order in which they are written.
pub type DefinitionView = (RendererConfigView, Seq<(char, Seq<char>)>);

/// The outcome of matching a definition: the header `render:`, a line
/// break, the configuration lines, optional blank lines, the header
/// `rules:`, a line break, and one or more rule lines, with optional spaces
/// and tabs around each of them.
pub open spec fn l_system_outcome(input: Seq<char>) -> Outcome<DefinitionView> {
    match literal_outcome("render"@, unpadded(input)) {
        Err(failure) => Err(failure),
        Ok((_, s1)) => match literal_outcome(":"@, unpadded(s1)) {
            Err(failure) => Err(failure),
            Ok((_, s2)) => match newline_outcome(unpadded(s2)) {
                Err(failure) => Err(failure),
                Ok((_, s3)) => {
                    let (config, s4) = config_outcome(unpadded(s3));
                    let s5 = without_leading(unpadded(s4), |c: char| whitespace(c));
                    match literal_outcome("rules"@, unpadded(s5)) {
                        Err(failure) => Err(failure),
                        Ok((_, s6)) => match literal_outcome(":"@, unpadded(s6)) {
                            Err(failure) => Err(failure),
                            Ok((_, s7)) => match newline_outcome(unpadded(s7)) {
                                Err(failure) => Err(failure),
                                Ok((_, s8)) => match rules_outcome(unpadded(s8)) {
                                    Err(failure) => Err(failure),
                                    Ok((rules, s9)) => Ok(((config, rules), unpadded(s9))),
                                },
                            },
                        },
                    }
                },
            },
        },
    }
}

/// A parse of a definition leaves a suffix of the input.
pub proof fn lemma_l_system_narrows(input: Seq<char>)
    ensures
        match l_system_outcome(input) {
            Ok((_, rest)) => is_suffix(rest, input),
            Err(_) => true,
        },
{
    let s0 = unpadded(input);
    lemma_unpadded_narrows(input);
    match literal_outcome("render"@, s0) {
        Err(_) => {},
        Ok((_, s1)) => {
            let t1 = unpadded(s1);
            lemma_unpadded_narrows(s1);
            match literal_outcome(":"@, t1) {
                Err(_) => {},
                Ok((_, s2)) => {
                    let t2 = unpadded(s2);
                    lemma_unpadded_narrows(s2);
                    match newline_outcome(t2) {
                        Err(_) => {},
                        Ok((_, s3)) => {
                            let t3 = unpadded(s3);
                            lemma_unpadded_narrows(s3);
                            let (config, s4) = config_outcome(t3);
                            lemma_config_narrows(t3);
                            let t4 = unpadded(s4);
                            lemma_unpadded_narrows(s4);
                            let s5 = without_leading(t4, |c: char| whitespace(c));
                            lemma_whitespace_narrows(t4);
                            let t5 = unpadded(s5);
                            lemma_unpadded_narrows(s5);
                            lemma_l_system_tail_narrows(t5);
                            match l_system_tail_outcome(t5) {
                                Err(_) => {},
                                Ok((_, rest)) => {
                                },
                            }
                        },
                    }
                },
            }
        },
    }
}

/// The outcome of matching what follows the configuration lines of a
/// definition, from the header `rules:` on.
pub open spec fn l_system_tail_outcome(input: Seq<char>) -> Outcome<Seq<(char, Seq<char>)>> {
    match literal_outcome("rules"@, input) {
        Err(failure) => Err(failure),
        Ok((_, s6)) => match literal_outcome(":"@, unpadded(s6)) {
            Err(failure) => Err(failure),
            Ok((_, s7)) => match newline_outcome(unpadded(s7)) {
                Err(failure) => Err(failure),
                Ok((_, s8)) => match rules_outcome(unpadded(s8)) {
                    Err(failure) => Err(failure),
                    Ok((rules, s9)) => Ok((rules, unpadded(s9))),
                },
            },
        },
    }
}

/// A parse of a definition from the header `rules:` on leaves a suffix of
/// the input.
proof fn lemma_l_system_tail_narrows(input: Seq<char>)
    ensures
        match l_system_tail_outcome(input) {
            Ok((_, rest)) => is_suffix(rest, input),
            Err(_) => true,
        },
{
    match literal_outcome("rules"@, input) {
        Err(_) => {},
        Ok((_, s6)) => {
            let t6 = unpadded(s6);
            lemma_unpadded_narrows(s6);
            match literal_outcome(":"@, t6) {
                Err(_) => {},
                Ok((_, s7)) => {
                    let t7 = unpadded(s7);
                    lemma_unpadded_narrows(s7);
                    match newline_outcome(t7) {
                        Err(_) => {},
                        Ok((_, s8)) => {
                            let t8 = unpadded(s8);
                            lemma_unpadded_narrows(s8);
                            lemma_rules_narrow(t8);
                            match rules_outcome(t8) {
                                Err(_) => {},
                                Ok((rules, s9)) => {
                                    lemma_unpadded_narrows(s9);
                                },
                            }
                        },
                    }
                },
            }
        },
    }
}

/// Matches a definition and yields the L-system that it defines.
pub struct LSystemParser;

/// A parser that matches a definition.
pub fn l_system_parser() -> LSystemParser {
    LSystemParser
}

impl<'a> Parser<'a, LSystem<char>> for LSystemParser {
    open spec fn ready(&self) -> bool {
        true
    }

    open spec fn yields(&self, input: Seq<char>, value: LSystem<char>, rest: Seq<char>) -> bool {
        match l_system_outcome(input) {
            Ok(((config, rules), end)) => {
                &&& value.render_config@ == config
                &&& value.rules@ == fold_rules(rules)
                &&& rest == end
            },
            Err(_) => false,
        }
    }

    open spec fn fails(&self, input: Seq<char>, failure: Failure) -> bool {
        l_system_outcome(input) == Err::<(DefinitionView, Seq<char>), Failure>(failure)
    }

    proof fn lemma_narrows(&self, input: Seq<char>, value: LSystem<char>, rest: Seq<char>) {
        lemma_l_system_narrows(input);
    }

    fn parse(&self, input: &'a str) -> (result: ParseResult<'a, LSystem<char>>) {
        let rem = skip_blanks(input);
        let render = literal("render");
        let colon = literal(":");
        let rules_header = literal("rules");
        let rem = match render.parse(rem) {
            Ok((_, rest)) => rest,
            Err(e) => {
                return Err(e);
            },
        };
        let rem = skip_blanks(rem);
        let rem = match colon.parse(rem) {
            Ok((_, rest)) => rest,
            Err(e) => {
                return Err(e);
            },
        };
        let rem = skip_blanks(rem);
        let rem = match newline().parse(rem) {
            Ok((_, rest)) => rest,
            Err(e) => {
                return Err(e);
            },
        };
        let rem = skip_blanks(rem);
        let (render_config, rem) = match parse_config(rem) {
            Ok(found) => found,
            Err(e) => {
                return Err(e);
            },
        };
        let rem = skip_blanks(rem);
        let rem = skip_whitespace(rem);
        let rem = skip_blanks(rem);
        let rem = match rules_header.parse(rem) {
            Ok((_, rest)) => rest,
            Err(e) => {
                return Err(e);
            },
        };
        let rem = skip_blanks(rem);
        let rem = match colon.parse(rem) {
            Ok((_, rest)) => rest,
            Err(e) => {
                return Err(e);
            },
        };
        let rem = skip_blanks(rem);
        let rem = match newline().parse(rem) {
            Ok((_, rest)) => rest,
            Err(e) => {
                return Err(e);
            },
        };
        let rem = skip_blanks(rem);
        let (rules, rem) = match rules_parser().parse(rem) {
            Ok(found) => found,
            Err(e) => {
                return Err(e);
            },
        };
        let rem = skip_blanks(rem);
        Ok((LSystem { rules, render_config }, rem))
    }
}

/// What a whole text defines: the rendering parameters and the rule store
/// of the definition that the text is, or the failure.  A text that holds
/// more than a definition fails with `ExpectingEOF`.
pub open spec fn definition_outcome(input: Seq<char>) -> Result<
    (RendererConfigView, Map<char, Seq<char>>),
    Failure,
> {
    match l_system_outcome(input) {
        Ok(((config, rules), rest)) => if rest.len() == 0 {
            Ok((config, fold_rules(rules)))
        } else {
            Err(Failure::ExpectingEOF)
        },
        Err(failure) => Err(failure),
    }
}

/// Parses the text of a definition.  Any failure fails the whole: no part of
/// a definition is accepted.
pub fn parse_l_system(input: &str) -> (result: Result<LSystem<char>, ParseError>)
    ensures
        match result {
            Ok(system) => definition_outcome(input@) == Ok::<
                (RendererConfigView, Map<char, Seq<char>>),
                Failure,
            >((system.render_config@, system.rules@)),
            Err(error) => definition_outcome(input@) == Err::<
                (RendererConfigView, Map<char, Seq<char>>),
                Failure,
            >(error@),
        },
{
    let whole = complete(l_system_parser());
    match whole.parse(input) {
        Ok((system, _)) => Ok(system),
        Err(e) => Err(e),
    }
}

} // verus!
