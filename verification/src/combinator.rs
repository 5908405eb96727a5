//! Parser combinators over text.
//!
//! A parser takes the input that is left and gives either a value with the
//! input that is left after it, or a failure.  It never changes the input: what
//! is left after a parse is a suffix of what was handed in.
//!
//! What a parser does is stated by two relations over the characters of the
//! input, `yields` and `fails`.  They are relations, not functions, since a
//! parser may be built over a closure of which only a contract is known.

use crate::text::{
    blank, drop_chars, first_char, lemma_leading_run, skip_blanks, starts_with, take_chars,
    without_leading,
};
use std::marker::PhantomData;
use vstd::prelude::*;
use vstd::std_specs::convert::IntoSpec;
use vstd::string::*;

verus! {

/// Why a parse failed.
#[derive(Debug, PartialEq)]
pub enum ParseError {
    IO,
    ExpectingCharacter(char),
    ExpectingEOF,
    ExpectingString(String),
    ExpectingPredicate,
    EndOfInput,
    ExpectingOneOfToParse,
    GenericError,
    Custom(String),
}

/// A `ParseError` as specifications see it, with texts as sequences of
/// characters.
pub enum Failure {
    IO,
    ExpectingCharacter(char),
    ExpectingEOF,
    ExpectingString(Seq<char>),
    ExpectingPredicate,
    EndOfInput,
    ExpectingOneOfToParse,
    GenericError,
    Custom(Seq<char>),
}

impl View for ParseError {
    type V = Failure;

    open spec fn view(&self) -> Failure {
        match self {
            ParseError::IO => Failure::IO,
            ParseError::ExpectingCharacter(c) => Failure::ExpectingCharacter(*c),
            ParseError::ExpectingEOF => Failure::ExpectingEOF,
            ParseError::ExpectingString(s) => Failure::ExpectingString(s@),
            ParseError::ExpectingPredicate => Failure::ExpectingPredicate,
            ParseError::EndOfInput => Failure::EndOfInput,
            ParseError::ExpectingOneOfToParse => Failure::ExpectingOneOfToParse,
            ParseError::GenericError => Failure::GenericError,
            ParseError::Custom(s) => Failure::Custom(s@),
        }
    }
}

pub type ParseResult<'a, T> = Result<(T, &'a str), ParseError>;

/// `rest` is what is left of `input` after some of its leading characters
/// were consumed.
pub open spec fn is_suffix(rest: Seq<char>, input: Seq<char>) -> bool {
    rest.len() <= input.len() && rest =~= input.skip(input.len() - rest.len())
}

/// A parser of values of type `T`.
pub trait Parser<'a, T> {
    /// The parser can be run: the contracts of the closures it holds let
    /// them be called wherever a parse calls them.
    spec fn ready(&self) -> bool;

    /// On `input` the parser may succeed with `value` and leave `rest`.
    spec fn yields(&self, input: Seq<char>, value: T, rest: Seq<char>) -> bool;

    /// On `input` the parser may fail with `failure`.
    spec fn fails(&self, input: Seq<char>, failure: Failure) -> bool;

    /// A parse only narrows the input.
    proof fn lemma_narrows(&self, input: Seq<char>, value: T, rest: Seq<char>)
        requires
            self.yields(input, value, rest),
        ensures
            is_suffix(rest, input),
    ;

    /// Runs the parser on `input`.
    fn parse(&self, input: &'a str) -> (result: ParseResult<'a, T>)
        requires
            self.ready(),
        ensures
            match result {
                Ok((value, rest)) => self.yields(input@, value, rest@),
                Err(error) => self.fails(input@, error@),
            },
    ;
}

/// Every success of the parser consumes at least one character.
pub open spec fn productive<'a, T, P: Parser<'a, T>>(parser: &P) -> bool {
    forall|input: Seq<char>, value: T, rest: Seq<char>| #[trigger]
        parser.yields(input, value, rest) ==> rest.len() < input.len()
}

/// The parser may fail on `input`.
pub open spec fn may_fail<'a, T, P: Parser<'a, T>>(parser: &P, input: Seq<char>) -> bool {
    exists|failure: Failure| parser.fails(input, failure)
}

/// Matches one given character.
pub struct Character {
    character_to_match: char,
}

impl Character {
    /// The character that the parser matches.
    pub closed spec fn expected(&self) -> char {
        self.character_to_match
    }

    pub fn new(character_to_match: char) -> (parser: Character)
        ensures
            parser.expected() == character_to_match,
    {
        Character { character_to_match }
    }
}

/// A parser that matches the character `character_to_match`.
pub fn character(character_to_match: char) -> (parser: Character)
    ensures
        parser.expected() == character_to_match,
{
    Character::new(character_to_match)
}

impl<'a> Parser<'a, char> for Character {
    open spec fn ready(&self) -> bool {
        true
    }

    open spec fn yields(&self, input: Seq<char>, value: char, rest: Seq<char>) -> bool {
        &&& input.len() > 0
        &&& input[0] == self.expected()
        &&& value == self.expected()
        &&& rest == input.skip(1)
    }

    open spec fn fails(&self, input: Seq<char>, failure: Failure) -> bool {
        &&& input.len() == 0 || input[0] != self.expected()
        &&& failure == Failure::ExpectingCharacter(self.expected())
    }

    proof fn lemma_narrows(&self, input: Seq<char>, value: char, rest: Seq<char>) {
    }

    fn parse(&self, input: &'a str) -> (result: ParseResult<'a, char>) {
        match first_char(input) {
            Some(c) if c == self.character_to_match => Ok((c, drop_chars(input, 1))),
            _ => Err(ParseError::ExpectingCharacter(self.character_to_match)),
        }
    }
}

/// Matches one character that a predicate accepts.
pub struct Any<F> where F: Fn(char) -> bool {
    predicate: F,
}

impl<F> Any<F> where F: Fn(char) -> bool {
    /// The predicate that the parser tests a character with.
    pub closed spec fn predicate(&self) -> F {
        self.predicate
    }

    pub fn new(predicate: F) -> (parser: Self)
        ensures
            parser.predicate() == predicate,
    {
        Any { predicate }
    }
}

/// A parser that matches one character that `predicate` accepts.
pub fn any<F>(predicate: F) -> (parser: Any<F>) where F: Fn(char) -> bool
    ensures
        parser.predicate() == predicate,
{
    Any::new(predicate)
}

impl<'a, F> Parser<'a, char> for Any<F> where F: Fn(char) -> bool {
    open spec fn ready(&self) -> bool {
        forall|c: char| #[trigger] call_requires(self.predicate(), (c,))
    }

    open spec fn yields(&self, input: Seq<char>, value: char, rest: Seq<char>) -> bool {
        &&& input.len() > 0
        &&& value == input[0]
        &&& call_ensures(self.predicate(), (value,), true)
        &&& rest == input.skip(1)
    }

    open spec fn fails(&self, input: Seq<char>, failure: Failure) -> bool {
        if input.len() == 0 {
            failure == Failure::EndOfInput
        } else {
            call_ensures(self.predicate(), (input[0],), false) && failure
                == Failure::ExpectingPredicate
        }
    }

    proof fn lemma_narrows(&self, input: Seq<char>, value: char, rest: Seq<char>) {
    }

    fn parse(&self, input: &'a str) -> (result: ParseResult<'a, char>) {
        match first_char(input) {
            Some(c) => {
                assert(call_requires(self.predicate(), (c,)));
                if (self.predicate)(c) {
                    Ok((c, drop_chars(input, 1)))
                } else {
                    Err(ParseError::ExpectingPredicate)
                }
            },
            None => Err(ParseError::EndOfInput),
        }
    }
}

/// Matches a given text.
pub struct Literal<'p>(&'p str);

impl<'p> Literal<'p> {
    /// The text that the parser matches.
    pub closed spec fn text(&self) -> Seq<char> {
        self.0@
    }
}

/// A parser that matches the text `match_exactly`.
pub fn literal<'p>(match_exactly: &'p str) -> (parser: Literal<'p>)
    ensures
        parser.text() == match_exactly@,
{
    Literal(match_exactly)
}

impl<'a, 'p> Parser<'a, &'a str> for Literal<'p> {
    open spec fn ready(&self) -> bool {
        true
    }

    open spec fn yields(&self, input: Seq<char>, value: &'a str, rest: Seq<char>) -> bool {
        &&& self.text().is_prefix_of(input)
        &&& value@ == self.text()
        &&& rest == input.skip(self.text().len() as int)
    }

    open spec fn fails(&self, input: Seq<char>, failure: Failure) -> bool {
        &&& !self.text().is_prefix_of(input)
        &&& failure == Failure::ExpectingString(self.text())
    }

    proof fn lemma_narrows(&self, input: Seq<char>, value: &'a str, rest: Seq<char>) {
    }

    fn parse(&self, input: &'a str) -> (result: ParseResult<'a, &'a str>) {
        match starts_with(input, self.0) {
            Some(len) => Ok((take_chars(input, len), drop_chars(input, len))),
            None => Err(ParseError::ExpectingString(self.0.to_owned())),
        }
    }
}

/// Makes a parser optional.
pub struct Optional<P> {
    inner: P,
}

impl<P> Optional<P> {
    /// The parser that is tried.
    pub closed spec fn inner(&self) -> P {
        self.inner
    }
}

/// A parser that always succeeds: with the value of `parser` where it
/// succeeds, and with `None` and the whole input where it fails.
pub fn optional<P>(parser: P) -> (made: Optional<P>)
    ensures
        made.inner() == parser,
{
    Optional { inner: parser }
}

impl<'a, T, P: Parser<'a, T>> Parser<'a, Option<T>> for Optional<P> {
    open spec fn ready(&self) -> bool {
        self.inner().ready()
    }

    open spec fn yields(&self, input: Seq<char>, value: Option<T>, rest: Seq<char>) -> bool {
        match value {
            Some(inner) => self.inner().yields(input, inner, rest),
            None => rest == input && may_fail(&self.inner(), input),
        }
    }

    open spec fn fails(&self, input: Seq<char>, failure: Failure) -> bool {
        false
    }

    proof fn lemma_narrows(&self, input: Seq<char>, value: Option<T>, rest: Seq<char>) {
        match value {
            Some(inner) => {
                self.inner().lemma_narrows(input, inner, rest);
            },
            None => {},
        }
    }

    fn parse(&self, input: &'a str) -> (result: ParseResult<'a, Option<T>>) {
        match self.inner.parse(input) {
            Ok((value, rest)) => Ok((Some(value), rest)),
            Err(_) => Ok((None, input)),
        }
    }
}

/// The parser, run again and again from `input`, may yield `values` one after
/// the other and leave `rest`.
pub open spec fn chain<'a, T, P: Parser<'a, T>>(
    parser: &P,
    input: Seq<char>,
    values: Seq<T>,
    rest: Seq<char>,
) -> bool
    decreases values.len(),
{
    if values.len() == 0 {
        rest == input
    } else {
        exists|middle: Seq<char>|
            chain(parser, input, values.drop_last(), middle) && #[trigger] parser.yields(
                middle,
                values.last(),
                rest,
            )
    }
}

/// A chain of parses only narrows the input.
pub proof fn lemma_chain_narrows<'a, T, P: Parser<'a, T>>(
    parser: &P,
    input: Seq<char>,
    values: Seq<T>,
    rest: Seq<char>,
)
    requires
        chain(parser, input, values, rest),
    ensures
        is_suffix(rest, input),
    decreases values.len(),
{
    if values.len() > 0 {
        let middle = choose|middle: Seq<char>|
            chain(parser, input, values.drop_last(), middle) && #[trigger] parser.yields(
                middle,
                values.last(),
                rest,
            );
        lemma_chain_narrows(parser, input, values.drop_last(), middle);
        parser.lemma_narrows(middle, values.last(), rest);
    }
}

/// A chain that is not empty starts with a parse from the input, and what
/// follows is a chain.
pub proof fn lemma_chain_front<'a, T, P: Parser<'a, T>>(
    parser: &P,
    input: Seq<char>,
    values: Seq<T>,
    rest: Seq<char>,
)
    requires
        chain(parser, input, values, rest),
        values.len() > 0,
    ensures
        exists|middle: Seq<char>|
            #[trigger] parser.yields(input, values[0], middle) && chain(
                parser,
                middle,
                values.skip(1),
                rest,
            ),
    decreases values.len(),
{
    let before = choose|before: Seq<char>|
        chain(parser, input, values.drop_last(), before) && #[trigger] parser.yields(
            before,
            values.last(),
            rest,
        );
    if values.len() > 1 {
        lemma_chain_front(parser, input, values.drop_last(), before);
        let middle = choose|middle: Seq<char>|
            #[trigger] parser.yields(input, values.drop_last()[0], middle) && chain(
                parser,
                middle,
                values.drop_last().skip(1),
                before,
            );
        assert(values.skip(1).drop_last() == values.drop_last().skip(1));
        assert(values.skip(1).last() == values.last());
    }
}

/// Repeats a parser, a given number of times at least.
///
/// The repetition ends where the parser fails.  It can be run only over a
/// parser that consumes input whenever it succeeds: over one that may
/// succeed on nothing it would not end.
pub struct AtLeast<'a, T, P> where T: 'a, P: Parser<'a, T> {
    n: u8,
    parser: P,
    phantom: PhantomData<&'a T>,
}

impl<'a, T, P> AtLeast<'a, T, P> where T: 'a, P: Parser<'a, T> {
    /// The number of repetitions that have to succeed.
    pub closed spec fn minimum(&self) -> nat {
        self.n as nat
    }

    /// The parser that is repeated.
    pub closed spec fn inner(&self) -> P {
        self.parser
    }

    pub fn new(n: u8, parser: P) -> (made: Self)
        ensures
            made.minimum() == n,
            made.inner() == parser,
    {
        AtLeast { n, parser, phantom: PhantomData }
    }
}

/// A parser that runs `parser` `n` times, then on for as long as it
/// succeeds, and yields the values in order.
pub fn at_least<'a, T, P: Parser<'a, T>>(n: u8, parser: P) -> (made: AtLeast<'a, T, P>)
    ensures
        made.minimum() == n,
        made.inner() == parser,
{
    AtLeast::new(n, parser)
}

/// A parser that runs `parser` for as long as it succeeds.
pub fn many<'a, T, P: Parser<'a, T>>(parser: P) -> (made: AtLeast<'a, T, P>)
    ensures
        made.minimum() == 0,
        made.inner() == parser,
{
    at_least(0, parser)
}

impl<'a, T, P> Parser<'a, Vec<T>> for AtLeast<'a, T, P> where P: Parser<'a, T> {
    open spec fn ready(&self) -> bool {
        self.inner().ready() && productive(&self.inner())
    }

    open spec fn yields(&self, input: Seq<char>, value: Vec<T>, rest: Seq<char>) -> bool {
        &&& value@.len() >= self.minimum()
        &&& chain(&self.inner(), input, value@, rest)
        &&& may_fail(&self.inner(), rest)
    }

    open spec fn fails(&self, input: Seq<char>, failure: Failure) -> bool {
        exists|values: Seq<T>, middle: Seq<char>|
            values.len() < self.minimum() && #[trigger] chain(
                &self.inner(),
                input,
                values,
                middle,
            ) && self.inner().fails(middle, failure)
    }

    proof fn lemma_narrows(&self, input: Seq<char>, value: Vec<T>, rest: Seq<char>) {
        lemma_chain_narrows(&self.inner(), input, value@, rest);
    }

    fn parse(&self, input: &'a str) -> (result: ParseResult<'a, Vec<T>>) {
        let mut result: Vec<T> = Vec::new();
        let mut source = input;
        let mut count = self.n;
        while count > 0
            invariant
                self.ready(),
                count <= self.n,
                result@.len() == self.n - count,
                chain(&self.inner(), input@, result@, source@),
            decreases count,
        {
            let ghost values = result@;
            match self.parser.parse(source) {
                Ok((value, rest)) => {
                    result.push(value);
                    proof {
                        assert(result@.drop_last() == values);
                        assert(self.inner().yields(source@, result@.last(), rest@));
                    }
                    source = rest;
                },
                Err(e) => {
                    return Err(e);
                },
            }
            count -= 1;
        }
        loop
            invariant_except_break
                self.ready(),
                result@.len() >= self.n,
                chain(&self.inner(), input@, result@, source@),
            ensures
                result@.len() >= self.n,
                chain(&self.inner(), input@, result@, source@),
                may_fail(&self.inner(), source@),
            decreases source@.len(),
        {
            let ghost values = result@;
            match self.parser.parse(source) {
                Ok((value, rest)) => {
                    result.push(value);
                    proof {
                        assert(result@.drop_last() == values);
                        assert(self.inner().yields(source@, result@.last(), rest@));
                    }
                    source = rest;
                },
                Err(e) => {
                    break ;
                },
            }
        }
        Ok((result, source))
    }
}

/// Transforms the value of a parser.
#[verifier::reject_recursive_types(I)]
#[verifier::reject_recursive_types(O)]
pub struct Mapped<'a, I, O, P, F> where I: 'a, P: Parser<'a, I>, F: Fn(I) -> O {
    parser: P,
    map: F,
    phantom: PhantomData<&'a I>,
}

impl<'a, I, O, P, F> Mapped<'a, I, O, P, F> where I: 'a, P: Parser<'a, I>, F: Fn(I) -> O {
    /// The parser whose value is transformed.
    pub closed spec fn inner(&self) -> P {
        self.parser
    }

    /// The function that transforms the value.
    pub closed spec fn function(&self) -> F {
        self.map
    }

    pub fn new(parser: P, map: F) -> (made: Self)
        ensures
            made.inner() == parser,
            made.function() == map,
    {
        Mapped { parser, map, phantom: PhantomData }
    }
}

/// A parser that hands the value of `parser` to `function` and yields what
/// `function` returns; a failure of `parser` is passed on as it is.
pub fn map<'a, I, O, P, F>(parser: P, function: F) -> (made: Mapped<'a, I, O, P, F>) where
    I: 'a,
    P: Parser<'a, I>,
    F: Fn(I) -> O,

    ensures
        made.inner() == parser,
        made.function() == function,
{
    Mapped::new(parser, function)
}

impl<'a, I, O, P, F> Parser<'a, O> for Mapped<'a, I, O, P, F> where
    I: 'a,
    P: Parser<'a, I>,
    F: Fn(I) -> O,
 {
    open spec fn ready(&self) -> bool {
        &&& self.inner().ready()
        &&& forall|input: Seq<char>, value: I, rest: Seq<char>| #[trigger]
            self.inner().yields(input, value, rest) ==> call_requires(self.function(), (value,))
    }

    open spec fn yields(&self, input: Seq<char>, value: O, rest: Seq<char>) -> bool {
        exists|inner: I| #[trigger]
            self.inner().yields(input, inner, rest) && call_ensures(
                self.function(),
                (inner,),
                value,
            )
    }

    open spec fn fails(&self, input: Seq<char>, failure: Failure) -> bool {
        self.inner().fails(input, failure)
    }

    proof fn lemma_narrows(&self, input: Seq<char>, value: O, rest: Seq<char>) {
        let inner = choose|inner: I| #[trigger]
            self.inner().yields(input, inner, rest) && call_ensures(
                self.function(),
                (inner,),
                value,
            );
        self.inner().lemma_narrows(input, inner, rest);
    }

    fn parse(&self, input: &'a str) -> (result: ParseResult<'a, O>) {
        match self.parser.parse(input) {
            Ok((value, rest)) => {
                let mapped = (self.map)(value);
                Ok((mapped, rest))
            },
            Err(e) => Err(e),
        }
    }
}

/// Converts the value of a parser with a function that may fail.
#[verifier::reject_recursive_types(I)]
#[verifier::reject_recursive_types(O)]
#[verifier::reject_recursive_types(E)]
pub struct FlatMapped<I, O, E, P, F> where F: Fn(I) -> Result<O, E> {
    parser: P,
    mapper: F,
    phantom: PhantomData<I>,
}

impl<I, O, E, P, F> FlatMapped<I, O, E, P, F> where F: Fn(I) -> Result<O, E> {
    /// The parser whose value is converted.
    pub closed spec fn inner(&self) -> P {
        self.parser
    }

    /// The function that converts the value.
    pub closed spec fn function(&self) -> F {
        self.mapper
    }
}

/// A parser that hands the value of `a` to `mapper`: it yields the value that
/// `mapper` returns, or fails with the error of `mapper`, turned into a
/// `ParseError`.
pub fn flat_map<I, O, E, P, F>(a: P, mapper: F) -> (made: FlatMapped<I, O, E, P, F>) where
    F: Fn(I) -> Result<O, E>,

    ensures
        made.inner() == a,
        made.function() == mapper,
{
    FlatMapped { parser: a, mapper, phantom: PhantomData }
}

/// `failure` is what the error `error` of a conversion may turn into.
pub open spec fn turns_into<E: Into<ParseError>>(error: E, failure: Failure) -> bool {
    <E as IntoSpec<ParseError>>::obeys_into_spec() ==> failure == IntoSpec::<
        ParseError,
    >::into_spec(error)@
}

impl<'a, I, O, E, P, F> Parser<'a, O> for FlatMapped<I, O, E, P, F> where
    P: Parser<'a, I>,
    F: Fn(I) -> Result<O, E>,
    E: Into<ParseError>,
 {
    open spec fn ready(&self) -> bool {
        &&& self.inner().ready()
        &&& forall|input: Seq<char>, value: I, rest: Seq<char>| #[trigger]
            self.inner().yields(input, value, rest) ==> call_requires(self.function(), (value,))
    }

    open spec fn yields(&self, input: Seq<char>, value: O, rest: Seq<char>) -> bool {
        exists|inner: I| #[trigger]
            self.inner().yields(input, inner, rest) && call_ensures(
                self.function(),
                (inner,),
                Ok(value),
            )
    }

    open spec fn fails(&self, input: Seq<char>, failure: Failure) -> bool {
        ||| self.inner().fails(input, failure)
        ||| exists|inner: I, rest: Seq<char>, error: E|
            self.inner().yields(input, inner, rest) && #[trigger] call_ensures(
                self.function(),
                (inner,),
                Err(error),
            ) && #[trigger] is_suffix(rest, input) && turns_into(error, failure)
    }

    proof fn lemma_narrows(&self, input: Seq<char>, value: O, rest: Seq<char>) {
        let inner = choose|inner: I| #[trigger]
            self.inner().yields(input, inner, rest) && call_ensures(
                self.function(),
                (inner,),
                Ok(value),
            );
        self.inner().lemma_narrows(input, inner, rest);
    }

    fn parse(&self, input: &'a str) -> (result: ParseResult<'a, O>) {
        match self.parser.parse(input) {
            Ok((value, rest)) => {
                match (self.mapper)(value) {
                    Ok(converted) => Ok((converted, rest)),
                    Err(error) => {
                        proof {
                            self.inner().lemma_narrows(input@, value, rest@);
                        }
                        let reason: ParseError = error.into();
                        Err(reason)
                    },
                }
            },
            Err(e) => Err(e),
        }
    }
}

/// Yields the text that a parser consumed in place of its value.
#[verifier::reject_recursive_types(T)]
pub struct Recognize<T, P> {
    parser: P,
    phantom: PhantomData<T>,
}

impl<T, P> Recognize<T, P> {
    /// The parser whose consumed text is yielded.
    pub closed spec fn inner(&self) -> P {
        self.parser
    }
}

/// A parser that runs `p`, drops its value and yields the part of the input
/// that `p` consumed.
pub fn recognize<T, P>(p: P) -> (made: Recognize<T, P>)
    ensures
        made.inner() == p,
{
    Recognize { parser: p, phantom: PhantomData }
}

impl<'a, T, P: Parser<'a, T>> Parser<'a, &'a str> for Recognize<T, P> {
    open spec fn ready(&self) -> bool {
        self.inner().ready()
    }

    open spec fn yields(&self, input: Seq<char>, value: &'a str, rest: Seq<char>) -> bool {
        &&& exists|inner: T| self.inner().yields(input, inner, rest)
        &&& is_suffix(rest, input)
        &&& value@ == input.take(input.len() - rest.len())
    }

    open spec fn fails(&self, input: Seq<char>, failure: Failure) -> bool {
        self.inner().fails(input, failure)
    }

    proof fn lemma_narrows(&self, input: Seq<char>, value: &'a str, rest: Seq<char>) {
    }

    fn parse(&self, input: &'a str) -> (result: ParseResult<'a, &'a str>) {
        match self.parser.parse(input) {
            Ok((value, rest)) => {
                proof {
                    self.inner().lemma_narrows(input@, value, rest@);
                }
                let match_len = input.unicode_len() - rest.unicode_len();
                Ok((take_chars(input, match_len), rest))
            },
            Err(e) => Err(e),
        }
    }
}

/// Tries parsers one after the other.
pub struct OneOf<'a, T, P> where T: 'a, P: Parser<'a, T> {
    options: Vec<P>,
    phantom: PhantomData<&'a T>,
}

impl<'a, T, P> OneOf<'a, T, P> where T: 'a, P: Parser<'a, T> {
    /// The parsers, in the order in which they are tried.
    pub closed spec fn options(&self) -> Seq<P> {
        self.options@
    }

    pub fn new(options: Vec<P>) -> (made: Self)
        ensures
            made.options() == options@,
    {
        OneOf { options, phantom: PhantomData }
    }
}

/// A parser that tries each of `options` on the whole input, in order, and
/// yields the value of the first that succeeds.
pub fn one_of<'a, T, P>(options: Vec<P>) -> (made: OneOf<'a, T, P>) where T: 'a, P: Parser<'a, T>
    ensures
        made.options() == options@,
{
    OneOf::new(options)
}

/// Each of the first `count` parsers may fail on `input`.
pub open spec fn all_may_fail<'a, T, P: Parser<'a, T>>(
    options: Seq<P>,
    count: int,
    input: Seq<char>,
) -> bool {
    forall|j: int| 0 <= j < count ==> may_fail(&#[trigger] options[j], input)
}

impl<'a, T, P> Parser<'a, T> for OneOf<'a, T, P> where T: 'a, P: Parser<'a, T> {
    open spec fn ready(&self) -> bool {
        forall|k: int| 0 <= k < self.options().len() ==> (#[trigger] self.options()[k]).ready()
    }

    open spec fn yields(&self, input: Seq<char>, value: T, rest: Seq<char>) -> bool {
        exists|k: int|
            0 <= k < self.options().len() && (#[trigger] self.options()[k]).yields(
                input,
                value,
                rest,
            ) && all_may_fail(self.options(), k, input)
    }

    open spec fn fails(&self, input: Seq<char>, failure: Failure) -> bool {
        &&& failure == Failure::ExpectingOneOfToParse
        &&& all_may_fail(self.options(), self.options().len() as int, input)
    }

    proof fn lemma_narrows(&self, input: Seq<char>, value: T, rest: Seq<char>) {
        let k = choose|k: int|
            0 <= k < self.options().len() && (#[trigger] self.options()[k]).yields(
                input,
                value,
                rest,
            ) && all_may_fail(self.options(), k, input);
        self.options()[k].lemma_narrows(input, value, rest);
    }

    fn parse(&self, input: &'a str) -> (result: ParseResult<'a, T>) {
        let mut i: usize = 0;
        while i < self.options.len()
            invariant
                self.ready(),
                i <= self.options.len(),
                all_may_fail(self.options(), i as int, input@),
            decreases self.options.len() - i,
        {
            match self.options[i].parse(input) {
                Ok((value, rest)) => {
                    return Ok((value, rest));
                },
                Err(e) => {
                },
            }
            i += 1;
        }
        Err(ParseError::ExpectingOneOfToParse)
    }
}

/// `input` without its leading spaces and tabs.
pub open spec fn unpadded(input: Seq<char>) -> Seq<char> {
    without_leading(input, |c: char| blank(c))
}

/// What is left after leading spaces and tabs is a suffix of the input.
pub proof fn lemma_unpadded_narrows(input: Seq<char>)
    ensures
        is_suffix(unpadded(input), input),
{
    lemma_leading_run(input, |c: char| blank(c));
}

/// Where leading spaces and tabs were consumed there are none to consume.
pub proof fn lemma_unpadded_idempotent(input: Seq<char>)
    ensures
        unpadded(unpadded(input)) == unpadded(input),
{
    lemma_leading_run(input, |c: char| blank(c));
}

/// Consumes the leading spaces and tabs of the input; never fails.
pub fn skip_spaces(input: &str) -> (result: Result<((), &str), ParseError>)
    ensures
        result matches Ok((_, rest)) && rest@ == unpadded(input@),
{
    Ok(((), skip_blanks(input)))
}

/// Succeeds on the empty input only.
pub fn eof(input: &str) -> (result: Result<((), &str), ParseError>)
    ensures
        match result {
            Ok((_, rest)) => input@.len() == 0 && rest@ == input@,
            Err(error) => input@.len() > 0 && error@ == Failure::ExpectingEOF,
        },
{
    if input.is_empty() {
        Ok(((), input))
    } else {
        Err(ParseError::ExpectingEOF)
    }
}

/// Requires a parser to consume the whole input.
pub struct Complete<P> {
    parser: P,
}

impl<P> Complete<P> {
    /// The parser that has to consume the whole input.
    pub closed spec fn inner(&self) -> P {
        self.parser
    }
}

/// A parser that runs `parser` and fails unless nothing is left after it.
pub fn complete<P>(parser: P) -> (made: Complete<P>)
    ensures
        made.inner() == parser,
{
    Complete { parser }
}

impl<'a, T, P: Parser<'a, T>> Parser<'a, T> for Complete<P> {
    open spec fn ready(&self) -> bool {
        self.inner().ready()
    }

    open spec fn yields(&self, input: Seq<char>, value: T, rest: Seq<char>) -> bool {
        rest.len() == 0 && self.inner().yields(input, value, rest)
    }

    open spec fn fails(&self, input: Seq<char>, failure: Failure) -> bool {
        ||| self.inner().fails(input, failure)
        ||| failure == Failure::ExpectingEOF && exists|value: T, rest: Seq<char>| #[trigger]
            self.inner().yields(input, value, rest) && rest.len() > 0
    }

    proof fn lemma_narrows(&self, input: Seq<char>, value: T, rest: Seq<char>) {
    }

    fn parse(&self, input: &'a str) -> (result: ParseResult<'a, T>) {
        match self.parser.parse(input) {
            Ok((value, rest)) => {
                match eof(rest) {
                    Ok((_, rest)) => Ok((value, rest)),
                    Err(e) => Err(e),
                }
            },
            Err(e) => Err(e),
        }
    }
}

/// Runs two parsers one after the other.
pub struct Sequence<P, Q> {
    first: P,
    second: Q,
}

impl<P, Q> Sequence<P, Q> {
    /// The parser that runs first.
    pub closed spec fn first(&self) -> P {
        self.first
    }

    /// The parser that runs on what the first left.
    pub closed spec fn second(&self) -> Q {
        self.second
    }
}

/// A parser that runs `first`, then `second` on what `first` left, and
/// yields both values; the failure of either is the failure of the whole.
pub fn sequence<P, Q>(first: P, second: Q) -> (made: Sequence<P, Q>)
    ensures
        made.first() == first,
        made.second() == second,
{
    Sequence { first, second }
}

impl<'a, A, B, P: Parser<'a, A>, Q: Parser<'a, B>> Parser<'a, (A, B)> for Sequence<P, Q> {
    open spec fn ready(&self) -> bool {
        self.first().ready() && self.second().ready()
    }

    open spec fn yields(&self, input: Seq<char>, value: (A, B), rest: Seq<char>) -> bool {
        exists|middle: Seq<char>| #[trigger]
            self.first().yields(input, value.0, middle) && self.second().yields(
                middle,
                value.1,
                rest,
            )
    }

    open spec fn fails(&self, input: Seq<char>, failure: Failure) -> bool {
        ||| self.first().fails(input, failure)
        ||| exists|value: A, middle: Seq<char>| #[trigger]
            self.first().yields(input, value, middle) && self.second().fails(middle, failure)
    }

    proof fn lemma_narrows(&self, input: Seq<char>, value: (A, B), rest: Seq<char>) {
        let middle = choose|middle: Seq<char>| #[trigger]
            self.first().yields(input, value.0, middle) && self.second().yields(
                middle,
                value.1,
                rest,
            );
        self.first().lemma_narrows(input, value.0, middle);
        self.second().lemma_narrows(middle, value.1, rest);
    }

    fn parse(&self, input: &'a str) -> (result: ParseResult<'a, (A, B)>) {
        match self.first.parse(input) {
            Ok((a, middle)) => {
                match self.second.parse(middle) {
                    Ok((b, rest)) => {
                        let value = (a, b);
                        assert(self.first().yields(input@, value.0, middle@));
                        Ok((value, rest))
                    },
                    Err(e) => Err(e),
                }
            },
            Err(e) => Err(e),
        }
    }
}

/// Runs a parser between optional spaces and tabs.
pub struct IgnoreSpaces<P> {
    parser: P,
}

impl<P> IgnoreSpaces<P> {
    /// The parser that runs between the spaces.
    pub closed spec fn inner(&self) -> P {
        self.parser
    }
}

/// A parser that consumes spaces and tabs, runs `parser`, and consumes the
/// spaces and tabs that follow.
pub fn ignore_spaces<P>(parser: P) -> (made: IgnoreSpaces<P>)
    ensures
        made.inner() == parser,
{
    IgnoreSpaces { parser }
}

impl<'a, T, P: Parser<'a, T>> Parser<'a, T> for IgnoreSpaces<P> {
    open spec fn ready(&self) -> bool {
        self.inner().ready()
    }

    open spec fn yields(&self, input: Seq<char>, value: T, rest: Seq<char>) -> bool {
        exists|after: Seq<char>| #[trigger]
            self.inner().yields(unpadded(input), value, after) && rest == unpadded(after)
    }

    open spec fn fails(&self, input: Seq<char>, failure: Failure) -> bool {
        self.inner().fails(unpadded(input), failure)
    }

    proof fn lemma_narrows(&self, input: Seq<char>, value: T, rest: Seq<char>) {
        let after = choose|after: Seq<char>| #[trigger]
            self.inner().yields(unpadded(input), value, after) && rest == unpadded(after);
        lemma_unpadded_narrows(input);
        self.inner().lemma_narrows(unpadded(input), value, after);
        lemma_unpadded_narrows(after);
    }

    fn parse(&self, input: &'a str) -> (result: ParseResult<'a, T>) {
        let start = skip_blanks(input);
        match self.parser.parse(start) {
            Ok((value, after)) => {
                assert(self.inner().yields(unpadded(input@), value, after@));
                Ok((value, skip_blanks(after)))
            },
            Err(e) => Err(e),
        }
    }
}

/// A parser that runs `first` and `second` one after the other and consumes
/// spaces and tabs before each of them and after the last.
pub fn sequence_ignore_spaces<P, Q>(first: P, second: Q) -> (made: Sequence<
    IgnoreSpaces<P>,
    IgnoreSpaces<Q>,
>)
    ensures
        made.first().inner() == first,
        made.second().inner() == second,
{
    sequence(ignore_spaces(first), ignore_spaces(second))
}

} // verus!
