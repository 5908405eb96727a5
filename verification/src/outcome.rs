//! Parsers whose result is a function of the input.
//!
//! The relations of a parser say what it may do.  Where a parser holds no
//! closure, or only closures that return one value for each argument, what it
//! does is a function of the input.  This module states that function for the
//! combinators and proves that the relations allow nothing else.

use crate::combinator::{
    all_may_fail, chain, is_suffix, lemma_chain_front, may_fail, productive, turns_into, unpadded,
    Any, AtLeast, Character, Complete, Failure, FlatMapped, IgnoreSpaces, Literal, Mapped, OneOf,
    Optional, ParseError, Parser, Recognize, Sequence,
};
use crate::text::{leading, lemma_leading_run};
use vstd::prelude::*;

verus! {

/// What a parse comes to: a value and what is left, or a failure.
pub type Outcome<V> = Result<(V, Seq<char>), Failure>;

/// Whatever `parser` may do on an input is what `outcome` says of that
/// input, its values seen through `view`.
pub open spec fn decides<'a, T, V, P: Parser<'a, T>>(
    parser: &P,
    view: spec_fn(T) -> V,
    outcome: spec_fn(Seq<char>) -> Outcome<V>,
) -> bool {
    &&& forall|input: Seq<char>, value: T, rest: Seq<char>| #[trigger]
        parser.yields(input, value, rest) ==> outcome(input) == Ok::<(V, Seq<char>), Failure>(
            (view(value), rest),
        )
    &&& forall|input: Seq<char>, failure: Failure| #[trigger]
        parser.fails(input, failure) ==> outcome(input) == Err::<(V, Seq<char>), Failure>(failure)
}

/// The outcome of matching the character `expected`.
pub open spec fn character_outcome(expected: char, input: Seq<char>) -> Outcome<char> {
    if input.len() > 0 && input[0] == expected {
        Ok((expected, input.skip(1)))
    } else {
        Err(Failure::ExpectingCharacter(expected))
    }
}

/// The outcome of matching one character in `class`.
pub open spec fn any_outcome(class: spec_fn(char) -> bool, input: Seq<char>) -> Outcome<char> {
    if input.len() == 0 {
        Err(Failure::EndOfInput)
    } else if class(input[0]) {
        Ok((input[0], input.skip(1)))
    } else {
        Err(Failure::ExpectingPredicate)
    }
}

/// The outcome of matching the text `text`.
pub open spec fn literal_outcome(text: Seq<char>, input: Seq<char>) -> Outcome<Seq<char>> {
    if text.is_prefix_of(input) {
        Ok((text, input.skip(text.len() as int)))
    } else {
        Err(Failure::ExpectingString(text))
    }
}

/// The values that `outcome` gives when it is applied again and again, for
/// as long as it succeeds and consumes input, and what is left then.
pub open spec fn repeated<V>(outcome: spec_fn(Seq<char>) -> Outcome<V>, input: Seq<char>) -> (
    Seq<V>,
    Seq<char>,
)
    decreases input.len(),
{
    match outcome(input) {
        Ok((value, rest)) => if rest.len() < input.len() {
            let (values, end) = repeated(outcome, rest);
            (seq![value] + values, end)
        } else {
            (Seq::empty(), input)
        },
        Err(_) => (Seq::empty(), input),
    }
}

/// The outcome of applying `outcome` `minimum` times, where the first
/// failure is the failure of the whole, and then for as long as it
/// succeeds.
pub open spec fn at_least_outcome<V>(
    outcome: spec_fn(Seq<char>) -> Outcome<V>,
    minimum: nat,
    input: Seq<char>,
) -> Outcome<Seq<V>>
    decreases minimum,
{
    if minimum == 0 {
        Ok(repeated(outcome, input))
    } else {
        match outcome(input) {
            Ok((value, rest)) => match at_least_outcome(outcome, (minimum - 1) as nat, rest) {
                Ok((values, end)) => Ok((seq![value] + values, end)),
                Err(failure) => Err(failure),
            },
            Err(failure) => Err(failure),
        }
    }
}

/// The outcome of the first of `outcomes`, from the one at `from` on, that
/// succeeds on `input`.
pub open spec fn first_outcome<V>(
    outcomes: Seq<spec_fn(Seq<char>) -> Outcome<V>>,
    from: int,
    input: Seq<char>,
) -> Outcome<V>
    decreases outcomes.len() - from,
{
    if 0 <= from < outcomes.len() {
        match outcomes[from](input) {
            Ok(success) => Ok(success),
            Err(_) => first_outcome(outcomes, from + 1, input),
        }
    } else {
        Err(Failure::ExpectingOneOfToParse)
    }
}

/// A parser of one given character does what `character_outcome` says.
pub proof fn lemma_character_decides(parser: &Character)
    ensures
        decides(
            parser,
            |value: char| value,
            |input: Seq<char>| character_outcome(parser.expected(), input),
        ),
{
}

/// A parser of one character whose predicate computes `class` can be run,
/// consumes input, and does what `any_outcome` says.
pub proof fn lemma_any_decides<F: Fn(char) -> bool>(parser: &Any<F>, class: spec_fn(char) -> bool)
    requires
        forall|c: char| #[trigger] call_requires(parser.predicate(), (c,)),
        forall|c: char, accepted: bool| #[trigger]
            call_ensures(parser.predicate(), (c,), accepted) ==> accepted == class(c),
    ensures
        parser.ready(),
        productive(parser),
        decides(parser, |value: char| value, |input: Seq<char>| any_outcome(class, input)),
{
}

/// A parser of a given text does what `literal_outcome` says.
pub proof fn lemma_literal_decides<'a, 'p>(parser: &Literal<'p>)
    ensures
        decides::<&'a str, Seq<char>, Literal<'p>>(
            parser,
            |value: &'a str| value@,
            |input: Seq<char>| literal_outcome(parser.text(), input),
        ),
{
}

/// Where a parser does what `outcome` says and consumes input whenever it
/// succeeds, a chain of its parses that ends where it fails is what
/// `at_least_outcome` says, for every minimum that the chain reaches.
pub proof fn lemma_chain_decides<'a, T, V, P: Parser<'a, T>>(
    parser: &P,
    view: spec_fn(T) -> V,
    outcome: spec_fn(Seq<char>) -> Outcome<V>,
    minimum: nat,
    input: Seq<char>,
    values: Seq<T>,
    rest: Seq<char>,
)
    requires
        decides(parser, view, outcome),
        productive(parser),
        chain(parser, input, values, rest),
        may_fail(parser, rest),
        values.len() >= minimum,
    ensures
        at_least_outcome(outcome, minimum, input) == Ok::<(Seq<V>, Seq<char>), Failure>(
            (values.map_values(view), rest),
        ),
    decreases values.len(),
{
    let views = values.map_values(view);
    if values.len() == 0 {
        let failure = choose|failure: Failure| parser.fails(rest, failure);
        assert(views == Seq::<V>::empty());
    } else {
        lemma_chain_front(parser, input, values, rest);
        let middle = choose|middle: Seq<char>|
            #[trigger] parser.yields(input, values[0], middle) && chain(
                parser,
                middle,
                values.skip(1),
                rest,
            );
        let fewer = if minimum == 0 {
            0nat
        } else {
            (minimum - 1) as nat
        };
        lemma_chain_decides(parser, view, outcome, fewer, middle, values.skip(1), rest);
        assert(views == seq![view(values[0])] + values.skip(1).map_values(view));
    }
}

/// Where a parser does what `outcome` says, a chain of its parses that is
/// shorter than the minimum and ends in a failure is the failure that
/// `at_least_outcome` gives.
pub proof fn lemma_chain_fails<'a, T, V, P: Parser<'a, T>>(
    parser: &P,
    view: spec_fn(T) -> V,
    outcome: spec_fn(Seq<char>) -> Outcome<V>,
    minimum: nat,
    input: Seq<char>,
    values: Seq<T>,
    middle: Seq<char>,
    failure: Failure,
)
    requires
        decides(parser, view, outcome),
        chain(parser, input, values, middle),
        parser.fails(middle, failure),
        values.len() < minimum,
    ensures
        at_least_outcome(outcome, minimum, input) == Err::<(Seq<V>, Seq<char>), Failure>(failure),
    decreases values.len(),
{
    if values.len() > 0 {
        lemma_chain_front(parser, input, values, middle);
        let next = choose|next: Seq<char>|
            #[trigger] parser.yields(input, values[0], next) && chain(
                parser,
                next,
                values.skip(1),
                middle,
            );
        lemma_chain_fails(
            parser,
            view,
            outcome,
            (minimum - 1) as nat,
            next,
            values.skip(1),
            middle,
            failure,
        );
    }
}

/// A repetition of a parser that does what `outcome` says, and that
/// consumes input whenever it succeeds, does what `at_least_outcome` says,
/// and can be run where that parser can.
pub proof fn lemma_at_least_decides<'a, T, V, P: Parser<'a, T>>(
    parser: &AtLeast<'a, T, P>,
    view: spec_fn(T) -> V,
    outcome: spec_fn(Seq<char>) -> Outcome<V>,
)
    requires
        decides(&parser.inner(), view, outcome),
        productive(&parser.inner()),
    ensures
        parser.inner().ready() ==> parser.ready(),
        decides(
            parser,
            |values: Vec<T>| values@.map_values(view),
            |input: Seq<char>| at_least_outcome(outcome, parser.minimum(), input),
        ),
{
    let inner = parser.inner();
    assert forall|input: Seq<char>, value: Vec<T>, rest: Seq<char>| #[trigger]
        parser.yields(input, value, rest) implies at_least_outcome(
        outcome,
        parser.minimum(),
        input,
    ) == Ok::<(Seq<V>, Seq<char>), Failure>((value@.map_values(view), rest)) by {
        lemma_chain_decides(&inner, view, outcome, parser.minimum(), input, value@, rest);
    }
    assert forall|input: Seq<char>, failure: Failure| #[trigger]
        parser.fails(input, failure) implies at_least_outcome(outcome, parser.minimum(), input)
        == Err::<(Seq<V>, Seq<char>), Failure>(failure) by {
        let (values, middle) = choose|values: Seq<T>, middle: Seq<char>|
            values.len() < parser.minimum() && #[trigger] chain(&inner, input, values, middle)
                && inner.fails(middle, failure);
        lemma_chain_fails(&inner, view, outcome, parser.minimum(), input, values, middle, failure);
    }
}

/// The outcome of yielding the text that `outcome` consumes in place of its
/// value.
pub open spec fn recognize_outcome<V>(
    outcome: spec_fn(Seq<char>) -> Outcome<V>,
    input: Seq<char>,
) -> Outcome<Seq<char>> {
    match outcome(input) {
        Ok((_, rest)) => Ok((input.take(input.len() - rest.len()), rest)),
        Err(failure) => Err(failure),
    }
}

/// A parser that yields the text that another consumed does what
/// `recognize_outcome` says where the other does what `outcome` says, and
/// can be run where the other can.
pub proof fn lemma_recognize_decides<'a, T, V, P: Parser<'a, T>>(
    parser: &Recognize<T, P>,
    view: spec_fn(T) -> V,
    outcome: spec_fn(Seq<char>) -> Outcome<V>,
)
    requires
        decides(&parser.inner(), view, outcome),
    ensures
        parser.inner().ready() ==> parser.ready(),
        decides::<&'a str, Seq<char>, Recognize<T, P>>(
            parser,
            |value: &'a str| value@,
            |input: Seq<char>| recognize_outcome(outcome, input),
        ),
{
}

/// The outcome of an optional parse: the value where `outcome` succeeds,
/// none and the whole input where it fails.
pub open spec fn optional_outcome<V>(
    outcome: spec_fn(Seq<char>) -> Outcome<V>,
    input: Seq<char>,
) -> Outcome<Option<V>> {
    match outcome(input) {
        Ok((value, rest)) => Ok((Some(value), rest)),
        Err(_) => Ok((None, input)),
    }
}

/// The view of an optional value.
pub open spec fn optional_view<T, V>(view: spec_fn(T) -> V, value: Option<T>) -> Option<V> {
    match value {
        Some(inner) => Some(view(inner)),
        None => None,
    }
}

/// An optional parser does what `optional_outcome` says where the parser
/// that it tries does what `outcome` says, and can be run where that
/// parser can.
pub proof fn lemma_optional_decides<'a, T, V, P: Parser<'a, T>>(
    parser: &Optional<P>,
    view: spec_fn(T) -> V,
    outcome: spec_fn(Seq<char>) -> Outcome<V>,
)
    requires
        decides(&parser.inner(), view, outcome),
    ensures
        parser.inner().ready() ==> parser.ready(),
        decides(
            parser,
            |value: Option<T>| optional_view(view, value),
            |input: Seq<char>| optional_outcome(outcome, input),
        ),
{
}

/// The outcome of one parse after another: both values, or the failure of
/// the one that fails first.
pub open spec fn sequence_outcome<A, B>(
    first: spec_fn(Seq<char>) -> Outcome<A>,
    second: spec_fn(Seq<char>) -> Outcome<B>,
    input: Seq<char>,
) -> Outcome<(A, B)> {
    match first(input) {
        Ok((a, middle)) => match second(middle) {
            Ok((b, rest)) => Ok(((a, b), rest)),
            Err(failure) => Err(failure),
        },
        Err(failure) => Err(failure),
    }
}

/// A sequence of two parsers does what `sequence_outcome` says where the
/// two do what `first` and `second` say, and can be run where they can.
pub proof fn lemma_sequence_decides<'a, A, B, VA, VB, P: Parser<'a, A>, Q: Parser<'a, B>>(
    parser: &Sequence<P, Q>,
    first_view: spec_fn(A) -> VA,
    first: spec_fn(Seq<char>) -> Outcome<VA>,
    second_view: spec_fn(B) -> VB,
    second: spec_fn(Seq<char>) -> Outcome<VB>,
)
    requires
        decides(&parser.first(), first_view, first),
        decides(&parser.second(), second_view, second),
    ensures
        parser.first().ready() && parser.second().ready() ==> parser.ready(),
        productive(&parser.first()) || productive(&parser.second()) ==> productive(parser),
        decides(
            parser,
            |value: (A, B)| (first_view(value.0), second_view(value.1)),
            |input: Seq<char>| sequence_outcome(first, second, input),
        ),
{
    assert forall|input: Seq<char>, value: (A, B), rest: Seq<char>| #[trigger]
        parser.yields(input, value, rest) implies sequence_outcome(first, second, input) == Ok::<
        ((VA, VB), Seq<char>),
        Failure,
    >(((first_view(value.0), second_view(value.1)), rest)) && (productive(&parser.first())
        || productive(&parser.second()) ==> rest.len() < input.len()) by {
        let middle = choose|middle: Seq<char>| #[trigger]
            parser.first().yields(input, value.0, middle) && parser.second().yields(
                middle,
                value.1,
                rest,
            );
        parser.first().lemma_narrows(input, value.0, middle);
        parser.second().lemma_narrows(middle, value.1, rest);
    }
}

/// The outcome of a parse between optional spaces and tabs.
pub open spec fn ignore_spaces_outcome<V>(
    outcome: spec_fn(Seq<char>) -> Outcome<V>,
    input: Seq<char>,
) -> Outcome<V> {
    match outcome(unpadded(input)) {
        Ok((value, rest)) => Ok((value, unpadded(rest))),
        Err(failure) => Err(failure),
    }
}

/// A parser between optional spaces and tabs does what
/// `ignore_spaces_outcome` says where the parser between them does what
/// `outcome` says, and can be run where that parser can.
pub proof fn lemma_ignore_spaces_decides<'a, T, V, P: Parser<'a, T>>(
    parser: &IgnoreSpaces<P>,
    view: spec_fn(T) -> V,
    outcome: spec_fn(Seq<char>) -> Outcome<V>,
)
    requires
        decides(&parser.inner(), view, outcome),
    ensures
        parser.inner().ready() ==> parser.ready(),
        decides(parser, view, |input: Seq<char>| ignore_spaces_outcome(outcome, input)),
{
}

/// The outcome of a parse that has to consume the whole input.
pub open spec fn complete_outcome<V>(
    outcome: spec_fn(Seq<char>) -> Outcome<V>,
    input: Seq<char>,
) -> Outcome<V> {
    match outcome(input) {
        Ok((value, rest)) => if rest.len() == 0 {
            Ok((value, rest))
        } else {
            Err(Failure::ExpectingEOF)
        },
        Err(failure) => Err(failure),
    }
}

/// A parser that has to consume the whole input does what
/// `complete_outcome` says where the parser itself does what `outcome`
/// says, and can be run where that parser can.
pub proof fn lemma_complete_decides<'a, T, V, P: Parser<'a, T>>(
    parser: &Complete<P>,
    view: spec_fn(T) -> V,
    outcome: spec_fn(Seq<char>) -> Outcome<V>,
)
    requires
        decides(&parser.inner(), view, outcome),
    ensures
        parser.inner().ready() ==> parser.ready(),
        decides(parser, view, |input: Seq<char>| complete_outcome(outcome, input)),
{
}

/// The outcome of a parse whose value is transformed by `function`.
pub open spec fn mapped_outcome<V, W>(
    outcome: spec_fn(Seq<char>) -> Outcome<V>,
    function: spec_fn(V) -> W,
    input: Seq<char>,
) -> Outcome<W> {
    match outcome(input) {
        Ok((value, rest)) => Ok((function(value), rest)),
        Err(failure) => Err(failure),
    }
}

/// A parser whose value is transformed does what `mapped_outcome` says
/// where the parser does what `outcome` says and the transformation computes
/// `function`, and can be run where the parser can and the transformation
/// takes every value.
pub proof fn lemma_mapped_decides<'a, I, O, V, W, P: Parser<'a, I>, F: Fn(I) -> O>(
    parser: &Mapped<'a, I, O, P, F>,
    view: spec_fn(I) -> V,
    outcome: spec_fn(Seq<char>) -> Outcome<V>,
    mapped_view: spec_fn(O) -> W,
    function: spec_fn(V) -> W,
)
    requires
        decides(&parser.inner(), view, outcome),
        forall|value: I, mapped: O| #[trigger]
            call_ensures(parser.function(), (value,), mapped) ==> mapped_view(mapped) == function(
                view(value),
            ),
    ensures
        parser.inner().ready() && (forall|value: I| #[trigger]
            call_requires(parser.function(), (value,))) ==> parser.ready(),
        decides(parser, mapped_view, |input: Seq<char>| mapped_outcome(outcome, function, input)),
{
}

/// The outcome of a parse whose value is converted by `function`, which
/// may fail.
pub open spec fn flat_mapped_outcome<V, W>(
    outcome: spec_fn(Seq<char>) -> Outcome<V>,
    function: spec_fn(V) -> Result<W, Failure>,
    input: Seq<char>,
) -> Outcome<W> {
    match outcome(input) {
        Ok((value, rest)) => match function(value) {
            Ok(converted) => Ok((converted, rest)),
            Err(failure) => Err(failure),
        },
        Err(failure) => Err(failure),
    }
}

/// A parser whose value is converted does what `flat_mapped_outcome` says
/// where the parser does what `outcome` says and the conversion computes
/// `function`, and can be run where the parser can and the conversion takes
/// every value.
pub proof fn lemma_flat_mapped_decides<
    'a,
    I,
    O,
    E: Into<ParseError>,
    V,
    W,
    P: Parser<'a, I>,
    F: Fn(I) -> Result<O, E>,
>(
    parser: &FlatMapped<I, O, E, P, F>,
    view: spec_fn(I) -> V,
    outcome: spec_fn(Seq<char>) -> Outcome<V>,
    converted_view: spec_fn(O) -> W,
    function: spec_fn(V) -> Result<W, Failure>,
)
    requires
        decides(&parser.inner(), view, outcome),
        forall|value: I, converted: O| #[trigger]
            call_ensures(parser.function(), (value,), Ok::<O, E>(converted)) ==> function(
                view(value),
            ) == Ok::<W, Failure>(converted_view(converted)),
        forall|value: I, error: E, failure: Failure|
            #[trigger] call_ensures(parser.function(), (value,), Err::<O, E>(error))
                && #[trigger] turns_into(error, failure) ==> function(view(value)) == Err::<
                W,
                Failure,
            >(failure),
    ensures
        parser.inner().ready() && (forall|value: I| #[trigger]
            call_requires(parser.function(), (value,))) ==> parser.ready(),
        decides(
            parser,
            converted_view,
            |input: Seq<char>| flat_mapped_outcome(outcome, function, input),
        ),
{
}

/// Each of `options` does what the one of `outcomes` at its place says.
pub open spec fn each_decides<'a, T, V, P: Parser<'a, T>>(
    options: Seq<P>,
    view: spec_fn(T) -> V,
    outcomes: Seq<spec_fn(Seq<char>) -> Outcome<V>>,
) -> bool {
    &&& options.len() == outcomes.len()
    &&& forall|k: int| 0 <= k < options.len() ==> decides(&#[trigger] options[k], view, outcomes[k])
}

/// Options that may fail on the input are passed over: the first outcome
/// from `from` on is the first from `until` on where all between fail.
proof fn lemma_first_after_failures<'a, T, V, P: Parser<'a, T>>(
    options: Seq<P>,
    view: spec_fn(T) -> V,
    outcomes: Seq<spec_fn(Seq<char>) -> Outcome<V>>,
    from: int,
    until: int,
    input: Seq<char>,
)
    requires
        each_decides(options, view, outcomes),
        0 <= from <= until <= options.len(),
        all_may_fail(options, until, input),
    ensures
        first_outcome(outcomes, from, input) == first_outcome(outcomes, until, input),
    decreases until - from,
{
    if from < until {
        assert(may_fail(&options[from], input));
        lemma_first_after_failures(options, view, outcomes, from + 1, until, input);
    }
}

/// An alternation of parsers that do what `outcomes` say does what
/// `first_outcome` says.
pub proof fn lemma_one_of_decides<'a, T, V, P: Parser<'a, T>>(
    parser: &OneOf<'a, T, P>,
    view: spec_fn(T) -> V,
    outcomes: Seq<spec_fn(Seq<char>) -> Outcome<V>>,
)
    requires
        each_decides(parser.options(), view, outcomes),
    ensures
        decides(parser, view, |input: Seq<char>| first_outcome(outcomes, 0, input)),
{
    let options = parser.options();
    assert forall|input: Seq<char>, value: T, rest: Seq<char>| #[trigger]
        parser.yields(input, value, rest) implies first_outcome(outcomes, 0, input) == Ok::<
        (V, Seq<char>),
        Failure,
    >((view(value), rest)) by {
        let k = choose|k: int|
            0 <= k < options.len() && (#[trigger] options[k]).yields(input, value, rest)
                && all_may_fail(options, k, input);
        lemma_first_after_failures(options, view, outcomes, 0, k, input);
    }
    assert forall|input: Seq<char>, failure: Failure| #[trigger]
        parser.fails(input, failure) implies first_outcome(outcomes, 0, input) == Err::<
        (V, Seq<char>),
        Failure,
    >(failure) by {
        lemma_first_after_failures(options, view, outcomes, 0, options.len() as int, input);
    }
}

/// Repeating the match of one character in `class` consumes the leading
/// characters in `class`.
pub proof fn lemma_repeated_any(class: spec_fn(char) -> bool, input: Seq<char>)
    ensures
        repeated(|rest: Seq<char>| any_outcome(class, rest), input) == (
            input.take(leading(input, class) as int),
            input.skip(leading(input, class) as int),
        ),
    decreases input.len(),
{
    if input.len() > 0 && class(input[0]) {
        let tail = input.skip(1);
        lemma_repeated_any(class, tail);
        lemma_leading_run(tail, class);
    }
}

/// Matching one or more characters in `class` consumes the leading
/// characters in `class`, and fails as the match of one character does
/// where there is none.
pub proof fn lemma_at_least_one_any(class: spec_fn(char) -> bool, input: Seq<char>)
    ensures
        match at_least_outcome(|rest: Seq<char>| any_outcome(class, rest), 1, input) {
            Ok((values, rest)) => {
                let count = leading(input, class) as int;
                &&& 0 < count <= input.len()
                &&& values == input.take(count)
                &&& rest == input.skip(count)
            },
            Err(failure) => {
                &&& leading(input, class) == 0
                &&& any_outcome(class, input) == Err::<(char, Seq<char>), Failure>(failure)
            },
        },
{
    reveal_with_fuel(at_least_outcome, 2);
    if input.len() > 0 && class(input[0]) {
        let tail = input.skip(1);
        lemma_repeated_any(class, tail);
        lemma_leading_run(tail, class);
    }
}

/// Whenever `outcome` succeeds, its value has `property`.
pub open spec fn yielding<V>(
    outcome: spec_fn(Seq<char>) -> Outcome<V>,
    property: spec_fn(V) -> bool,
) -> bool {
    forall|input: Seq<char>|
        match #[trigger] outcome(input) {
            Ok((value, _)) => property(value),
            Err(_) => true,
        }
}

/// Every value of a repetition has a property that every value of the
/// repeated outcome has.
pub proof fn lemma_repeated_values<V>(
    outcome: spec_fn(Seq<char>) -> Outcome<V>,
    property: spec_fn(V) -> bool,
    input: Seq<char>,
)
    requires
        yielding(outcome, property),
    ensures
        forall|i: int|
            0 <= i < repeated(outcome, input).0.len() ==> property(
                #[trigger] repeated(outcome, input).0[i],
            ),
    decreases input.len(),
{
    match outcome(input) {
        Ok((value, rest)) => {
            if rest.len() < input.len() {
                lemma_repeated_values(outcome, property, rest);
                let values = repeated(outcome, input).0;
                let more = repeated(outcome, rest).0;
                assert forall|i: int| 0 <= i < values.len() implies property(
                    #[trigger] values[i],
                ) by {
                    if i > 0 {
                        assert(values[i] == more[i - 1]);
                    }
                }
            }
        },
        Err(_) => {},
    }
}

/// Every value of a repetition with a minimum has a property that every
/// value of the repeated outcome has.
pub proof fn lemma_at_least_values<V>(
    outcome: spec_fn(Seq<char>) -> Outcome<V>,
    property: spec_fn(V) -> bool,
    minimum: nat,
    input: Seq<char>,
)
    requires
        yielding(outcome, property),
    ensures
        match at_least_outcome(outcome, minimum, input) {
            Ok((values, _)) => forall|i: int|
                0 <= i < values.len() ==> property(#[trigger] values[i]),
            Err(_) => true,
        },
    decreases minimum,
{
    if minimum == 0 {
        lemma_repeated_values(outcome, property, input);
    } else {
        match outcome(input) {
            Ok((value, rest)) => {
                lemma_at_least_values(outcome, property, (minimum - 1) as nat, rest);
                match at_least_outcome(outcome, (minimum - 1) as nat, rest) {
                    Ok((more, _)) => {
                        let values = seq![value] + more;
                        assert forall|i: int| 0 <= i < values.len() implies property(
                            #[trigger] values[i],
                        ) by {
                            if i > 0 {
                                assert(values[i] == more[i - 1]);
                            }
                        }
                    },
                    Err(_) => {},
                }
            },
            Err(_) => {},
        }
    }
}

/// Whenever `outcome` succeeds, what it leaves is a suffix of the input.
pub open spec fn narrowing<V>(outcome: spec_fn(Seq<char>) -> Outcome<V>) -> bool {
    forall|input: Seq<char>|
        match #[trigger] outcome(input) {
            Ok((_, rest)) => is_suffix(rest, input),
            Err(_) => true,
        }
}

/// Whenever `outcome` succeeds, it leaves less than the input.
pub open spec fn consuming<V>(outcome: spec_fn(Seq<char>) -> Outcome<V>) -> bool {
    forall|input: Seq<char>|
        match #[trigger] outcome(input) {
            Ok((_, rest)) => rest.len() < input.len(),
            Err(_) => true,
        }
}

/// A repetition of a narrowing outcome leaves a suffix of the input.
pub proof fn lemma_repeated_narrows<V>(outcome: spec_fn(Seq<char>) -> Outcome<V>, input: Seq<char>)
    requires
        narrowing(outcome),
    ensures
        is_suffix(repeated(outcome, input).1, input),
    decreases input.len(),
{
    match outcome(input) {
        Ok((value, rest)) => {
            if rest.len() < input.len() {
                lemma_repeated_narrows(outcome, rest);
            }
        },
        Err(_) => {},
    }
}

/// A repetition of a narrowing outcome leaves a suffix of the input, and
/// less than the input where the outcome consumes and has to succeed once at
/// least.
pub proof fn lemma_at_least_narrows<V>(
    outcome: spec_fn(Seq<char>) -> Outcome<V>,
    minimum: nat,
    input: Seq<char>,
)
    requires
        narrowing(outcome),
    ensures
        match at_least_outcome(outcome, minimum, input) {
            Ok((values, rest)) => {
                &&& is_suffix(rest, input)
                &&& values.len() >= minimum
                &&& minimum > 0 && consuming(outcome) ==> rest.len() < input.len()
            },
            Err(_) => true,
        },
    decreases minimum,
{
    if minimum == 0 {
        lemma_repeated_narrows(outcome, input);
    } else {
        match outcome(input) {
            Ok((value, rest)) => {
                lemma_at_least_narrows(outcome, (minimum - 1) as nat, rest);
                match at_least_outcome(outcome, (minimum - 1) as nat, rest) {
                    Ok((values, end)) => {
                    },
                    Err(_) => {},
                }
            },
            Err(_) => {},
        }
    }
}

} // verus!
