//! Iteration-bounded expansion: the word that results from rewriting every
//! symbol of a word a fixed number of times, streamed lazily.

use crate::frame::{
    covers, frames_fit, frames_wf, lemma_production_fits, lemma_stored_bound,
    lemma_stored_bounds, stored, Frame,
};
use crate::rules::{produce, LSystemRules};
use crate::symbol::Symbol;
use vstd::prelude::*;

verus! {

/// One round of rewriting: every symbol of `word` is replaced by its
/// production, and the productions are concatenated in order.
pub open spec fn rewrite<T>(rules: Map<T, Seq<T>>, word: Seq<T>) -> Seq<T>
    decreases word.len(),
{
    if word.len() == 0 {
        Seq::empty()
    } else {
        produce(rules, word[0]) + rewrite(rules, word.skip(1))
    }
}

/// `rounds` rounds of rewriting, each applied to the whole word that the
/// round before left.
pub open spec fn expand<T>(rules: Map<T, Seq<T>>, word: Seq<T>, rounds: nat) -> Seq<T>
    decreases rounds,
{
    if rounds == 0 {
        word
    } else {
        expand(rules, rewrite(rules, word), (rounds - 1) as nat)
    }
}

/// Rewriting a concatenation rewrites its parts.
pub proof fn lemma_rewrite_concat<T>(rules: Map<T, Seq<T>>, a: Seq<T>, b: Seq<T>)
    ensures
        rewrite(rules, a + b) == rewrite(rules, a) + rewrite(rules, b),
    decreases a.len(),
{
    if a.len() > 0 {
        assert((a + b).skip(1) == a.skip(1) + b);
        lemma_rewrite_concat(rules, a.skip(1), b);
    }
}

/// Expanding a concatenation expands its parts.
pub proof fn lemma_expand_concat<T>(rules: Map<T, Seq<T>>, a: Seq<T>, b: Seq<T>, rounds: nat)
    ensures
        expand(rules, a + b, rounds) == expand(rules, a, rounds) + expand(rules, b, rounds),
    decreases rounds,
{
    if rounds > 0 {
        lemma_rewrite_concat(rules, a, b);
        lemma_expand_concat(rules, rewrite(rules, a), rewrite(rules, b), (rounds - 1) as nat);
    }
}

/// The empty word expands to itself.
pub proof fn lemma_expand_empty<T>(rules: Map<T, Seq<T>>, rounds: nat)
    ensures
        expand(rules, Seq::<T>::empty(), rounds) == Seq::<T>::empty(),
    decreases rounds,
{
    if rounds > 0 {
        lemma_expand_empty(rules, (rounds - 1) as nat);
    }
}

/// With a round to go, a word expands to what the production of its first
/// symbol expands to in one round less, followed by what the rest expands to.
pub proof fn lemma_expand_first<T>(rules: Map<T, Seq<T>>, word: Seq<T>, rounds: nat)
    requires
        word.len() > 0,
        rounds > 0,
    ensures
        expand(rules, word, rounds) == expand(
            rules,
            produce(rules, word[0]),
            (rounds - 1) as nat,
        ) + expand(rules, word.skip(1), rounds),
{
    let head = seq![word[0]];
    assert(word == head + word.skip(1));
    lemma_expand_concat(rules, head, word.skip(1), rounds);
    assert(rewrite(rules, head.skip(1)) == Seq::<T>::empty());
}

/// Expanding in two stages is expanding once with the rounds added up.
pub proof fn lemma_expand_compose<T>(rules: Map<T, Seq<T>>, word: Seq<T>, first: nat, second: nat)
    ensures
        expand(rules, expand(rules, word, first), second) == expand(rules, word, first + second),
    decreases first,
{
    if first > 0 {
        lemma_expand_compose(rules, rewrite(rules, word), (first - 1) as nat, second);
    }
}

/// Two stores with the same rules expand every word alike.
pub proof fn lemma_expand_deterministic<T: Symbol>(
    a: &LSystemRules<T>,
    b: &LSystemRules<T>,
    word: Seq<T>,
    rounds: nat,
)
    requires
        a@ == b@,
    ensures
        expand(a@, word, rounds) == expand(b@, word, rounds),
{
}

/// The number of steps the traversal spends on one symbol that has `rounds`
/// rounds to go.
spec fn symbol_effort<T>(rules: Map<T, Seq<T>>, symbol: T, rounds: nat) -> nat
    decreases rounds, 0nat,
{
    if rounds == 0 {
        1
    } else {
        2 + word_effort(rules, produce(rules, symbol), (rounds - 1) as nat)
    }
}

/// The number of steps the traversal spends on a word whose symbols have
/// `rounds` rounds to go.
spec fn word_effort<T>(rules: Map<T, Seq<T>>, word: Seq<T>, rounds: nat) -> nat
    decreases rounds, word.len() + 1,
{
    if word.len() == 0 {
        0
    } else {
        symbol_effort(rules, word[0], rounds) + word_effort(rules, word.skip(1), rounds)
    }
}

/// What the frames of a stack have yet to give, from the top frame down.  The
/// symbols of the frame at height `h` (the bottom frame has height 1) have
/// `iterations - h` rounds to go.
pub open spec fn pending<T: Symbol>(
    rules: Map<T, Seq<T>>,
    frames: Seq<Frame<T>>,
    iterations: nat,
) -> Seq<T>
    decreases frames.len(),
{
    if frames.len() == 0 {
        Seq::empty()
    } else {
        expand(rules, frames.last().rest(), (iterations - frames.len()) as nat) + pending(
            rules,
            frames.drop_last(),
            iterations,
        )
    }
}

spec fn stack_effort<T: Symbol>(
    rules: Map<T, Seq<T>>,
    frames: Seq<Frame<T>>,
    iterations: nat,
) -> nat
    decreases frames.len(),
{
    if frames.len() == 0 {
        0
    } else {
        1 + word_effort(rules, frames.last().rest(), (iterations - frames.len()) as nat)
            + stack_effort(rules, frames.drop_last(), iterations)
    }
}

/// What a traversal has yet to yield: what its frames hold, then what is left
/// of the axiom.
pub open spec fn stream_of<T: Symbol>(
    rules: Map<T, Seq<T>>,
    frames: Seq<Frame<T>>,
    seed: Seq<T>,
    iterations: nat,
) -> Seq<T> {
    pending(rules, frames, iterations) + expand(rules, seed, iterations)
}

spec fn effort_of<T: Symbol>(
    rules: Map<T, Seq<T>>,
    frames: Seq<Frame<T>>,
    seed: Seq<T>,
    iterations: nat,
) -> nat {
    stack_effort(rules, frames, iterations) + word_effort(rules, seed, iterations)
}

/// A lazy stream of the symbols of `expand(rules, seed, iterations)`, where
/// `seed` is the axiom.
///
/// The stream keeps a stack of at most `iterations` frames, whatever the
/// length of the expansion.
pub struct SymbolIterator<'a, T: Symbol> {
    seed: Vec<T>,
    position: usize,
    rules: &'a LSystemRules<T>,
    iterations: usize,
    stack: Vec<Frame<T>>,
}

impl<'a, T: Symbol> SymbolIterator<'a, T> {
    #[verifier::type_invariant]
    spec fn inv(&self) -> bool {
        &&& self.position <= self.seed.len()
        &&& self.stack.len() <= self.iterations
        &&& frames_wf(self.stack@)
        &&& frames_fit(self.rules@, self.stack@)
    }

    /// The rules that the stream rewrites with.
    pub closed spec fn rules(&self) -> Map<T, Seq<T>> {
        self.rules@
    }

    /// The number of rounds that every symbol of the axiom goes through.
    pub closed spec fn iterations(&self) -> nat {
        self.iterations as nat
    }

    /// The number of frames on the stack.
    pub closed spec fn depth(&self) -> nat {
        self.stack.len() as nat
    }

    /// The number of symbols that the frames on the stack hold.
    pub closed spec fn stored(&self) -> nat {
        stored(self.stack@)
    }

    /// The symbols that the stream has yet to yield, in order.
    pub closed spec fn remaining(&self) -> Seq<T> {
        stream_of(
            self.rules@,
            self.stack@,
            self.seed@.skip(self.position as int),
            self.iterations as nat,
        )
    }

    /// The number of frames on the stack, which never exceeds the number of
    /// iterations.  The frames together hold no more symbols than the
    /// number of iterations times the length of the longest production,
    /// however long the expansion is.
    pub fn current_depth(&self) -> (depth: usize)
        ensures
            depth == self.depth(),
            depth <= self.iterations(),
            forall|width: nat| #[trigger]
                covers(self.rules(), width) ==> self.stored() <= self.iterations() * width,
    {
        proof {
            use_type_invariant(self);
            assert forall|width: nat| #[trigger] covers(self.rules(), width) implies self.stored()
                <= self.iterations() * width by {
                lemma_stored_bound(self.rules@, self.stack@, self.iterations as nat, width);
            }
        }
        self.stack.len()
    }

    /// A stream of the expansion of the axiom `seed` under `rules`.
    pub fn new(rules: &'a LSystemRules<T>, iterations: usize, seed: Vec<T>) -> (stream: Self)
        ensures
            stream.rules() == rules@,
            stream.iterations() == iterations,
            stream.depth() == 0,
            stream.stored() == 0,
            stream.remaining() == expand(rules@, seed@, iterations as nat),
    {
        let stream = SymbolIterator {
            seed,
            position: 0,
            rules,
            iterations,
            stack: Vec::with_capacity(iterations),
        };
        assert(seed@.skip(0) == seed@);
        stream
    }

    /// Puts `stack` in the place of the stack of the stream, which is empty.
    fn restore(&mut self, stack: Vec<Frame<T>>)
        requires
            old(self).stack@.len() == 0,
            old(self).position <= old(self).seed.len(),
            stack.len() <= old(self).iterations,
            frames_wf(stack@),
            frames_fit(old(self).rules@, stack@),
        ensures
            final(self).stack@ == stack@,
            final(self).seed == old(self).seed,
            final(self).position == old(self).position,
            final(self).rules == old(self).rules,
            final(self).iterations == old(self).iterations,
            forall|width: nat| #[trigger]
                covers(final(self).rules(), width) ==> final(self).stored()
                    <= final(self).iterations() * width,
    {
        proof {
            lemma_stored_bounds(self.rules@, stack@, self.iterations as nat);
        }
        self.stack = stack;
    }

    /// Yields the next symbol of the expansion, or `None` once it has been
    /// yielded whole.
    pub fn next(&mut self) -> (item: Option<T>)
        ensures
            final(self).rules() == old(self).rules(),
            final(self).iterations() == old(self).iterations(),
            final(self).depth() <= final(self).iterations(),
            forall|width: nat| #[trigger]
                covers(final(self).rules(), width) ==> final(self).stored()
                    <= final(self).iterations() * width,
            old(self).remaining().len() == 0 ==> item is None && final(self).remaining().len() == 0,
            old(self).remaining().len() > 0 ==> item == Some(old(self).remaining()[0])
                && final(self).remaining() == old(self).remaining().skip(1),
    {
        proof {
            use_type_invariant(&*self);
        }
        let ghost rules = self.rules@;
        let ghost iterations = self.iterations as nat;
        let ghost stream = self.remaining();
        let mut stack: Vec<Frame<T>> = Vec::new();
        core::mem::swap(&mut self.stack, &mut stack);
        loop
            invariant
                self.rules == old(self).rules,
                self.iterations == old(self).iterations,
                self.seed == old(self).seed,
                self.rules@ == rules,
                self.iterations == iterations,
                self.stack@.len() == 0,
                self.position <= self.seed.len(),
                stack.len() <= self.iterations,
                frames_wf(stack@),
                frames_fit(rules, stack@),
                stream == old(self).remaining(),
                stream_of(rules, stack@, self.seed@.skip(self.position as int), iterations)
                    == stream,
            decreases effort_of(rules, stack@, self.seed@.skip(self.position as int), iterations),
        {
            let ghost before = stack@;
            let ghost seed = self.seed@.skip(self.position as int);
            if stack.len() > 0 {
                let mut top = stack.pop().unwrap();
                let ghost below = stack@;
                let ghost rounds = (iterations - before.len()) as nat;
                if top.is_exhausted() {
                    proof {
                        lemma_expand_empty(rules, rounds);
                        assert(before.drop_last() == below);
                        assert(pending(rules, before, iterations) == pending(
                            rules,
                            below,
                            iterations,
                        ));
                    }
                } else if stack.len() + 1 == self.iterations {
                    let symbol = top.advance();
                    stack.push(top);
                    assert(stack@.drop_last() == below);
                    self.restore(stack);
                    return Some(symbol);
                } else {
                    let ghost word = top.rest();
                    let symbol = top.advance();
                    stack.push(top);
                    let ghost middle = stack@;
                    let production = self.rules.apply(symbol);
                    let frame = Frame::new(production);
                    stack.push(frame);
                    proof {
                        let after = stack@;
                        let ahead = expand(rules, production@, (rounds - 1) as nat);
                        let behind = expand(rules, word.skip(1), rounds);
                        let deeper = pending(rules, below, iterations);
                        assert(before.drop_last() == below);
                        assert(middle.drop_last() == below);
                        assert(after.drop_last() == middle);
                        lemma_expand_first(rules, word, rounds);
                        lemma_production_fits(rules, symbol);
                        assert(pending(rules, before, iterations) == (ahead + behind) + deeper);
                        assert(pending(rules, middle, iterations) == behind + deeper);
                        assert(pending(rules, after, iterations) == ahead + (behind + deeper));
                        assert(stack_effort(rules, after, iterations) == 1 + word_effort(
                            rules,
                            production@,
                            (rounds - 1) as nat,
                        ) + stack_effort(rules, middle, iterations));
                        assert(symbol_effort(rules, symbol, rounds) == 2 + word_effort(
                            rules,
                            production@,
                            (rounds - 1) as nat,
                        ));
                    }
                }
            } else {
                assert(pending(rules, before, iterations) == Seq::<T>::empty());
                if self.position >= self.seed.len() {
                    proof {
                        lemma_expand_empty(rules, iterations);
                    }
                    self.restore(stack);
                    return None;
                }
                let symbol = self.seed[self.position];
                self.position = self.position + 1;
                let ghost rest = self.seed@.skip(self.position as int);
                assert(seed == seq![symbol] + rest);
                assert(rest == seed.skip(1));
                if self.iterations == 0 {
                    self.restore(stack);
                    return Some(symbol);
                }
                let production = self.rules.apply(symbol);
                let frame = Frame::new(production);
                stack.push(frame);
                proof {
                    assert(stack@.drop_last() == before);
                    lemma_expand_first(rules, seed, iterations);
                    lemma_production_fits(rules, symbol);
                    assert(pending(rules, stack@, iterations) == expand(
                        rules,
                        production@,
                        (iterations - 1) as nat,
                    ));
                    assert(word_effort(rules, seed, iterations) == symbol_effort(
                        rules,
                        symbol,
                        iterations,
                    ) + word_effort(rules, rest, iterations));
                }
            }
        }
    }

    /// Yields the next `count` symbols of the stream, or all that are left
    /// where they are fewer.
    pub fn take(&mut self, count: usize) -> (items: Vec<T>)
        ensures
            final(self).rules() == old(self).rules(),
            items@.len() == if count <= old(self).remaining().len() {
                count as nat
            } else {
                old(self).remaining().len()
            },
            items@ == old(self).remaining().take(items@.len() as int),
            final(self).remaining() == old(self).remaining().skip(items@.len() as int),
    {
        let ghost stream = self.remaining();
        let mut items: Vec<T> = Vec::new();
        while items.len() < count
            invariant
                self.rules() == old(self).rules(),
                stream == old(self).remaining(),
                items@.len() <= count,
                items@.len() <= stream.len(),
                items@ == stream.take(items@.len() as int),
                self.remaining() == stream.skip(items@.len() as int),
            decreases count - items@.len(),
        {
            match self.next() {
                Some(item) => {
                    items.push(item);
                },
                None => {
                    return items;
                },
            }
        }
        items
    }

    /// Yields all the symbols that are left, in order.
    pub fn collect(self) -> (items: Vec<T>)
        ensures
            items@ == self.remaining(),
    {
        let mut stream = self;
        let mut items: Vec<T> = Vec::new();
        loop
            invariant_except_break
                items@ + stream.remaining() == self.remaining(),
            ensures
                items@ == self.remaining(),
            decreases stream.remaining().len(),
        {
            match stream.next() {
                Some(item) => {
                    items.push(item);
                },
                None => {
                    break ;
                },
            }
        }
        items
    }
}

impl<T: Symbol> LSystemRules<T> {
    /// One round of rewriting: the word in which every symbol of `word` is
    /// replaced by its production.
    pub fn rewrite_word(&self, word: &Vec<T>) -> (next: Vec<T>)
        ensures
            next@ == rewrite(self@, word@),
    {
        let mut next: Vec<T> = Vec::new();
        let mut i: usize = 0;
        while i < word.len()
            invariant
                i <= word.len(),
                next@ == rewrite(self@, word@.take(i as int)),
            decreases word.len() - i,
        {
            let mut production = self.apply(word[i]);
            proof {
                let single = seq![word@[i as int]];
                assert(word@.take(i + 1) == word@.take(i as int) + single);
                lemma_rewrite_concat(self@, word@.take(i as int), single);
                assert(rewrite(self@, single.skip(1)) == Seq::<T>::empty());
            }
            next.append(&mut production);
            i += 1;
        }
        assert(word@.take(word.len() as int) == word@);
        next
    }

    /// The word that `rounds` rounds of rewriting make of `word`, built
    /// whole.
    pub fn generation(&self, word: Vec<T>, rounds: usize) -> (last: Vec<T>)
        ensures
            last@ == expand(self@, word@, rounds as nat),
    {
        let mut current = word;
        let mut done: usize = 0;
        while done < rounds
            invariant
                done <= rounds,
                expand(self@, current@, (rounds - done) as nat) == expand(
                    self@,
                    word@,
                    rounds as nat,
                ),
            decreases rounds - done,
        {
            current = self.rewrite_word(&current);
            done += 1;
        }
        current
    }

    /// A lazy stream of the word that `iterations` rounds of rewriting make
    /// of the axiom `seed`.
    pub fn symbol_iterator(&self, iterations: usize, seed: Vec<T>) -> (stream: SymbolIterator<
        '_,
        T,
    >)
        ensures
            stream.rules() == self@,
            stream.iterations() == iterations,
            stream.depth() == 0,
            stream.remaining() == expand(self@, seed@, iterations as nat),
    {
        SymbolIterator::new(self, iterations, seed)
    }
}

} // verus!
