//! Depth-bounded expansion: a lazy, bracket-balanced stream of structural
//! events.

use crate::expansion::{expand, lemma_expand_concat, lemma_expand_empty};
use crate::frame::{
    covers, fits, frames_fit, frames_wf, lemma_production_fits, lemma_stored_bounds, stored, Frame,
};
use crate::rules::{produce, LSystemRules};
use crate::symbol::Symbol;
use vstd::prelude::*;

verus! {

/// One item of the structural stream.
#[derive(Debug, Clone, Copy, PartialEq, Eq)]
pub enum Event<T> {
    /// A frame was opened: the renderer saves its drawing state.
    Push,
    /// A frame was closed: the renderer restores its drawing state.
    Pop,
    /// A symbol reached the depth bound and is drawn as it is.
    Render(T),
}

/// The number of frames that may still be opened above a frame at `height`.
pub open spec fn room(max_depth: nat, height: nat) -> nat {
    if height < max_depth {
        (max_depth - height) as nat
    } else {
        0
    }
}

/// The events of one symbol that stands in a frame with `room` frames to go:
/// the symbol itself where no frame may be opened, else its production
/// between a `Push` and a `Pop`.
pub open spec fn symbol_events<T>(rules: Map<T, Seq<T>>, symbol: T, room: nat) -> Seq<Event<T>>
    decreases room, 0nat,
{
    if room == 0 {
        seq![Event::Render(symbol)]
    } else {
        seq![Event::Push] + word_events(rules, produce(rules, symbol), (room - 1) as nat)
            + seq![Event::Pop]
    }
}

/// The events of the symbols of `word`, in order.
pub open spec fn word_events<T>(rules: Map<T, Seq<T>>, word: Seq<T>, room: nat) -> Seq<Event<T>>
    decreases room, word.len() + 1,
{
    if word.len() == 0 {
        Seq::empty()
    } else {
        symbol_events(rules, word[0], room) + word_events(rules, word.skip(1), room)
    }
}

/// The part of the axiom that the first frame holds: its lead symbol.
pub open spec fn lead<T>(seed: Seq<T>) -> Seq<T> {
    if seed.len() == 0 {
        seed
    } else {
        seed.take(1)
    }
}

/// The whole structural stream of the axiom `seed`: a frame that holds the
/// lead symbol is opened, traversed with at most `max_depth` frames on the
/// stack, and closed.
pub open spec fn event_stream<T>(rules: Map<T, Seq<T>>, seed: Seq<T>, max_depth: nat) -> Seq<
    Event<T>,
> {
    seq![Event::Push] + word_events(rules, lead(seed), room(max_depth, 1)) + seq![Event::Pop]
}

/// The number of `Push` events in `events`.
pub open spec fn pushes<T>(events: Seq<Event<T>>) -> nat
    decreases events.len(),
{
    if events.len() == 0 {
        0
    } else {
        pushes(events.drop_last()) + if events.last() is Push {
            1nat
        } else {
            0nat
        }
    }
}

/// The number of `Pop` events in `events`.
pub open spec fn pops<T>(events: Seq<Event<T>>) -> nat
    decreases events.len(),
{
    if events.len() == 0 {
        0
    } else {
        pops(events.drop_last()) + if events.last() is Pop {
            1nat
        } else {
            0nat
        }
    }
}

/// The events of a concatenation are counted part by part.
pub proof fn lemma_counts_concat<T>(a: Seq<Event<T>>, b: Seq<Event<T>>)
    ensures
        pushes(a + b) == pushes(a) + pushes(b),
        pops(a + b) == pops(a) + pops(b),
    decreases b.len(),
{
    if b.len() > 0 {
        assert((a + b).drop_last() == a + b.drop_last());
        lemma_counts_concat(a, b.drop_last());
    }
}

/// One event counts as a `Push` or as a `Pop` where it is one.
proof fn lemma_counts_single<T>(event: Event<T>)
    ensures
        pushes(seq![event]) == if event is Push {
            1nat
        } else {
            0nat
        },
        pops(seq![event]) == if event is Pop {
            1nat
        } else {
            0nat
        },
{
    let single = seq![event];
    assert(pushes(single.drop_last()) == 0);
    assert(pops(single.drop_last()) == 0);
}

/// The events of a symbol hold as many `Pop`s as `Push`es.
pub proof fn lemma_symbol_events_balanced<T>(rules: Map<T, Seq<T>>, symbol: T, room: nat)
    ensures
        pushes(symbol_events(rules, symbol, room)) == pops(symbol_events(rules, symbol, room)),
    decreases room, 0nat,
{
    if room == 0 {
        lemma_counts_single(Event::Render(symbol));
    } else {
        let inner = word_events(rules, produce(rules, symbol), (room - 1) as nat);
        lemma_word_events_balanced(rules, produce(rules, symbol), (room - 1) as nat);
        lemma_counts_single(Event::<T>::Push);
        lemma_counts_single(Event::<T>::Pop);
        lemma_counts_concat(seq![Event::Push], inner);
        lemma_counts_concat(seq![Event::Push] + inner, seq![Event::Pop]);
    }
}

/// The events of a word hold as many `Pop`s as `Push`es.
pub proof fn lemma_word_events_balanced<T>(rules: Map<T, Seq<T>>, word: Seq<T>, room: nat)
    ensures
        pushes(word_events(rules, word, room)) == pops(word_events(rules, word, room)),
    decreases room, word.len() + 1,
{
    if word.len() > 0 {
        lemma_symbol_events_balanced(rules, word[0], room);
        lemma_word_events_balanced(rules, word.skip(1), room);
        lemma_counts_concat(
            symbol_events(rules, word[0], room),
            word_events(rules, word.skip(1), room),
        );
    }
}

/// Bracket balance: over the whole stream of any axiom under any depth bound
/// there are as many `Pop`s as `Push`es.
pub proof fn lemma_event_stream_balanced<T>(rules: Map<T, Seq<T>>, seed: Seq<T>, max_depth: nat)
    ensures
        pushes(event_stream(rules, seed, max_depth)) == pops(
            event_stream(rules, seed, max_depth),
        ),
{
    let inner = word_events(rules, lead(seed), room(max_depth, 1));
    lemma_word_events_balanced(rules, lead(seed), room(max_depth, 1));
    lemma_counts_single(Event::<T>::Push);
    lemma_counts_single(Event::<T>::Pop);
    lemma_counts_concat(seq![Event::Push], inner);
    lemma_counts_concat(seq![Event::Push] + inner, seq![Event::Pop]);
}

/// The number of frames that are open after `events`: the `Push`es less the
/// `Pop`s.
pub open spec fn nesting<T>(events: Seq<Event<T>>) -> int {
    pushes(events) - pops(events)
}

/// After every prefix of `events` at least no frame and at most `limit`
/// frames are open.
pub open spec fn well_nested<T>(events: Seq<Event<T>>, limit: nat) -> bool {
    forall|n: int| 0 <= n <= events.len() ==> 0 <= #[trigger] nesting(events.take(n)) <= limit
}

/// Balanced events that are well nested, followed by events that are well
/// nested, are well nested.
pub proof fn lemma_concat_nested<T>(a: Seq<Event<T>>, b: Seq<Event<T>>, limit: nat)
    requires
        well_nested(a, limit),
        well_nested(b, limit),
        pushes(a) == pops(a),
    ensures
        well_nested(a + b, limit),
{
    assert forall|n: int| 0 <= n <= (a + b).len() implies 0 <= #[trigger] nesting((a + b).take(n))
        <= limit by {
        if n <= a.len() {
            assert((a + b).take(n) == a.take(n));
        } else {
            assert((a + b).take(n) == a + b.take(n - a.len()));
            lemma_counts_concat(a, b.take(n - a.len()));
            assert(0 <= nesting(b.take(n - a.len())) <= limit);
        }
    }
}

/// Balanced events that are well nested are well nested, one frame deeper,
/// between a `Push` and a `Pop`.
pub proof fn lemma_wrapped_nested<T>(inner: Seq<Event<T>>, limit: nat)
    requires
        well_nested(inner, limit),
        pushes(inner) == pops(inner),
    ensures
        well_nested(seq![Event::Push] + inner + seq![Event::Pop], limit + 1),
{
    let open = seq![Event::<T>::Push];
    let close = seq![Event::<T>::Pop];
    let all = open + inner + close;
    lemma_counts_single(Event::<T>::Push);
    lemma_counts_single(Event::<T>::Pop);
    assert forall|n: int| 0 <= n <= all.len() implies 0 <= #[trigger] nesting(all.take(n)) <= limit
        + 1 by {
        if 0 < n <= inner.len() + 1 {
            assert(all.take(n) == open + inner.take(n - 1));
            lemma_counts_concat(open, inner.take(n - 1));
            assert(0 <= nesting(inner.take(n - 1)) <= limit);
        } else if n > 0 {
            assert(all.take(n) == all);
            lemma_counts_concat(open, inner);
            lemma_counts_concat(open + inner, close);
        }
    }
}

/// The events of a symbol are well nested within the room that the symbol
/// has.
pub proof fn lemma_symbol_events_nested<T>(rules: Map<T, Seq<T>>, symbol: T, room: nat)
    ensures
        well_nested(symbol_events(rules, symbol, room), room),
    decreases room, 0nat,
{
    if room == 0 {
        let single = seq![Event::Render(symbol)];
        lemma_counts_single(Event::Render(symbol));
        assert forall|n: int| 0 <= n <= single.len() implies 0 <= #[trigger] nesting(
            single.take(n),
        ) <= 0 by {
            if n > 0 {
                assert(single.take(n) == single);
            }
        }
    } else {
        let inner = word_events(rules, produce(rules, symbol), (room - 1) as nat);
        lemma_word_events_nested(rules, produce(rules, symbol), (room - 1) as nat);
        lemma_word_events_balanced(rules, produce(rules, symbol), (room - 1) as nat);
        lemma_wrapped_nested(inner, (room - 1) as nat);
    }
}

/// The events of a word are well nested within the room that its symbols
/// have.
pub proof fn lemma_word_events_nested<T>(rules: Map<T, Seq<T>>, word: Seq<T>, room: nat)
    ensures
        well_nested(word_events(rules, word, room), room),
    decreases room, word.len() + 1,
{
    if word.len() > 0 {
        lemma_symbol_events_nested(rules, word[0], room);
        lemma_symbol_events_balanced(rules, word[0], room);
        lemma_word_events_nested(rules, word.skip(1), room);
        lemma_concat_nested(
            symbol_events(rules, word[0], room),
            word_events(rules, word.skip(1), room),
            room,
        );
    }
}

/// Depth bound: after every prefix of the stream of any axiom the number
/// of open frames is within the depth limit, and never negative.
pub proof fn lemma_event_stream_nested<T>(rules: Map<T, Seq<T>>, seed: Seq<T>, max_depth: nat)
    ensures
        well_nested(event_stream(rules, seed, max_depth), depth_limit(max_depth)),
{
    let inner = word_events(rules, lead(seed), room(max_depth, 1));
    lemma_word_events_nested(rules, lead(seed), room(max_depth, 1));
    lemma_word_events_balanced(rules, lead(seed), room(max_depth, 1));
    lemma_wrapped_nested(inner, room(max_depth, 1));
}

/// The symbols that `events` render, in order.
pub open spec fn rendered<T>(events: Seq<Event<T>>) -> Seq<T>
    decreases events.len(),
{
    if events.len() == 0 {
        Seq::empty()
    } else {
        match events.last() {
            Event::Render(symbol) => rendered(events.drop_last()).push(symbol),
            _ => rendered(events.drop_last()),
        }
    }
}

/// The symbols that a concatenation renders are those that its parts
/// render.
pub proof fn lemma_rendered_concat<T>(a: Seq<Event<T>>, b: Seq<Event<T>>)
    ensures
        rendered(a + b) == rendered(a) + rendered(b),
    decreases b.len(),
{
    if b.len() > 0 {
        assert((a + b).drop_last() == a + b.drop_last());
        lemma_rendered_concat(a, b.drop_last());
    }
}

/// One event renders its symbol where it is a `Render`, and nothing else.
proof fn lemma_rendered_single<T>(event: Event<T>)
    ensures
        rendered(seq![event]) == match event {
            Event::Render(symbol) => seq![symbol],
            _ => Seq::<T>::empty(),
        },
{
    let single = seq![event];
    assert(rendered(single.drop_last()) == Seq::<T>::empty());
}

/// The events of a symbol with `room` frames to go render what `room`
/// rounds of rewriting make of the symbol.
pub proof fn lemma_symbol_events_render_expansion<T>(rules: Map<T, Seq<T>>, symbol: T, room: nat)
    ensures
        rendered(symbol_events(rules, symbol, room)) == expand(rules, seq![symbol], room),
    decreases room, 0nat,
{
    if room == 0 {
        lemma_rendered_single(Event::Render(symbol));
    } else {
        let production = produce(rules, symbol);
        let inner = word_events(rules, production, (room - 1) as nat);
        lemma_word_events_render_expansion(rules, production, (room - 1) as nat);
        lemma_rendered_single(Event::<T>::Push);
        lemma_rendered_single(Event::<T>::Pop);
        lemma_rendered_concat(seq![Event::Push], inner);
        lemma_rendered_concat(seq![Event::Push] + inner, seq![Event::Pop]);
        lemma_expand_empty(rules, room);
        assert(seq![symbol].skip(1) == Seq::<T>::empty());
    }
}

/// The events of a word whose symbols have `room` frames to go render what
/// `room` rounds of rewriting make of the word.
pub proof fn lemma_word_events_render_expansion<T>(rules: Map<T, Seq<T>>, word: Seq<T>, room: nat)
    ensures
        rendered(word_events(rules, word, room)) == expand(rules, word, room),
    decreases room, word.len() + 1,
{
    if word.len() == 0 {
        lemma_expand_empty(rules, room);
    } else {
        lemma_symbol_events_render_expansion(rules, word[0], room);
        lemma_word_events_render_expansion(rules, word.skip(1), room);
        lemma_rendered_concat(
            symbol_events(rules, word[0], room),
            word_events(rules, word.skip(1), room),
        );
        assert(word == seq![word[0]] + word.skip(1));
        lemma_expand_concat(rules, seq![word[0]], word.skip(1), room);
    }
}

/// The two ways to bound an expansion meet: the stream of an axiom under a
/// depth bound renders the word that rewriting the lead symbol of the axiom
/// makes in one round less than the bound.
pub proof fn lemma_event_stream_renders_expansion<T>(
    rules: Map<T, Seq<T>>,
    seed: Seq<T>,
    max_depth: nat,
)
    ensures
        rendered(event_stream(rules, seed, max_depth)) == expand(
            rules,
            lead(seed),
            room(max_depth, 1),
        ),
{
    let inner = word_events(rules, lead(seed), room(max_depth, 1));
    lemma_word_events_render_expansion(rules, lead(seed), room(max_depth, 1));
    lemma_rendered_single(Event::<T>::Push);
    lemma_rendered_single(Event::<T>::Pop);
    lemma_rendered_concat(seq![Event::Push], inner);
    lemma_rendered_concat(seq![Event::Push] + inner, seq![Event::Pop]);
}

/// Determinism: two stores with the same rules give every axiom the same
/// stream under the same bound.
pub proof fn lemma_event_stream_deterministic<T: Symbol>(
    a: &LSystemRules<T>,
    b: &LSystemRules<T>,
    seed: Seq<T>,
    max_depth: nat,
)
    requires
        a@ == b@,
    ensures
        event_stream(a@, seed, max_depth) == event_stream(b@, seed, max_depth),
{
}

/// The events that the frames of a stack have yet to give, from the top
/// frame down: what is left of each frame, then the `Pop` that closes it.
pub open spec fn unwinding<T: Symbol>(
    rules: Map<T, Seq<T>>,
    frames: Seq<Frame<T>>,
    max_depth: nat,
) -> Seq<Event<T>>
    decreases frames.len(),
{
    if frames.len() == 0 {
        Seq::empty()
    } else {
        word_events(rules, frames.last().rest(), room(max_depth, frames.len())) + seq![Event::Pop]
            + unwinding(rules, frames.drop_last(), max_depth)
    }
}

/// The depth that a traversal under `max_depth` never exceeds: the bound
/// itself, and one frame where the bound is zero, since the first frame is
/// opened in any case.
pub open spec fn depth_limit(max_depth: nat) -> nat {
    if max_depth == 0 {
        1
    } else {
        max_depth
    }
}

/// A lazy stream of the events of `event_stream(rules, seed, max_depth)`,
/// where `seed` is the axiom.
pub struct EventIterator<'a, T: Symbol> {
    seed: Vec<T>,
    started: bool,
    rules: &'a LSystemRules<T>,
    max_depth: usize,
    stack: Vec<Frame<T>>,
}

impl<'a, T: Symbol> EventIterator<'a, T> {
    #[verifier::type_invariant]
    spec fn inv(&self) -> bool {
        &&& self.stack.len() <= depth_limit(self.max_depth as nat)
        &&& !self.started ==> self.stack.len() == 0
        &&& frames_wf(self.stack@)
        &&& frames_fit(self.rules@, self.stack@)
    }

    /// The rules that the stream rewrites with.
    pub closed spec fn rules(&self) -> Map<T, Seq<T>> {
        self.rules@
    }

    /// The configured depth bound.
    pub closed spec fn max_depth(&self) -> nat {
        self.max_depth as nat
    }

    /// The number of frames on the stack.
    pub closed spec fn depth(&self) -> nat {
        self.stack.len() as nat
    }

    /// The number of symbols that the frames on the stack hold.
    pub closed spec fn stored(&self) -> nat {
        stored(self.stack@)
    }

    /// The events that the stream has yet to yield, in order.
    pub closed spec fn remaining(&self) -> Seq<Event<T>> {
        if self.started {
            unwinding(self.rules@, self.stack@, self.max_depth as nat)
        } else {
            event_stream(self.rules@, self.seed@, self.max_depth as nat)
        }
    }

    /// The number of frames on the stack, which never exceeds the depth
    /// limit.  The frames together hold no more symbols than the depth
    /// limit times the length of the longest production, however long the
    /// stream is.
    pub fn current_depth(&self) -> (depth: usize)
        ensures
            depth == self.depth(),
            depth <= depth_limit(self.max_depth()),
            self.max_depth() >= 1 ==> depth <= self.max_depth(),
            forall|width: nat| #[trigger]
                covers(self.rules(), width) ==> self.stored() <= depth_limit(self.max_depth())
                    * width,
    {
        proof {
            use_type_invariant(self);
            lemma_stored_bounds(self.rules@, self.stack@, depth_limit(self.max_depth as nat));
        }
        self.stack.len()
    }

    /// A stream of the events of the axiom `seed` under `rules`.
    pub fn new(rules: &'a LSystemRules<T>, max_depth: usize, seed: Vec<T>) -> (stream: Self)
        ensures
            stream.rules() == rules@,
            stream.max_depth() == max_depth,
            stream.depth() == 0,
            stream.stored() == 0,
            stream.remaining() == event_stream(rules@, seed@, max_depth as nat),
    {
        EventIterator { seed, started: false, rules, max_depth, stack: Vec::new() }
    }

    /// Puts `stack` in the place of the stack of the stream, which is empty.
    fn restore(&mut self, stack: Vec<Frame<T>>)
        requires
            old(self).stack@.len() == 0,
            stack.len() <= depth_limit(old(self).max_depth as nat),
            !old(self).started ==> stack.len() == 0,
            frames_wf(stack@),
            frames_fit(old(self).rules@, stack@),
        ensures
            final(self).stack@ == stack@,
            final(self).seed == old(self).seed,
            final(self).started == old(self).started,
            final(self).rules == old(self).rules,
            final(self).max_depth == old(self).max_depth,
            forall|width: nat| #[trigger]
                covers(final(self).rules(), width) ==> final(self).stored() <= depth_limit(
                    final(self).max_depth(),
                ) * width,
    {
        proof {
            lemma_stored_bounds(self.rules@, stack@, depth_limit(self.max_depth as nat));
        }
        self.stack = stack;
    }

    /// Yields the next event of the stream, or `None` once the stream is
    /// exhausted.
    pub fn next(&mut self) -> (item: Option<Event<T>>)
        ensures
            final(self).rules() == old(self).rules(),
            final(self).max_depth() == old(self).max_depth(),
            final(self).depth() <= depth_limit(final(self).max_depth()),
            forall|width: nat| #[trigger]
                covers(final(self).rules(), width) ==> final(self).stored() <= depth_limit(
                    final(self).max_depth(),
                ) * width,
            old(self).remaining().len() == 0 ==> item is None && final(self).remaining().len() == 0,
            old(self).remaining().len() > 0 ==> item == Some(old(self).remaining()[0])
                && final(self).remaining() == old(self).remaining().skip(1),
            item == Some(Event::<T>::Push) ==> final(self).depth() == old(self).depth() + 1,
            item == Some(Event::<T>::Pop) ==> final(self).depth() + 1 == old(self).depth(),
            item matches Some(Event::Render(_)) ==> final(self).depth() == old(self).depth(),
    {
        proof {
            use_type_invariant(&*self);
        }
        let ghost rules = self.rules@;
        let ghost max_depth = self.max_depth as nat;
        let mut stack: Vec<Frame<T>> = Vec::new();
        core::mem::swap(&mut self.stack, &mut stack);
        let ghost before = stack@;
        if !self.started {
            let mut first: Vec<T> = Vec::new();
            if self.seed.len() > 0 {
                first.push(self.seed[0]);
            }
            assert(first@ == lead(self.seed@));
            assert(fits(rules, first@));
            let frame = Frame::new(first);
            stack.push(frame);
            proof {
                assert(stack@.drop_last() == before);
                assert(unwinding(rules, before, max_depth) == Seq::<Event<T>>::empty());
            }
            self.started = true;
            self.restore(stack);
            return Some(Event::Push);
        }
        if stack.len() == 0 {
            self.restore(stack);
            return None;
        }
        let height = stack.len();
        let mut top = stack.pop().unwrap();
        let ghost below = stack@;
        let ghost space = room(max_depth, height as nat);
        let ghost word = top.rest();
        let ghost deeper = seq![Event::<T>::Pop] + unwinding(rules, below, max_depth);
        if top.is_exhausted() {
            self.restore(stack);
            return Some(Event::Pop);
        }
        let symbol = top.advance();
        stack.push(top);
        let ghost middle = stack@;
        let ghost behind = word_events(rules, word.skip(1), space);
        proof {
            assert(middle.drop_last() == below);
            assert(unwinding(rules, middle, max_depth) == behind + deeper);
        }
        if height < self.max_depth {
            let production = self.rules.apply(symbol);
            let frame = Frame::new(production);
            stack.push(frame);
            proof {
                lemma_production_fits(rules, symbol);
                let inner = word_events(rules, production@, (space - 1) as nat);
                assert(stack@.drop_last() == middle);
                assert(symbol_events(rules, symbol, space) == seq![Event::Push] + inner
                    + seq![Event::Pop]);
            }
            self.restore(stack);
            Some(Event::Push)
        } else {
            assert(symbol_events(rules, symbol, space) == seq![Event::Render(symbol)]);
            self.restore(stack);
            Some(Event::Render(symbol))
        }
    }

    /// Yields the next `count` events of the stream, or all that are left
    /// where they are fewer.
    pub fn take(&mut self, count: usize) -> (items: Vec<Event<T>>)
        ensures
            final(self).rules() == old(self).rules(),
            items@.len() == if count <= old(self).remaining().len() {
                count as nat
            } else {
                old(self).remaining().len()
            },
            items@ == old(self).remaining().take(items@.len() as int),
            final(self).remaining() == old(self).remaining().skip(items@.len() as int),
    {
        let ghost stream = self.remaining();
        let mut items: Vec<Event<T>> = Vec::new();
        while items.len() < count
            invariant
                self.rules() == old(self).rules(),
                stream == old(self).remaining(),
                items@.len() <= count,
                items@.len() <= stream.len(),
                items@ == stream.take(items@.len() as int),
                self.remaining() == stream.skip(items@.len() as int),
            decreases count - items@.len(),
        {
            match self.next() {
                Some(item) => {
                    items.push(item);
                },
                None => {
                    return items;
                },
            }
        }
        items
    }

    /// Yields all the events that are left, in order.
    pub fn collect(self) -> (items: Vec<Event<T>>)
        ensures
            items@ == self.remaining(),
    {
        let mut stream = self;
        let mut items: Vec<Event<T>> = Vec::new();
        loop
            invariant_except_break
                items@ + stream.remaining() == self.remaining(),
            ensures
                items@ == self.remaining(),
            decreases stream.remaining().len(),
        {
            match stream.next() {
                Some(item) => {
                    items.push(item);
                },
                None => {
                    break ;
                },
            }
        }
        items
    }
}

impl<T: Symbol> LSystemRules<T> {
    /// A lazy stream of the structural events of the axiom `seed`, traversed
    /// with at most `max_depth` frames on the stack.
    pub fn event_iterator(&self, max_depth: usize, seed: Vec<T>) -> (stream: EventIterator<'_, T>)
        ensures
            stream.rules() == self@,
            stream.max_depth() == max_depth,
            stream.depth() == 0,
            stream.remaining() == event_stream(self@, seed@, max_depth as nat),
    {
        EventIterator::new(self, max_depth, seed)
    }
}

} // verus!
