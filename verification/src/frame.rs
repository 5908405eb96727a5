//! Cursors over productions, the frames of a traversal's stack.

use crate::rules::produce;
use crate::symbol::Symbol;
use vstd::prelude::*;

verus! {

/// A cursor over one production.
pub struct Frame<T> {
    symbols: Vec<T>,
    position: usize,
}

impl<T: Symbol> Frame<T> {
    /// The cursor has not run past the end of its production.
    pub closed spec fn wf(&self) -> bool {
        self.position <= self.symbols.len()
    }

    /// The symbols the cursor has yet to hand out.
    pub closed spec fn rest(&self) -> Seq<T> {
        self.symbols@.skip(self.position as int)
    }

    /// All the symbols that the frame holds, handed out or not.
    pub closed spec fn content(&self) -> Seq<T> {
        self.symbols@
    }

    /// A cursor at the start of `symbols`.
    pub fn new(symbols: Vec<T>) -> (frame: Self)
        ensures
            frame.wf(),
            frame.rest() == symbols@,
            frame.content() == symbols@,
    {
        Frame { symbols, position: 0 }
    }

    /// Whether the cursor has handed out every symbol.
    pub fn is_exhausted(&self) -> (exhausted: bool)
        requires
            self.wf(),
        ensures
            exhausted == (self.rest().len() == 0),
    {
        self.position >= self.symbols.len()
    }

    /// Hands out the next symbol.
    pub fn advance(&mut self) -> (symbol: T)
        requires
            old(self).wf(),
            old(self).rest().len() > 0,
        ensures
            final(self).wf(),
            symbol == old(self).rest()[0],
            final(self).rest() == old(self).rest().skip(1),
            final(self).content() == old(self).content(),
    {
        let symbol = self.symbols[self.position];
        self.position = self.position + 1;
        symbol
    }
}

/// Every frame of a stack is well formed.
pub open spec fn frames_wf<T: Symbol>(frames: Seq<Frame<T>>) -> bool {
    forall|i: int| 0 <= i < frames.len() ==> (#[trigger] frames[i]).wf()
}

/// No production of `rules` is longer than `width`, which is one at least,
/// so that no symbol produces more than `width` symbols.
pub open spec fn covers<T>(rules: Map<T, Seq<T>>, width: nat) -> bool {
    &&& width >= 1
    &&& forall|symbol: T| #[trigger] rules.contains_key(symbol) ==> rules[symbol].len() <= width
}

/// `content` is no longer than any production of `rules` may be.
pub open spec fn fits<T>(rules: Map<T, Seq<T>>, content: Seq<T>) -> bool {
    forall|width: nat| #[trigger] covers(rules, width) ==> content.len() <= width
}

/// Every frame of a stack holds no more than a production of `rules` may hold.
pub open spec fn frames_fit<T: Symbol>(rules: Map<T, Seq<T>>, frames: Seq<Frame<T>>) -> bool {
    forall|i: int| 0 <= i < frames.len() ==> fits(rules, (#[trigger] frames[i]).content())
}

/// The number of symbols that the frames of a stack hold.
pub open spec fn stored<T: Symbol>(frames: Seq<Frame<T>>) -> nat
    decreases frames.len(),
{
    if frames.len() == 0 {
        0
    } else {
        stored(frames.drop_last()) + frames.last().content().len()
    }
}

/// What a symbol produces is no longer than a production may be.
pub proof fn lemma_production_fits<T>(rules: Map<T, Seq<T>>, symbol: T)
    ensures
        fits(rules, produce(rules, symbol)),
{
}

/// A stack whose frames each hold no more than a production may hold holds
/// no more than its depth times the longest production.
pub proof fn lemma_stored_bound<T: Symbol>(
    rules: Map<T, Seq<T>>,
    frames: Seq<Frame<T>>,
    limit: nat,
    width: nat,
)
    requires
        frames_fit(rules, frames),
        covers(rules, width),
        frames.len() <= limit,
    ensures
        stored(frames) <= limit * width,
    decreases frames.len(),
{
    if frames.len() == 0 {
        assert(0 <= limit * width) by (nonlinear_arith);
    } else {
        lemma_stored_bound(rules, frames.drop_last(), (limit - 1) as nat, width);
        assert(frames.last().content().len() <= width);
        assert((limit - 1) * width + width == limit * width) by (nonlinear_arith);
    }
}

/// A stack of at most `limit` frames that each hold no more than a
/// production may hold holds no more than `limit` times the longest
/// production, whatever that is.
pub proof fn lemma_stored_bounds<T: Symbol>(
    rules: Map<T, Seq<T>>,
    frames: Seq<Frame<T>>,
    limit: nat,
)
    requires
        frames_fit(rules, frames),
        frames.len() <= limit,
    ensures
        forall|width: nat| #[trigger] covers(rules, width) ==> stored(frames) <= limit * width,
{
    assert forall|width: nat| #[trigger] covers(rules, width) implies stored(frames) <= limit
        * width by {
        lemma_stored_bound(rules, frames, limit, width);
    }
}

} // verus!
