//! L-systems over characters: a definition's rules with its rendering
//! parameters, and words of variables that are rewritten whole.

use crate::config::RendererConfig;
use crate::expansion::{expand, rewrite};
use crate::rules::{produce, LSystemRules};
use crate::symbol::{RendererInstruction, Symbol};
use vstd::prelude::*;

verus! {

/// What a definition holds: the rule store and the rendering parameters.
#[derive(Debug, PartialEq, Clone)]
pub struct LSystem<T: Symbol> {
    pub rules: LSystemRules<T>,
    pub render_config: RendererConfig,
}

/// A symbol that is written as one character.
#[derive(Debug, PartialEq, Eq, Hash, Clone, Copy)]
pub struct Variable {
    pub symbol: char,
}

impl Variable {
    pub fn new(symbol: char) -> (variable: Self)
        ensures
            variable.symbol == symbol,
    {
        Variable { symbol }
    }
}

impl Symbol for Variable {
    open spec fn key(self) -> u64 {
        self.symbol.key()
    }

    open spec fn instruction(self) -> RendererInstruction {
        self.symbol.instruction()
    }

    proof fn lemma_key_injective(a: Self, b: Self) {
        char::lemma_key_injective(a.symbol, b.symbol);
    }

    fn to_key(&self) -> (k: u64) {
        self.symbol.to_key()
    }

    fn to_rendering_instruction(&self) -> (instruction: RendererInstruction) {
        self.symbol.to_rendering_instruction()
    }
}

/// A sequence of variables.
pub type Word = Vec<Variable>;

/// The substitutions of an L-system over variables, applied to whole words.
pub struct Rules {
    substitutions: LSystemRules<Variable>,
}

impl View for Rules {
    type V = Map<Variable, Seq<Variable>>;

    closed spec fn view(&self) -> Map<Variable, Seq<Variable>> {
        self.substitutions@
    }
}

impl Rules {
    /// Rules without substitutions: every variable stands for itself.
    pub fn new() -> (rules: Self)
        ensures
            rules@ == Map::<Variable, Seq<Variable>>::empty(),
    {
        Rules { substitutions: LSystemRules::new() }
    }

    /// Makes `substitution` the substitution of `variable`, replacing the
    /// one it had.
    pub fn insert(&mut self, variable: Variable, substitution: Vec<Variable>)
        ensures
            final(self)@ == old(self)@.insert(variable, substitution@),
    {
        self.substitutions.insert(variable, substitution);
    }

    /// One round of rewriting: `word` with every variable replaced by its
    /// substitution.
    pub fn apply(&self, word: Word) -> (next: Word)
        ensures
            next@ == rewrite(self@, word@),
    {
        self.substitutions.rewrite_word(&word)
    }

    /// The substitution of `variable`, or the variable alone where it has
    /// none.
    pub fn get(&self, variable: &Variable) -> (substitution: Vec<Variable>)
        ensures
            substitution@ == produce(self@, *variable),
    {
        self.substitutions.apply(*variable)
    }

    /// The word that `rounds` rounds of rewriting make of `word`.
    pub fn generation(&self, word: Word, rounds: usize) -> (last: Word)
        ensures
            last@ == expand(self@, word@, rounds as nat),
    {
        self.substitutions.generation(word, rounds)
    }
}

} // verus!
