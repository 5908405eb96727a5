//! Symbols and the drawing instructions they stand for.

use std::fmt::Debug;
use std::hash::Hash;
use vstd::prelude::*;

verus! {

/// The closed set of instructions that a renderer understands.
#[derive(Debug, Clone, Copy, PartialEq, Eq, Structural)]
pub enum RendererInstruction {
    Forward,
    RotateLeft,
    RotateRight,
    Push,
    Pop,
    IncreaseStep,
    DecreaseStep,
    NoOp,
}

/// An atomic rewriting token.
///
/// A symbol is copyable and is told apart from every other symbol by an
/// integer key: the rule store files productions under that key, so two
/// symbols with the same key have to be the same symbol.
pub trait Symbol: Debug + Eq + Hash + Copy {
    /// The key of this symbol.
    spec fn key(self) -> u64;

    /// The instruction this symbol stands for.
    spec fn instruction(self) -> RendererInstruction;

    /// Distinct symbols have distinct keys.
    proof fn lemma_key_injective(a: Self, b: Self)
        requires
            a.key() == b.key(),
        ensures
            a == b,
    ;

    /// Computes the key of this symbol.
    fn to_key(&self) -> (k: u64)
        ensures
            k == self.key(),
    ;

    /// Maps this symbol to the instruction it stands for.
    fn to_rendering_instruction(&self) -> (instruction: RendererInstruction)
        ensures
            instruction == self.instruction(),
    ;
}

/// Characters with the same code are the same character.
proof fn lemma_char_code_injective(a: char, b: char)
    requires
        a as u64 == b as u64,
    ensures
        a == b,
{
}

impl Symbol for char {
    open spec fn key(self) -> u64 {
        self as u64
    }

    open spec fn instruction(self) -> RendererInstruction {
        if self == 'F' {
            RendererInstruction::Forward
        } else if self == '+' {
            RendererInstruction::RotateRight
        } else if self == '-' {
            RendererInstruction::RotateLeft
        } else if self == '[' {
            RendererInstruction::Push
        } else if self == ']' {
            RendererInstruction::Pop
        } else if self == '#' {
            RendererInstruction::IncreaseStep
        } else if self == '!' {
            RendererInstruction::DecreaseStep
        } else {
            RendererInstruction::NoOp
        }
    }

    proof fn lemma_key_injective(a: Self, b: Self) {
        lemma_char_code_injective(a, b);
    }

    fn to_key(&self) -> (k: u64) {
        *self as u64
    }

    fn to_rendering_instruction(&self) -> (instruction: RendererInstruction) {
        match *self {
            'F' => RendererInstruction::Forward,
            '+' => RendererInstruction::RotateRight,
            '-' => RendererInstruction::RotateLeft,
            '[' => RendererInstruction::Push,
            ']' => RendererInstruction::Pop,
            '#' => RendererInstruction::IncreaseStep,
            '!' => RendererInstruction::DecreaseStep,
            _ => RendererInstruction::NoOp,
        }
    }
}

} // verus!
