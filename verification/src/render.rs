//! The boundary to a renderer: what a renderer has to offer, and how words
//! and streams are handed to it instruction by instruction.

use crate::config::RendererConfig;
use crate::events::{Event, EventIterator};
use crate::expansion::SymbolIterator;
use crate::symbol::{RendererInstruction, Symbol};
use vstd::prelude::*;
use vstd::string::*;

verus! {

/// The instructions carried out once `instruction` has been handed to a
/// renderer that had carried out `drawn`: `NoOp` leaves no trace.
pub open spec fn carried_out(
    drawn: Seq<RendererInstruction>,
    instruction: RendererInstruction,
) -> Seq<RendererInstruction> {
    if instruction is NoOp {
        drawn
    } else {
        drawn.push(instruction)
    }
}

/// A consumer of instructions.  All drawing is its own affair: of a renderer
/// only the instructions that it has carried out are spoken of, in the order
/// in which it carried them out.
pub trait Renderer: Sized {
    /// The instructions that the renderer has carried out.
    ///
    /// A renderer that is verified states its own account here.  One that
    /// is not verified cannot, and nothing that is proved of a renderer
    /// holds of it.
    open spec fn drawn(&self) -> Seq<RendererInstruction> {
        Seq::empty()
    }

    /// A renderer that has carried out nothing yet.
    fn new(renderer_config: RendererConfig) -> (renderer: Self)
        ensures
            renderer.drawn() == Seq::<RendererInstruction>::empty(),
    ;

    /// Hands one instruction to the method that carries it out.
    fn render(&mut self, instruction: RendererInstruction)
        ensures
            final(self).drawn() == carried_out(old(self).drawn(), instruction),
    {
        match instruction {
            RendererInstruction::Push => self.push(),
            RendererInstruction::Pop => self.pop(),
            RendererInstruction::Forward => self.forward(),
            RendererInstruction::RotateLeft => self.rotate_left(),
            RendererInstruction::RotateRight => self.rotate_right(),
            RendererInstruction::IncreaseStep => self.increase_step(),
            RendererInstruction::DecreaseStep => self.decrease_step(),
            RendererInstruction::NoOp => {},
        }
    }

    /// Saves the drawing state.
    fn push(&mut self)
        ensures
            final(self).drawn() == old(self).drawn().push(RendererInstruction::Push),
    ;

    /// Restores the drawing state that was saved last.
    fn pop(&mut self)
        ensures
            final(self).drawn() == old(self).drawn().push(RendererInstruction::Pop),
    ;

    /// Draws a line ahead.
    fn forward(&mut self)
        ensures
            final(self).drawn() == old(self).drawn().push(RendererInstruction::Forward),
    ;

    /// Turns left.
    fn rotate_left(&mut self)
        ensures
            final(self).drawn() == old(self).drawn().push(RendererInstruction::RotateLeft),
    ;

    /// Turns right.
    fn rotate_right(&mut self)
        ensures
            final(self).drawn() == old(self).drawn().push(RendererInstruction::RotateRight),
    ;

    /// Makes the step longer.
    fn increase_step(&mut self)
        ensures
            final(self).drawn() == old(self).drawn().push(RendererInstruction::IncreaseStep),
    ;

    /// Makes the step shorter.
    fn decrease_step(&mut self)
        ensures
            final(self).drawn() == old(self).drawn().push(RendererInstruction::DecreaseStep),
    ;

    /// Ends the drawing.
    fn finish(&mut self)
        ensures
            final(self).drawn() == old(self).drawn(),
    ;
}

/// The instructions that the symbols of `word` stand for, in order, without
/// the symbols that stand for none.
pub open spec fn instructions<T: Symbol>(word: Seq<T>) -> Seq<RendererInstruction>
    decreases word.len(),
{
    if word.len() == 0 {
        Seq::empty()
    } else {
        carried_out(instructions(word.drop_last()), word.last().instruction())
    }
}

/// The instruction that an event stands for: `Push` and `Pop` for
/// themselves, a symbol to render for its own instruction.
pub open spec fn event_instruction<T: Symbol>(event: Event<T>) -> RendererInstruction {
    match event {
        Event::Push => RendererInstruction::Push,
        Event::Pop => RendererInstruction::Pop,
        Event::Render(symbol) => symbol.instruction(),
    }
}

/// The instructions that `events` stand for, in order.
pub open spec fn event_instructions<T: Symbol>(events: Seq<Event<T>>) -> Seq<RendererInstruction>
    decreases events.len(),
{
    if events.len() == 0 {
        Seq::empty()
    } else {
        carried_out(event_instructions(events.drop_last()), event_instruction(events.last()))
    }
}

/// Hands the instruction of every symbol of `word` to `renderer`, in order.
pub fn render_word<T: Symbol, R: Renderer>(renderer: &mut R, word: &Vec<T>)
    ensures
        final(renderer).drawn() == old(renderer).drawn() + instructions(word@),
{
    let mut i: usize = 0;
    while i < word.len()
        invariant
            i <= word.len(),
            renderer.drawn() == old(renderer).drawn() + instructions(word@.take(i as int)),
        decreases word.len() - i,
    {
        proof {
            let next = word@.take(i + 1);
            assert(next.drop_last() == word@.take(i as int));
        }
        renderer.render(word[i].to_rendering_instruction());
        i += 1;
    }
    assert(word@.take(word.len() as int) == word@);
}

/// Hands the instruction of `event` to `renderer`.
pub fn render_event<T: Symbol, R: Renderer>(renderer: &mut R, event: Event<T>)
    ensures
        final(renderer).drawn() == carried_out(old(renderer).drawn(), event_instruction(event)),
{
    match event {
        Event::Push => renderer.push(),
        Event::Pop => renderer.pop(),
        Event::Render(symbol) => renderer.render(symbol.to_rendering_instruction()),
    }
}

/// Pulls `stream` to its end and hands the instruction of every symbol to
/// `renderer`.
pub fn render_symbols<T: Symbol, R: Renderer>(renderer: &mut R, stream: SymbolIterator<'_, T>)
    ensures
        final(renderer).drawn() == old(renderer).drawn() + instructions(stream.remaining()),
{
    let mut stream = stream;
    let ghost all = stream.remaining();
    let ghost mut done: Seq<T> = Seq::empty();
    loop
        invariant_except_break
            done + stream.remaining() == all,
            renderer.drawn() == old(renderer).drawn() + instructions(done),
        ensures
            renderer.drawn() == old(renderer).drawn() + instructions(all),
        decreases stream.remaining().len(),
    {
        match stream.next() {
            Some(symbol) => {
                renderer.render(symbol.to_rendering_instruction());
                proof {
                    let next = done.push(symbol);
                    assert(next.drop_last() == done);
                    done = next;
                }
            },
            None => {
                break ;
            },
        }
    }
}

/// Pulls `stream` to its end and hands the instruction of every event to
/// `renderer`.
pub fn render_events<T: Symbol, R: Renderer>(renderer: &mut R, stream: EventIterator<'_, T>)
    ensures
        final(renderer).drawn() == old(renderer).drawn() + event_instructions(stream.remaining()),
{
    let mut stream = stream;
    let ghost all = stream.remaining();
    let ghost mut done: Seq<Event<T>> = Seq::empty();
    loop
        invariant_except_break
            done + stream.remaining() == all,
            renderer.drawn() == old(renderer).drawn() + event_instructions(done),
        ensures
            renderer.drawn() == old(renderer).drawn() + event_instructions(all),
        decreases stream.remaining().len(),
    {
        match stream.next() {
            Some(event) => {
                render_event(renderer, event);
                proof {
                    let next = done.push(event);
                    assert(next.drop_last() == done);
                    done = next;
                }
            },
            None => {
                break ;
            },
        }
    }
}

/// The character that a collector writes for an instruction.
pub open spec fn mark(instruction: RendererInstruction) -> char {
    match instruction {
        RendererInstruction::Forward => 'F',
        RendererInstruction::RotateLeft => '-',
        RendererInstruction::RotateRight => '+',
        RendererInstruction::Push => '[',
        RendererInstruction::Pop => ']',
        RendererInstruction::IncreaseStep => '#',
        RendererInstruction::DecreaseStep => '!',
        RendererInstruction::NoOp => ' ',
    }
}

/// A renderer that draws nothing and writes down one character for each
/// instruction it is handed.
pub struct Collector {
    collected: String,
}

impl View for Collector {
    type V = Seq<char>;

    closed spec fn view(&self) -> Seq<char> {
        self.collected@
    }
}

impl Collector {
    /// A collector that has written down nothing yet.
    pub fn new() -> (collector: Self)
        ensures
            collector@ == Seq::<char>::empty(),
    {
        Collector { collected: String::new() }
    }

    /// What the collector has written down.
    pub fn as_str(&self) -> (text: &str)
        ensures
            text@ == self@,
    {
        self.collected.as_str()
    }

    fn write(&mut self, text: &str, Ghost(instruction): Ghost<RendererInstruction>)
        requires
            text@ == seq![mark(instruction)],
        ensures
            final(self)@ == old(self)@.push(mark(instruction)),
    {
        self.collected.append(text);
    }
}

impl Renderer for Collector {
    open spec fn drawn(&self) -> Seq<RendererInstruction> {
        self@.map_values(|c: char| c.instruction())
    }

    fn new(renderer_config: RendererConfig) -> (renderer: Self) {
        let renderer = Collector::new();
        renderer
    }

    fn push(&mut self)
        ensures
            final(self)@ == old(self)@.push('['),
    {
        proof {
            reveal_strlit("[");
            assert("["@ == seq!['[']);
        }
        self.write("[", Ghost(RendererInstruction::Push));
    }

    fn pop(&mut self)
        ensures
            final(self)@ == old(self)@.push(']'),
    {
        proof {
            reveal_strlit("]");
            assert("]"@ == seq![']']);
        }
        self.write("]", Ghost(RendererInstruction::Pop));
    }

    fn forward(&mut self)
        ensures
            final(self)@ == old(self)@.push('F'),
    {
        proof {
            reveal_strlit("F");
            assert("F"@ == seq!['F']);
        }
        self.write("F", Ghost(RendererInstruction::Forward));
    }

    fn rotate_left(&mut self)
        ensures
            final(self)@ == old(self)@.push('-'),
    {
        proof {
            reveal_strlit("-");
            assert("-"@ == seq!['-']);
        }
        self.write("-", Ghost(RendererInstruction::RotateLeft));
    }

    fn rotate_right(&mut self)
        ensures
            final(self)@ == old(self)@.push('+'),
    {
        proof {
            reveal_strlit("+");
            assert("+"@ == seq!['+']);
        }
        self.write("+", Ghost(RendererInstruction::RotateRight));
    }

    fn increase_step(&mut self)
        ensures
            final(self)@ == old(self)@.push('#'),
    {
        proof {
            reveal_strlit("#");
            assert("#"@ == seq!['#']);
        }
        self.write("#", Ghost(RendererInstruction::IncreaseStep));
    }

    fn decrease_step(&mut self)
        ensures
            final(self)@ == old(self)@.push('!'),
    {
        proof {
            reveal_strlit("!");
            assert("!"@ == seq!['!']);
        }
        self.write("!", Ghost(RendererInstruction::DecreaseStep));
    }

    fn finish(&mut self)
        ensures
            final(self)@ == old(self)@,
    {
    }
}

} // verus!
