use lsystem::config::RendererConfig;
use lsystem::events::Event;
use lsystem::render::{
    render_event, render_events, render_symbols, render_word, Collector, Renderer,
};
use lsystem::rules::LSystemRules;
use lsystem::symbol::{RendererInstruction, Symbol};

#[test]
fn every_symbol_has_an_instruction() {
    assert_eq!('F'.to_rendering_instruction(), RendererInstruction::Forward);
    assert_eq!('+'.to_rendering_instruction(), RendererInstruction::RotateRight);
    assert_eq!('-'.to_rendering_instruction(), RendererInstruction::RotateLeft);
    assert_eq!('['.to_rendering_instruction(), RendererInstruction::Push);
    assert_eq!(']'.to_rendering_instruction(), RendererInstruction::Pop);
    assert_eq!('#'.to_rendering_instruction(), RendererInstruction::IncreaseStep);
    assert_eq!('!'.to_rendering_instruction(), RendererInstruction::DecreaseStep);
    assert_eq!('X'.to_rendering_instruction(), RendererInstruction::NoOp);
    assert_eq!(' '.to_rendering_instruction(), RendererInstruction::NoOp);
    assert_eq!('F'.to_key(), 70);
}

#[test]
fn collector_writes_one_mark_for_each_instruction() {
    let mut collector = Collector::new();
    collector.render(RendererInstruction::Forward);
    collector.render(RendererInstruction::NoOp);
    collector.render(RendererInstruction::RotateLeft);
    collector.render(RendererInstruction::RotateRight);
    collector.render(RendererInstruction::Push);
    collector.render(RendererInstruction::IncreaseStep);
    collector.render(RendererInstruction::DecreaseStep);
    collector.render(RendererInstruction::Pop);
    collector.finish();
    assert_eq!(collector.as_str(), "F-+[#!]");
}

#[test]
fn words_are_rendered_symbol_by_symbol() {
    let mut collector = <Collector as Renderer>::new(RendererConfig::default());
    render_word(&mut collector, &vec!['F', 'X', '+', 'F', 'Y', ']']);
    assert_eq!(collector.as_str(), "F+F]");
}

#[test]
fn streams_are_rendered_to_their_end() {
    let system = LSystemRules::new()
        .add('X', vec!['F', '+', 'X'])
        .add('F', vec!['F', 'F']);
    let mut flat = Collector::new();
    render_symbols(&mut flat, system.symbol_iterator(2, vec!['X']));
    assert_eq!(flat.as_str(), "FF+F+");

    let mut nested = Collector::new();
    render_events(&mut nested, system.event_iterator(2, vec!['X']));
    assert_eq!(nested.as_str(), "[[F+]]");

    let mut single = Collector::new();
    render_event(&mut single, Event::Render('F'));
    render_event(&mut single, Event::Render('Q'));
    render_event(&mut single, Event::<char>::Push);
    render_event(&mut single, Event::<char>::Pop);
    assert_eq!(single.as_str(), "F[]");
}
