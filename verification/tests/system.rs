use lsystem::events::Event;
use lsystem::rules::LSystemRules;
use lsystem::system::{Rules, Variable, Word};

fn word(text: &str) -> Word {
    text.chars().map(Variable::new).collect()
}

fn plant() -> Rules {
    let mut rules = Rules::new();
    rules.insert(Variable::new('F'), word("FF"));
    rules.insert(Variable::new('X'), word("F+[[X]-X]-F[-FX]+X"));
    rules
}

#[test]
fn rules_rewrite_whole_words() {
    let rules = plant();
    assert_eq!(rules.get(&Variable::new('F')), word("FF"));
    assert_eq!(rules.get(&Variable::new('+')), word("+"));
    assert_eq!(rules.apply(word("X")), word("F+[[X]-X]-F[-FX]+X"));
    assert_eq!(rules.apply(word("F-F")), word("FF-FF"));
    assert_eq!(rules.apply(word("")), word(""));
}

#[test]
fn generations_are_rounds_of_rewriting() {
    let rules = plant();
    assert_eq!(rules.generation(word("X"), 0), word("X"));
    let once = rules.apply(word("X"));
    let twice = rules.apply(once.clone());
    assert_eq!(rules.generation(word("X"), 1), once);
    assert_eq!(rules.generation(word("X"), 2), twice);
    assert_eq!(rules.generation(once, 1), twice);
}

#[test]
fn a_later_insert_replaces_an_earlier_one() {
    let mut rules = Rules::new();
    rules.insert(Variable::new('A'), word("B"));
    rules.insert(Variable::new('A'), word("CC"));
    assert_eq!(rules.get(&Variable::new('A')), word("CC"));
}

#[test]
fn lazy_and_eager_expansion_agree() {
    let system = LSystemRules::new()
        .add('a', vec!['b', 'c'])
        .add('b', vec![])
        .add('c', vec!['a', 'b', 'c']);
    for rounds in 0..6 {
        let eager = system.generation(vec!['a', 'd', 'c'], rounds);
        let lazy = system.symbol_iterator(rounds, vec!['a', 'd', 'c']).collect();
        assert_eq!(eager, lazy);
    }
    assert_eq!(system.symbol_iterator(2, vec!['a', 'd']).collect(), vec!['a', 'b', 'c', 'd']);
    assert_eq!(system.rewrite_word(&vec!['b', 'b']), Vec::<char>::new());
}

#[test]
fn streams_stay_within_the_depth_bound_and_balance() {
    let system = LSystemRules::new()
        .add('a', vec!['b', 'c'])
        .add('b', vec!['c'])
        .add('c', vec!['a', 'b', 'c']);
    for bound in 0..7usize {
        let mut stream = system.event_iterator(bound, vec!['c', 'a']);
        let mut pushes = 0usize;
        let mut pops = 0usize;
        let mut first = true;
        while let Some(event) = stream.next() {
            if first {
                assert_eq!(event, Event::Push);
                first = false;
            }
            match event {
                Event::Push => pushes += 1,
                Event::Pop => pops += 1,
                Event::Render(_) => {}
            }
            assert!(pops <= pushes);
            assert_eq!(stream.current_depth(), pushes - pops);
            assert!(stream.current_depth() <= bound.max(1));
        }
        assert_eq!(pushes, pops);
        assert_eq!(stream.next(), None);
    }
    assert_eq!(
        system.event_iterator(0, vec!['c']).collect(),
        vec![Event::Push, Event::Render('c'), Event::Pop]
    );
    assert_eq!(
        system.event_iterator(4, vec![]).collect(),
        vec![Event::<char>::Push, Event::Pop]
    );
    let again = system.event_iterator(5, vec!['c']).collect();
    assert_eq!(system.event_iterator(5, vec!['c']).collect(), again);
    let mut flat = system.symbol_iterator(3, vec!['c']);
    while flat.next().is_some() {
        assert!(flat.current_depth() <= 3);
    }
}

#[test]
fn a_stream_renders_the_expansion_of_the_lead_symbol() {
    let system = LSystemRules::new()
        .add('a', vec!['b', 'c'])
        .add('b', vec![])
        .add('c', vec!['a', 'b', 'c']);
    for bound in 1..7usize {
        let rendered: Vec<char> = system
            .event_iterator(bound, vec!['c', 'a'])
            .collect()
            .into_iter()
            .filter_map(|event| match event {
                Event::Render(symbol) => Some(symbol),
                _ => None,
            })
            .collect();
        assert_eq!(rendered, system.generation(vec!['c'], bound - 1));
    }
}
