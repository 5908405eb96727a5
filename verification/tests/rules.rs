use lsystem::events::Event;
use lsystem::rules::{LSystemRules, Rule};

fn sample() -> LSystemRules<char> {
    LSystemRules::new()
        .add('a', vec!['b', 'c'])
        .add('b', vec!['c'])
        .add('c', vec!['a', 'b', 'c'])
}

#[test]
fn given_a_rule_system_where_every_symbol_is_referenced_the_rules_yeild_the_expected_symbols() {
    let system = sample();

    let result1 = system.symbol_iterator(1, vec!['c']).collect();
    assert_eq!(result1, vec!['a', 'b', 'c']);

    let result2 = system.symbol_iterator(1, vec!['a', 'b', 'c']).take(20);
    assert_eq!(result2, vec!['b', 'c', 'c', 'a', 'b', 'c']);

    let result3 = system.symbol_iterator(2, vec!['c']).collect();
    assert_eq!(result2, result3);
}

#[test]
fn structural_stream_of_depth_three() {
    let system = sample();
    let events = system.event_iterator(3, vec!['c']).take(16);
    let expected = vec![
        Event::Push,
        Event::Push,
        Event::Push,
        Event::Render('b'),
        Event::Render('c'),
        Event::Pop,
        Event::Push,
        Event::Render('c'),
        Event::Pop,
        Event::Push,
        Event::Render('a'),
        Event::Render('b'),
        Event::Render('c'),
        Event::Pop,
        Event::Pop,
        Event::Pop,
    ];
    assert_eq!(events, expected);
    let mut stream = system.event_iterator(3, vec!['c']);
    let all = stream.take(100);
    assert_eq!(all.len(), 16);
    assert_eq!(stream.next(), None);
}

#[test]
fn apply_is_total() {
    let system = sample();
    assert_eq!(system.apply('z'), vec!['z']);
    assert_eq!(system.apply('a'), vec!['b', 'c']);
}

#[test]
fn from_rules_folds_in_order() {
    let rules = vec![
        Rule::new('a', vec!['b']),
        Rule::new('b', vec!['a', 'a']),
        Rule::new('a', vec!['c', 'c', 'c']),
    ];
    let bulk = LSystemRules::from_rules(rules.clone());
    let mut folded = LSystemRules::new();
    for rule in rules {
        folded = folded.add_rule(rule);
    }
    assert_eq!(bulk, folded);
    assert_eq!(bulk.apply('a'), vec!['c', 'c', 'c']);
    assert_eq!(bulk.apply('b'), vec!['a', 'a']);
}
