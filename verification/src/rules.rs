//! The production rule store: a total mapping from symbols to productions.

use crate::symbol::Symbol;
use std::collections::HashMap;
use vstd::prelude::*;

verus! {

/// The production of `symbol` under `rules`: its entry, or the symbol itself
/// where it has none.
pub open spec fn produce<T>(rules: Map<T, Seq<T>>, symbol: T) -> Seq<T> {
    if rules.contains_key(symbol) {
        rules[symbol]
    } else {
        seq![symbol]
    }
}

/// One rewrite rule: a symbol and the production it rewrites to.
#[derive(Debug, PartialEq, Clone)]
pub struct Rule<T: Symbol> {
    pub match_input: T,
    pub productions: Vec<T>,
}

impl<T: Symbol> View for Rule<T> {
    type V = (T, Seq<T>);

    open spec fn view(&self) -> (T, Seq<T>) {
        (self.match_input, self.productions@)
    }
}

impl<T: Symbol> Rule<T> {
    pub fn new(match_input: T, productions: Vec<T>) -> (rule: Rule<T>)
        ensures
            rule.match_input == match_input,
            rule.productions == productions,
            rule@ == (match_input, productions@),
    {
        Rule { match_input, productions }
    }
}

/// The rules of `rules` as specifications see them: pairs of a symbol and its
/// production.
pub open spec fn rule_views<T: Symbol>(rules: Seq<Rule<T>>) -> Seq<(T, Seq<T>)> {
    rules.map_values(|rule: Rule<T>| rule@)
}

/// The mapping that results from inserting `rules` one after the other, in
/// list order, into an empty mapping.
pub open spec fn fold_rules<T>(rules: Seq<(T, Seq<T>)>) -> Map<T, Seq<T>>
    decreases rules.len(),
{
    if rules.len() == 0 {
        Map::empty()
    } else {
        fold_rules(rules.drop_last()).insert(rules.last().0, rules.last().1)
    }
}

/// Folding one more rule in is inserting it into what the rules before it
/// fold into.
pub proof fn lemma_fold_rules_push<T>(rules: Seq<(T, Seq<T>)>, rule: (T, Seq<T>))
    ensures
        fold_rules(rules.push(rule)) == fold_rules(rules).insert(rule.0, rule.1),
{
    assert(rules.push(rule).drop_last() == rules);
}

/// A symbol has a rule in the folded mapping where a rule of the list is for
/// it, and its production is that of the last such rule.
pub proof fn lemma_fold_rules_last_wins<T>(rules: Seq<(T, Seq<T>)>, last: int)
    requires
        0 <= last < rules.len(),
        forall|later: int| last < later < rules.len() ==> rules[later].0 != rules[last].0,
    ensures
        fold_rules(rules).contains_key(rules[last].0),
        fold_rules(rules)[rules[last].0] == rules[last].1,
    decreases rules.len(),
{
    if last < rules.len() - 1 {
        lemma_fold_rules_last_wins(rules.drop_last(), last);
    }
}

/// A symbol for which the list has no rule has none in the folded mapping.
pub proof fn lemma_fold_rules_absent<T>(rules: Seq<(T, Seq<T>)>, symbol: T)
    requires
        forall|i: int| 0 <= i < rules.len() ==> rules[i].0 != symbol,
    ensures
        !fold_rules(rules).contains_key(symbol),
    decreases rules.len(),
{
    if rules.len() > 0 {
        lemma_fold_rules_absent(rules.drop_last(), symbol);
    }
}

/// Copies a word symbol by symbol.
pub fn copy_word<T: Symbol>(word: &Vec<T>) -> (copy: Vec<T>)
    ensures
        copy@ == word@,
{
    let mut copy: Vec<T> = Vec::with_capacity(word.len());
    let mut i: usize = 0;
    while i < word.len()
        invariant
            i <= word.len(),
            copy@ == word@.take(i as int),
        decreases word.len() - i,
    {
        copy.push(word[i]);
        i += 1;
    }
    copy
}

/// The rule store.  Its view is the mapping from each symbol that has a rule
/// to the production of that rule.
#[derive(Debug, PartialEq, Clone)]
pub struct LSystemRules<T: Symbol> {
    rules: HashMap<u64, Vec<T>>,
}

impl<T: Symbol> View for LSystemRules<T> {
    type V = Map<T, Seq<T>>;

    closed spec fn view(&self) -> Map<T, Seq<T>> {
        Map::new(|s: T| self.rules@.contains_key(s.key()), |s: T| self.rules@[s.key()]@)
    }
}

impl<T: Symbol> LSystemRules<T> {
    /// A store without rules: every symbol produces itself.
    pub fn new() -> (store: LSystemRules<T>)
        ensures
            store@ == Map::<T, Seq<T>>::empty(),
    {
        let store = LSystemRules { rules: HashMap::with_capacity(4) };
        store
    }

    /// Inserts `rules` in list order; a later rule for a symbol replaces an
    /// earlier one.
    pub fn from_rules(rules: Vec<Rule<T>>) -> (store: LSystemRules<T>)
        ensures
            store@ == fold_rules(rule_views(rules@)),
    {
        let mut system = LSystemRules::new();
        let ghost views = rule_views(rules@);
        for rule in it: rules.into_iter()
            invariant
                views == rule_views(it.seq()),
                system@ == fold_rules(views.take(it.index() as int)),
        {
            proof {
                let next = views.take(it.index() + 1);
                assert(next.drop_last() == views.take(it.index() as int));
            }
            system = system.add_rule(rule);
        }
        assert(views.take(views.len() as int) == views);
        system
    }

    /// Inserts one rule, replacing the rule the store had for its symbol.
    pub fn add_rule(self, rule: Rule<T>) -> (store: Self)
        ensures
            store@ == self@.insert(rule.match_input, rule.productions@),
    {
        let Rule { match_input, productions } = rule;
        self.add(match_input, productions)
    }

    /// Makes `productions` the production of `match_input`, replacing the one
    /// the store had for it.
    pub fn add(self, match_input: T, productions: Vec<T>) -> (store: Self)
        ensures
            store@ == self@.insert(match_input, productions@),
    {
        let mut store = self;
        store.insert(match_input, productions);
        store
    }

    /// Makes `productions` the production of `match_input` in place,
    /// replacing the one the store had for it.
    pub fn insert(&mut self, match_input: T, productions: Vec<T>)
        ensures
            final(self)@ == old(self)@.insert(match_input, productions@),
    {
        let key = match_input.to_key();
        self.rules.insert(key, productions);
        proof {
            assert forall|s: T| s.key() == match_input.key() implies s == match_input by {
                T::lemma_key_injective(s, match_input);
            }
        }
    }

    /// The production of `symbol`: a copy of its rule's production, or the
    /// symbol alone where the store has no rule for it.
    pub fn apply(&self, symbol: T) -> (production: Vec<T>)
        ensures
            production@ == produce(self@, symbol),
            !self@.contains_key(symbol) ==> production@ == seq![symbol],
    {
        let key = symbol.to_key();
        match self.rules.get(&key) {
            Some(production) => copy_word(production),
            None => {
                let mut production: Vec<T> = Vec::new();
                production.push(symbol);
                production
            },
        }
    }
}

} // verus!
