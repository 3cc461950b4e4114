use std::collections::HashMap;

use voxel_world::grammar::LSystemGrammar;

fn rules(pairs: &[(&str, &str)]) -> HashMap<char, String> {
    pairs
        .iter()
        .map(|(symbol, replacement)| (symbol.chars().next().unwrap(), replacement.to_string()))
        .collect()
}

#[test]
fn depth_zero_returns_axiom_unchanged() {
    let grammar = LSystemGrammar::new("F", rules(&[("F", "FF")]));
    assert_eq!(grammar.expand(0), "F");
}

#[test]
fn single_iteration_replaces_symbols() {
    let grammar = LSystemGrammar::new("F", rules(&[("F", "F[+F]F")]));
    assert_eq!(grammar.expand(1), "F[+F]F");
}

#[test]
fn multiple_iterations_apply_rules_repeatedly() {
    let grammar = LSystemGrammar::new("A", rules(&[("A", "AB"), ("B", "A")]));
    assert_eq!(grammar.expand(1), "AB");
    assert_eq!(grammar.expand(2), "ABA");
    assert_eq!(grammar.expand(3), "ABAAB");
}

#[test]
fn empty_rules_leave_symbols_unchanged() {
    let grammar = LSystemGrammar::new("ABC", HashMap::new());
    assert_eq!(grammar.expand(1), "ABC");
    assert_eq!(grammar.expand(5), "ABC");
}

#[test]
fn partial_rules_only_replace_matching_symbols() {
    let grammar = LSystemGrammar::new("ABC", rules(&[("A", "AA")]));
    assert_eq!(grammar.expand(1), "AABC");
}

#[test]
fn empty_axiom_stays_empty() {
    let grammar = LSystemGrammar::new("", rules(&[("F", "FF")]));
    assert_eq!(grammar.expand(0), "");
    assert_eq!(grammar.expand(3), "");
}

#[test]
fn bracket_symbols_are_treated_like_any_other_character() {
    let grammar = LSystemGrammar::new("F[+F]", rules(&[("F", "FF")]));
    assert_eq!(grammar.expand(1), "FF[+FF]");
}

#[test]
fn unbalanced_brackets_pass_through_without_error() {
    let grammar = LSystemGrammar::new("F[+F", rules(&[("F", "G")]));
    assert_eq!(grammar.expand(1), "G[+G");
}

#[test]
fn expanding_in_two_stages_equals_one_expansion() {
    let table = rules(&[("F", "F[+F]F[-F]F")]);
    let once = LSystemGrammar::new("F", table.clone()).expand(2);
    let staged = LSystemGrammar::new(&LSystemGrammar::new("F", table.clone()).expand(1), table).expand(1);
    assert_eq!(once, staged);
}

#[test]
fn rewriting_a_concatenation_rewrites_each_part() {
    let table = rules(&[("A", "AB"), ("B", "A")]);
    let whole = LSystemGrammar::new("AB", table.clone()).expand(1);
    let left = LSystemGrammar::new("A", table.clone()).expand(1);
    let right = LSystemGrammar::new("B", table).expand(1);
    assert_eq!(whole, format!("{left}{right}"));
}

#[test]
fn symbols_without_rules_survive_many_steps() {
    let grammar = LSystemGrammar::new("+-[]&^", rules(&[("F", "FF")]));
    assert_eq!(grammar.expand(7), "+-[]&^");
}

#[test]
fn production_lengths_grow_the_word() {
    let grammar = LSystemGrammar::new("F", rules(&[("F", "FF")]));
    assert_eq!(grammar.expand(4).len(), 16);
}
