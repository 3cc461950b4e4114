//! Deterministic L-system grammar: one start word and at most one production per symbol.

use std::collections::HashMap;
use vstd::prelude::*;

verus! {

/// The replacement of one symbol: its production when it has one, else the symbol itself.
pub open spec fn rewrite_symbol(rules: Map<char, Seq<char>>, symbol: char) -> Seq<char> {
    if rules.contains_key(symbol) {
        rules[symbol]
    } else {
        seq![symbol]
    }
}

/// One parallel rewriting step: every symbol is replaced by [`rewrite_symbol`].
pub open spec fn rewrite(word: Seq<char>, rules: Map<char, Seq<char>>) -> Seq<char>
    decreases word.len(),
{
    if word.len() == 0 {
        Seq::empty()
    } else {
        rewrite(word.drop_last(), rules) + rewrite_symbol(rules, word.last())
    }
}

/// The word reached from the start word after `depth` rewriting steps.
pub open spec fn derive(start: Seq<char>, rules: Map<char, Seq<char>>, depth: nat) -> Seq<char>
    decreases depth,
{
    if depth == 0 {
        start
    } else {
        rewrite(derive(start, rules, (depth - 1) as nat), rules)
    }
}

/// Rewriting acts on each symbol independently: the image of a concatenation is the
/// concatenation of the images (brackets and other symbols are not special).
pub proof fn lemma_rewrite_concat(left: Seq<char>, right: Seq<char>, rules: Map<char, Seq<char>>)
    ensures
        rewrite(left + right, rules) == rewrite(left, rules) + rewrite(right, rules),
    decreases right.len(),
{
    if right.len() == 0 {
        assert(left + right == left);
    } else {
        let shorter = right.drop_last();
        lemma_rewrite_concat(left, shorter, rules);
        assert((left + right).drop_last() == left + shorter);
        assert((left + right).last() == right.last());
    }
}

/// A word none of whose symbols has a production is left unchanged by every number of
/// rewriting steps (in particular, with an empty rule table every word is fixed).
pub proof fn lemma_unruled_word_is_fixed(word: Seq<char>, rules: Map<char, Seq<char>>, depth: nat)
    requires
        forall|i: int| 0 <= i < word.len() ==> !rules.contains_key(#[trigger] word[i]),
    ensures
        rewrite(word, rules) == word,
        derive(word, rules, depth) == word,
    decreases depth,
{
    lemma_unruled_rewrite(word, rules);
    if depth > 0 {
        lemma_unruled_word_is_fixed(word, rules, (depth - 1) as nat);
    }
}

proof fn lemma_unruled_rewrite(word: Seq<char>, rules: Map<char, Seq<char>>)
    requires
        forall|i: int| 0 <= i < word.len() ==> !rules.contains_key(#[trigger] word[i]),
    ensures
        rewrite(word, rules) == word,
    decreases word.len(),
{
    if word.len() > 0 {
        let shorter = word.drop_last();
        assert forall|i: int| 0 <= i < shorter.len() implies !rules.contains_key(#[trigger] shorter[i]) by {
            assert(shorter[i] == word[i]);
        }
        lemma_unruled_rewrite(shorter, rules);
        assert(!rules.contains_key(word[word.len() - 1]));
        assert(shorter + seq![word.last()] == word);
    }
}

/// The empty word stays empty at every depth.
pub proof fn lemma_empty_word_stays_empty(rules: Map<char, Seq<char>>, depth: nat)
    ensures
        derive(Seq::<char>::empty(), rules, depth) == Seq::<char>::empty(),
{
    lemma_unruled_word_is_fixed(Seq::<char>::empty(), rules, depth);
}

/// Expanding in two stages equals expanding once by the total depth.
pub proof fn lemma_derive_compose(word: Seq<char>, rules: Map<char, Seq<char>>, first: nat, second: nat)
    ensures
        derive(derive(word, rules, first), rules, second) == derive(word, rules, first + second),
    decreases second,
{
    if second > 0 {
        lemma_derive_compose(word, rules, first, (second - 1) as nat);
        assert((first + second - 1) as nat == (first + (second - 1)) as nat);
    }
}

/// The productions of a rule table, each taken as its sequence of symbols.
pub open spec fn rules_view(rules: &HashMap<char, String>) -> Map<char, Seq<char>> {
    rules@.map_values(|replacement: String| replacement@)
}

/// Deterministic L-system grammar: one start word and at most one production per symbol.
pub struct LSystemGrammar {
    start: String,
    rules: HashMap<char, String>,
}

impl LSystemGrammar {
    /// The start word as a sequence of symbols.
    pub closed spec fn start_word(&self) -> Seq<char> {
        self.start@
    }

    /// The production table.
    pub closed spec fn productions(&self) -> Map<char, Seq<char>> {
        rules_view(&self.rules)
    }

    pub fn new(start: &str, rules: HashMap<char, String>) -> (grammar: Self)
        ensures
            grammar.start_word() == start@,
            grammar.productions() == rules_view(&rules),
    {
        LSystemGrammar { start: start.to_owned(), rules }
    }

    /// Expand the start word for `depth` iterations. Depth 0 returns the start word unchanged.
    /// Symbols without a production rule are copied verbatim.
    pub fn expand(&self, depth: u32) -> (word: String)
        ensures
            word@ == derive(self.start_word(), self.productions(), depth as nat),
    {
        if depth == 0 {
            return self.start.clone();
        }
        let mut current = self.start.clone();
        let mut done: u32 = 0;
        while done < depth
            invariant
                done <= depth,
                current@ == derive(self.start_word(), self.productions(), done as nat),
            decreases depth - done,
        {
            current = expand_once(current.as_str(), &self.rules);
            done = done + 1;
        }
        current
    }
}

/// `HashMap::get`: the production stored for `symbol`, if any.
#[verifier::external_body]
fn production_for<'a>(rules: &'a HashMap<char, String>, symbol: char) -> (found: Option<&'a String>)
    ensures
        match found {
            Some(replacement) => rules@.contains_key(symbol) && *replacement == rules@[symbol],
            None => !rules@.contains_key(symbol),
        },
{
    rules.get(&symbol)
}

/// `String::push`: appends one character.
#[verifier::external_body]
pub(crate) fn push_symbol(word: &mut String, symbol: char)
    ensures
        final(word)@ == old(word)@.push(symbol),
{
    word.push(symbol);
}

fn expand_once(current: &str, rules: &HashMap<char, String>) -> (result: String)
    ensures
        result@ == rewrite(current@, rules_view(rules)),
{
    broadcast use vstd::string::group_string_axioms;
    let mut result = String::new();
    let ghost mut seen: int = 0;
    for ch in it: current.chars()
        invariant
            it.seq() == current@,
            seen == it.index(),
            result@ == rewrite(it.seq().take(it.index()), rules_view(rules)),
    {
        assert(it.seq().take(it.index() + 1).drop_last() == it.seq().take(it.index()));
        match production_for(rules, ch) {
            Some(replacement) => result.append(replacement.as_str()),
            None => push_symbol(&mut result, ch),
        }
        proof {
            seen = seen + 1;
        }
    }
    assert(current@.take(seen) == current@);
    result
}

} // verus!
