//! The grammar model: productions, rules, and the symbol classifier.
use vstd::prelude::*;

use crate::symbols::texts;

verus! {

/// One alternative of a rule: the symbols of its right-hand side, in order.
#[derive(Debug)]
pub struct Production {
    pub output: Vec<String>,
}

impl View for Production {
    type V = Seq<Seq<char>>;

    open spec fn view(&self) -> Seq<Seq<char>> {
        texts(self.output@)
    }
}

impl Production {
    pub fn new(output: Vec<String>) -> (r: Production)
        ensures
            r@ == texts(output@),
    {
        Production { output }
    }

    /// A production holds at least one symbol.
    pub open spec fn wf(&self) -> bool {
        self@.len() >= 1
    }
}

/// What a rule says: its left-hand side and its alternatives.
pub struct RuleView {
    pub lhs: Seq<char>,
    pub alts: Seq<Seq<Seq<char>>>,
}

/// A non-terminal with its alternatives, in source order.
#[derive(Debug)]
pub struct Rule {
    pub non_terminal: String,
    pub derivations: Vec<Production>,
}

impl View for Rule {
    type V = RuleView;

    open spec fn view(&self) -> RuleView {
        RuleView {
            lhs: self.non_terminal@,
            alts: self.derivations@.map_values(|p: Production| p@),
        }
    }
}

impl Rule {
    pub fn new(non_terminal: String, derivations: Vec<Production>) -> (r: Rule)
        ensures
            r.non_terminal@ == non_terminal@,
            r.derivations@ == derivations@,
    {
        Rule { non_terminal, derivations }
    }
}

/// A rule has at least one alternative, and each alternative at least one symbol.
pub open spec fn rule_wf(r: RuleView) -> bool {
    &&& r.alts.len() >= 1
    &&& forall|k: int| 0 <= k < r.alts.len() ==> #[trigger] r.alts[k].len() >= 1
}

/// The model of a grammar: its rules, in source order.
pub open spec fn model(rules: Seq<Rule>) -> Seq<RuleView> {
    rules.map_values(|r: Rule| r@)
}

/// Every rule of the grammar is well formed.
pub open spec fn grammar_wf(g: Seq<RuleView>) -> bool {
    forall|i: int| 0 <= i < g.len() ==> rule_wf(#[trigger] g[i])
}

/// `s` is the left-hand side of some rule.
pub open spec fn is_nonterminal(g: Seq<RuleView>, s: Seq<char>) -> bool {
    exists|i: int| 0 <= i < g.len() && (#[trigger] g[i]).lhs == s
}

/// `s` is the left-hand side of no rule.
pub open spec fn is_terminal(g: Seq<RuleView>, s: Seq<char>) -> bool {
    !is_nonterminal(g, s)
}

/// The index of the first rule at or after `i` whose left-hand side is `s`, or -1.
pub open spec fn rule_index_from(g: Seq<RuleView>, s: Seq<char>, i: int) -> int
    decreases g.len() - i,
{
    if i < 0 || i >= g.len() {
        -1
    } else if g[i].lhs == s {
        i
    } else {
        rule_index_from(g, s, i + 1)
    }
}

/// The index of the rule that defines `s` (the first one, should there be several), or -1.
pub open spec fn rule_index(g: Seq<RuleView>, s: Seq<char>) -> int {
    rule_index_from(g, s, 0)
}

/// The alternatives of `s`: those of its defining rule, none for a terminal.
pub open spec fn alts_of(g: Seq<RuleView>, s: Seq<char>) -> Seq<Seq<Seq<char>>> {
    if rule_index(g, s) >= 0 {
        g[rule_index(g, s)].alts
    } else {
        Seq::empty()
    }
}

proof fn lemma_rule_index_from(g: Seq<RuleView>, s: Seq<char>, i: int)
    requires
        0 <= i <= g.len(),
    ensures
        rule_index_from(g, s, i) == -1 ==> forall|j: int| i <= j < g.len() ==> g[j].lhs != s,
        rule_index_from(g, s, i) != -1 ==> {
            let r = rule_index_from(g, s, i);
            &&& i <= r < g.len()
            &&& g[r].lhs == s
        },
    decreases g.len() - i,
{
    if i < g.len() && g[i].lhs != s {
        lemma_rule_index_from(g, s, i + 1);
    }
}

/// The rule that defines `s` exists exactly when `s` is a non-terminal.
pub proof fn lemma_rule_index(g: Seq<RuleView>, s: Seq<char>)
    ensures
        is_nonterminal(g, s) <==> rule_index(g, s) >= 0,
        rule_index(g, s) >= 0 ==> rule_index(g, s) < g.len() && g[rule_index(g, s)].lhs == s,
        rule_index(g, s) < 0 ==> rule_index(g, s) == -1,
{
    lemma_rule_index_from(g, s, 0);
    if rule_index(g, s) >= 0 {
        assert(g[rule_index(g, s)].lhs == s);
    }
}

/// The index of the rule that defines `symbol`, the first one should there be several.
pub fn find_rule(symbol: &str, rules: &[Rule]) -> (r: Option<usize>)
    ensures
        r is Some <==> is_nonterminal(model(rules@), symbol@),
        r is Some ==> r->0 == rule_index(model(rules@), symbol@),
        r is None ==> rule_index(model(rules@), symbol@) == -1,
{
    let ghost g = model(rules@);
    let t = symbol.to_owned();
    proof {
        lemma_rule_index(g, symbol@);
    }
    let mut i: usize = 0;
    while i < rules.len()
        invariant
            0 <= i <= rules@.len(),
            g == model(rules@),
            t@ == symbol@,
            rule_index(g, symbol@) == rule_index_from(g, symbol@, i as int),
        decreases rules@.len() - i,
    {
        if rules[i].non_terminal == t {
            return Some(i);
        }
        i = i + 1;
    }
    None
}

/// Whether `symbol` is a terminal: the left-hand side of no rule.
pub fn is_terminal_symbol(symbol: &str, rules: &[Rule]) -> (r: bool)
    ensures
        r == is_terminal(model(rules@), symbol@),
{
    find_rule(symbol, rules).is_none()
}

} // verus!
