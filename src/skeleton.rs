//! The skeleton of a predictive recursive-descent parser, as a structured value: one
//! procedure per non-terminal, one guarded branch per alternative.
use vstd::prelude::*;
use vstd::string::StringExecFns;

use crate::grammar::{
    alts_of, find_rule, grammar_wf, is_nonterminal, is_terminal, is_terminal_symbol,
    lemma_rule_index, model, Production, Rule, RuleView,
};
use crate::selection::{first_plus, selection_set, set_views};
use crate::symbols::{contains_text, texts, SymbolSet};

verus! {

/// One step of a branch: match a terminal, or call the procedure of a non-terminal.
#[derive(Debug)]
pub enum Step {
    MatchTerminal(String),
    Call(String),
}

/// Taken when the lookahead token is in `guard`; then performs `steps` in order.
#[derive(Debug)]
pub struct Branch {
    pub guard: SymbolSet,
    pub steps: Vec<Step>,
}

/// The parsing procedure of `non_terminal`: its branches are tried in order, and a
/// lookahead token in none of the guards is a syntax error.
#[derive(Debug)]
pub struct Procedure {
    pub non_terminal: String,
    pub branches: Vec<Branch>,
}

/// `st` is the step for the symbol `x`: a match for a terminal, a call otherwise.
pub open spec fn step_for(g: Seq<RuleView>, st: Step, x: Seq<char>) -> bool {
    match st {
        Step::MatchTerminal(t) => t@ == x && is_terminal(g, x),
        Step::Call(n) => n@ == x && is_nonterminal(g, x),
    }
}

/// `steps` holds one step for each symbol of `alt`, in order.
pub open spec fn steps_for(g: Seq<RuleView>, steps: Seq<Step>, alt: Seq<Seq<char>>) -> bool {
    &&& steps.len() == alt.len()
    &&& forall|j: int| 0 <= j < alt.len() ==> step_for(g, #[trigger] steps[j], alt[j])
}

/// The sequences of `s` one after the other.
pub open spec fn concat_all(s: Seq<Seq<Seq<char>>>) -> Seq<Seq<char>>
    decreases s.len(),
{
    if s.len() == 0 {
        Seq::empty()
    } else {
        concat_all(s.drop_last()) + s.last()
    }
}

/// The symbols of a rule as they are written: its left-hand side, then its alternatives.
pub open spec fn rule_symbols(r: RuleView) -> Seq<Seq<char>> {
    seq![r.lhs] + concat_all(r.alts)
}

/// The symbols of the grammar as they are written, rule after rule.
pub open spec fn all_symbols(g: Seq<RuleView>) -> Seq<Seq<char>> {
    concat_all(g.map_values(|r: RuleView| rule_symbols(r)))
}

/// The non-terminals of `s`, each once, in the order of their first appearance.
pub open spec fn nonterminals_in_order(g: Seq<RuleView>, s: Seq<Seq<char>>) -> Seq<Seq<char>>
    decreases s.len(),
{
    if s.len() == 0 {
        Seq::empty()
    } else {
        let d = nonterminals_in_order(g, s.drop_last());
        if is_nonterminal(g, s.last()) && !d.contains(s.last()) {
            d.push(s.last())
        } else {
            d
        }
    }
}

/// The non-terminals of the grammar in the order of their first appearance in its text.
pub open spec fn parser_order(g: Seq<RuleView>) -> Seq<Seq<char>> {
    nonterminals_in_order(g, all_symbols(g))
}

/// Every symbol of the grammar as it is written.
fn symbols_in_order(rules: &[Rule]) -> (r: Vec<String>)
    ensures
        texts(r@) == all_symbols(model(rules@)),
{
    let ghost g = model(rules@);
    let ghost big = g.map_values(|r: RuleView| rule_symbols(r));
    let mut all: Vec<String> = Vec::new();
    let mut i: usize = 0;
    proof {
        assert(texts(all@) =~= concat_all(big.take(0)));
    }
    while i < rules.len()
        invariant
            0 <= i <= rules@.len(),
            g == model(rules@),
            big == g.map_values(|r: RuleView| rule_symbols(r)),
            texts(all@) == concat_all(big.take(i as int)),
        decreases rules@.len() - i,
    {
        let rule: &Rule = &rules[i];
        let ghost base = texts(all@);
        let ghost alts = g[i as int].alts;
        proof {
            assert(g[i as int] == rule@);
        }
        all.push(rule.non_terminal.clone());
        proof {
            assert(texts(all@) =~= base + seq![rule.non_terminal@] + concat_all(alts.take(0)));
        }
        let mut k: usize = 0;
        while k < rule.derivations.len()
            invariant
                0 <= i < rules@.len(),
                0 <= k <= rule.derivations@.len(),
                g == model(rules@),
                rule == &rules@[i as int],
                alts == rule@.alts,
                texts(all@) == base + seq![rule.non_terminal@] + concat_all(alts.take(k as int)),
            decreases rule.derivations@.len() - k,
        {
            let out: &Vec<String> = &rule.derivations[k].output;
            let ghost pre = texts(all@);
            proof {
                assert(alts[k as int] == texts(out@));
            }
            let mut j: usize = 0;
            while j < out.len()
                invariant
                    0 <= j <= out@.len(),
                    texts(all@) == pre + texts(out@).take(j as int),
                decreases out@.len() - j,
            {
                let c: String = out[j].clone();
                let ghost before = all@;
                all.push(c);
                proof {
                    assert(texts(all@) =~= texts(before).push(c@));
                    assert(texts(out@).take(j as int + 1) =~= texts(out@).take(j as int).push(c@));
                    assert(texts(all@) =~= pre + texts(out@).take(j as int + 1));
                }
                j = j + 1;
            }
            proof {
                assert(alts.take(k as int + 1).drop_last() =~= alts.take(k as int));
                assert(texts(out@).take(texts(out@).len() as int) =~= texts(out@));
                assert(texts(all@) =~= base + seq![rule.non_terminal@] + concat_all(alts.take(k as int + 1)));
            }
            k = k + 1;
        }
        proof {
            assert(alts.take(alts.len() as int) =~= alts);
            assert(big.take(i as int + 1).drop_last() =~= big.take(i as int));
            assert(big[i as int] == rule_symbols(g[i as int]));
            assert(texts(all@) =~= concat_all(big.take(i as int + 1)));
        }
        i = i + 1;
    }
    proof {
        assert(big.take(rules@.len() as int) =~= big);
    }
    all
}

/// The non-terminals of the grammar, each once, in the order of their first appearance.
pub fn nonterminals(rules: &[Rule]) -> (r: Vec<String>)
    ensures
        texts(r@) == parser_order(model(rules@)),
{
    let ghost g = model(rules@);
    let all = symbols_in_order(rules);
    let mut r: Vec<String> = Vec::new();
    let mut n: usize = 0;
    proof {
        assert(texts(r@) =~= nonterminals_in_order(g, texts(all@).take(0)));
    }
    while n < all.len()
        invariant
            0 <= n <= all@.len(),
            g == model(rules@),
            texts(all@) == all_symbols(g),
            texts(r@) == nonterminals_in_order(g, texts(all@).take(n as int)),
        decreases all@.len() - n,
    {
        let s: &String = &all[n];
        let ghost before = texts(r@);
        proof {
            assert(texts(all@).take(n as int + 1).drop_last() =~= texts(all@).take(n as int));
            assert(texts(all@).take(n as int + 1).last() == s@);
        }
        if !is_terminal_symbol(s.as_str(), rules) && !contains_text(&r, s.as_str()) {
            r.push(s.clone());
            proof {
                assert(texts(r@) =~= before.push(s@));
            }
        }
        n = n + 1;
    }
    proof {
        assert(texts(all@).take(all@.len() as int) =~= texts(all@));
    }
    r
}

/// The steps for one alternative: a match for each terminal, a call for each non-terminal.
fn alternative_steps(p: &Production, rules: &[Rule]) -> (r: Vec<Step>)
    ensures
        steps_for(model(rules@), r@, p@),
{
    let mut r: Vec<Step> = Vec::new();
    let mut j: usize = 0;
    while j < p.output.len()
        invariant
            0 <= j <= p.output@.len(),
            r@.len() == j,
            forall|m: int| 0 <= m < j ==> step_for(model(rules@), #[trigger] r@[m], p@[m]),
        decreases p.output@.len() - j,
    {
        let x: &String = &p.output[j];
        if is_terminal_symbol(x.as_str(), rules) {
            r.push(Step::MatchTerminal(x.clone()));
        } else {
            r.push(Step::Call(x.clone()));
        }
        j = j + 1;
    }
    r
}

/// The procedure of `non_terminal`: alternative `k` of `derivations` is guarded by
/// `f_plus[k]`; alternatives without a set, or sets without an alternative, are dropped.
pub fn generate_code(
    non_terminal: &str,
    f_plus: Vec<SymbolSet>,
    derivations: &[Production],
    rules: &[Rule],
) -> (r: Procedure)
    ensures
        r.non_terminal@ == non_terminal@,
        r.branches@.len() == if f_plus@.len() < derivations@.len() {
            f_plus@.len()
        } else {
            derivations@.len()
        },
        forall|k: int|
            0 <= k < r.branches@.len() ==> {
                &&& (#[trigger] r.branches@[k]).guard == f_plus@[k]
                &&& steps_for(model(rules@), r.branches@[k].steps@, derivations@[k]@)
            },
{
    let ghost sets0 = f_plus@;
    let mut sets = f_plus;
    let mut branches: Vec<Branch> = Vec::new();
    let mut k: usize = 0;
    while k < derivations.len() && sets.len() > 0
        invariant
            0 <= k <= derivations@.len(),
            k <= sets0.len(),
            sets@ == sets0.skip(k as int),
            branches@.len() == k,
            forall|m: int|
                0 <= m < k ==> {
                    &&& (#[trigger] branches@[m]).guard == sets0[m]
                    &&& steps_for(model(rules@), branches@[m].steps@, derivations@[m]@)
                },
        decreases derivations@.len() - k,
    {
        let guard = sets.remove(0);
        let steps = alternative_steps(&derivations[k], rules);
        branches.push(Branch { guard, steps });
        proof {
            assert(sets@ =~= sets0.skip(k as int + 1));
        }
        k = k + 1;
    }
    Procedure { non_terminal: non_terminal.to_owned(), branches }
}

/// One procedure for each non-terminal, in the order of their first appearance in the
/// grammar; the branches of each are its alternatives, guarded by their selection sets.
pub fn generate_parser(rules: &[Rule]) -> (r: Vec<Procedure>)
    requires
        grammar_wf(model(rules@)),
    ensures
        r@.len() == parser_order(model(rules@)).len(),
        forall|m: int|
            0 <= m < r@.len() ==> {
                let nt = parser_order(model(rules@))[m];
                let pr = #[trigger] r@[m];
                &&& pr.non_terminal@ == nt
                &&& pr.branches@.len() == alts_of(model(rules@), nt).len()
                &&& forall|k: int|
                    0 <= k < pr.branches@.len() ==> {
                        &&& (#[trigger] pr.branches@[k]).guard.wf()
                        &&& pr.branches@[k].guard@ == selection_set(model(rules@), nt, k)
                        &&& steps_for(model(rules@), pr.branches@[k].steps@, alts_of(model(rules@), nt)[k])
                    }
            },
{
    let ghost g = model(rules@);
    let nts = nonterminals(rules);
    let mut r: Vec<Procedure> = Vec::new();
    let mut m: usize = 0;
    while m < nts.len()
        invariant
            0 <= m <= nts@.len(),
            g == model(rules@),
            grammar_wf(g),
            texts(nts@) == parser_order(g),
            r@.len() == m,
            forall|mm: int|
                0 <= mm < m ==> {
                    let nt = parser_order(g)[mm];
                    let pr = #[trigger] r@[mm];
                    &&& pr.non_terminal@ == nt
                    &&& pr.branches@.len() == alts_of(g, nt).len()
                    &&& forall|k: int|
                        0 <= k < pr.branches@.len() ==> {
                            &&& (#[trigger] pr.branches@[k]).guard.wf()
                            &&& pr.branches@[k].guard@ == selection_set(g, nt, k)
                            &&& steps_for(g, pr.branches@[k].steps@, alts_of(g, nt)[k])
                        }
                },
        decreases nts@.len() - m,
    {
        let nt: &String = &nts[m];
        proof {
            assert(texts(nts@)[m as int] == nt@);
            lemma_rule_index(g, nt@);
        }
        let f_plus = first_plus(nt.as_str(), rules);
        let ghost fp = f_plus@;
        let pr = match find_rule(nt.as_str(), rules) {
            Some(ri) => {
                proof {
                    assert(g[ri as int] == rules@[ri as int]@);
                    assert(alts_of(g, nt@) == rules@[ri as int]@.alts);
                    assert(set_views(fp).len() == alts_of(g, nt@).len());
                }
                generate_code(nt.as_str(), f_plus, rules[ri].derivations.as_slice(), rules)
            },
            None => generate_code(nt.as_str(), f_plus, &[], rules),
        };
        proof {
            assert forall|k: int| 0 <= k < pr.branches@.len() implies {
                &&& (#[trigger] pr.branches@[k]).guard.wf()
                &&& pr.branches@[k].guard@ == selection_set(g, nt@, k)
                &&& steps_for(g, pr.branches@[k].steps@, alts_of(g, nt@)[k])
            } by {
                assert(set_views(fp)[k] == fp[k]@);
            }
        }
        r.push(pr);
        m = m + 1;
    }
    r
}

/// The texts of `parts` with `sep` between each two.
pub open spec fn join_texts(parts: Seq<Seq<char>>, sep: Seq<char>) -> Seq<char>
    decreases parts.len(),
{
    if parts.len() == 0 {
        Seq::empty()
    } else if parts.len() == 1 {
        parts[0]
    } else {
        join_texts(parts.drop_last(), sep) + sep + parts.last()
    }
}

/// The C++ name of the procedure of `non_terminal`.
pub open spec fn procedure_name(non_terminal: Seq<char>) -> Seq<char> {
    "parse_"@ + non_terminal
}

/// The C++ text of one step, inside the procedure `fname`.
pub open spec fn step_text(st: Step, fname: Seq<char>) -> Seq<char> {
    match st {
        Step::MatchTerminal(x) => "match_terminal("@ + x@ + ");"@,
        Step::Call(x) => "parse_"@ + x@ + "();\nstd::cout << \"Returned to "@ + fname
            + "\" << std::endl;"@,
    }
}

/// The C++ text of the branch `b`, the `k`-th of the procedure `fname`: a test of the
/// lookahead against the guard's members, in their order, then the steps.
pub open spec fn branch_text(b: Branch, k: int, fname: Seq<char>) -> Seq<char> {
    "\t"@ + (if k > 0 {
        "else "@
    } else {
        Seq::empty()
    }) + "if (match("@ + join_texts(b.guard.members(), " | "@) + ")) {\n"@ + join_texts(
        b.steps@.map_values(|st: Step| step_text(st, fname)),
        "\n\t\t"@,
    ) + "\n\t}\n"@
}

/// The C++ text of the first `n` branches of `bs`.
pub open spec fn branches_text(bs: Seq<Branch>, n: int, fname: Seq<char>) -> Seq<char>
    decreases n,
{
    if n <= 0 {
        Seq::empty()
    } else {
        branches_text(bs, n - 1, fname) + branch_text(bs[n - 1], n - 1, fname)
    }
}

/// The C++ text of a procedure: its branches as an `if` / `else if` chain, and a final
/// `else` that reports a syntax error and exits.
pub open spec fn procedure_text(p: Procedure) -> Seq<char> {
    let fname = procedure_name(p.non_terminal@);
    "void "@ + fname + "() {\n"@ + "std::cout << \"Calling "@ + fname + "\" << std::endl;"@
        + branches_text(p.branches@, p.branches@.len() as int, fname) + "else { std::cout << \"Error in "@
        + fname + "\" << std::endl;\nexit(1); }"@ + "}\n"@
}

/// `parts` joined by `sep`.
fn join_strings(parts: &Vec<String>, sep: &str) -> (r: String)
    ensures
        r@ == join_texts(texts(parts@), sep@),
{
    let ghost pv = texts(parts@);
    let mut r = String::new();
    let mut i: usize = 0;
    proof {
        assert(pv.take(0) =~= Seq::<Seq<char>>::empty());
    }
    while i < parts.len()
        invariant
            0 <= i <= parts@.len(),
            pv == texts(parts@),
            r@ == join_texts(pv.take(i as int), sep@),
        decreases parts@.len() - i,
    {
        proof {
            assert(pv.take(i as int + 1).drop_last() =~= pv.take(i as int));
            assert(pv.take(i as int + 1).last() == parts@[i as int]@);
        }
        if i > 0 {
            r.append(sep);
        }
        r.append(parts[i].as_str());
        proof {
            assert(r@ =~= join_texts(pv.take(i as int + 1), sep@));
        }
        i = i + 1;
    }
    proof {
        assert(pv.take(parts@.len() as int) =~= pv);
    }
    r
}

/// The C++ text of one step, inside the procedure `fname`.
fn render_step(st: &Step, fname: &str) -> (r: String)
    ensures
        r@ == step_text(*st, fname@),
{
    let mut r = String::new();
    match st {
        Step::MatchTerminal(x) => {
            r.append("match_terminal(");
            r.append(x.as_str());
            r.append(");");
        },
        Step::Call(x) => {
            r.append("parse_");
            r.append(x.as_str());
            r.append("();\nstd::cout << \"Returned to ");
            r.append(fname);
            r.append("\" << std::endl;");
        },
    }
    proof {
        assert(r@ =~= step_text(*st, fname@));
    }
    r
}

/// The C++ text of the branch `b`, the `k`-th of the procedure `fname`.
fn render_branch(b: &Branch, k: usize, fname: &str) -> (r: String)
    requires
        b.guard.wf(),
    ensures
        r@ == branch_text(*b, k as int, fname@),
{
    let options = join_strings(&b.guard.items(), " | ");
    let mut steps: Vec<String> = Vec::new();
    let mut j: usize = 0;
    while j < b.steps.len()
        invariant
            0 <= j <= b.steps@.len(),
            texts(steps@) == b.steps@.take(j as int).map_values(|st: Step| step_text(st, fname@)),
        decreases b.steps@.len() - j,
    {
        let t = render_step(&b.steps[j], fname);
        let ghost before = steps@;
        steps.push(t);
        proof {
            assert(texts(steps@) =~= texts(before).push(t@));
            assert(texts(steps@) =~= b.steps@.take(j as int + 1).map_values(
                |st: Step| step_text(st, fname@),
            ));
        }
        j = j + 1;
    }
    proof {
        assert(b.steps@.take(b.steps@.len() as int) =~= b.steps@);
    }
    let logic = join_strings(&steps, "\n\t\t");
    let mut r = String::new();
    r.append("\t");
    if k > 0 {
        r.append("else ");
    }
    r.append("if (match(");
    r.append(options.as_str());
    r.append(")) {\n");
    r.append(logic.as_str());
    r.append("\n\t}\n");
    proof {
        assert(r@ =~= branch_text(*b, k as int, fname@));
    }
    r
}

/// The C++ text of the procedure `p`.
pub fn render_procedure(p: &Procedure) -> (r: String)
    requires
        forall|k: int| 0 <= k < p.branches@.len() ==> (#[trigger] p.branches@[k]).guard.wf(),
    ensures
        r@ == procedure_text(*p),
{
    let mut fname = String::new();
    fname.append("parse_");
    fname.append(p.non_terminal.as_str());
    let ghost fv = procedure_name(p.non_terminal@);
    proof {
        assert(fname@ =~= fv);
    }
    let mut body = String::new();
    let mut k: usize = 0;
    while k < p.branches.len()
        invariant
            0 <= k <= p.branches@.len(),
            fname@ == fv,
            forall|m: int| 0 <= m < p.branches@.len() ==> (#[trigger] p.branches@[m]).guard.wf(),
            body@ == branches_text(p.branches@, k as int, fv),
        decreases p.branches@.len() - k,
    {
        let t = render_branch(&p.branches[k], k, fname.as_str());
        body.append(t.as_str());
        k = k + 1;
    }
    let mut r = String::new();
    r.append("void ");
    r.append(fname.as_str());
    r.append("() {\n");
    r.append("std::cout << \"Calling ");
    r.append(fname.as_str());
    r.append("\" << std::endl;");
    r.append(body.as_str());
    r.append("else { std::cout << \"Error in ");
    r.append(fname.as_str());
    r.append("\" << std::endl;\nexit(1); }");
    r.append("}\n");
    proof {
        assert(r@ =~= procedure_text(*p));
    }
    r
}

} // verus!
