//! FIRST sets: the terminals that can begin a derivation of a symbol, looking
//! at the first symbol of each alternative only.
use vstd::prelude::*;

use crate::grammar::{
    alts_of, find_rule, grammar_wf, is_nonterminal, is_terminal, lemma_rule_index, model,
    rule_wf, Production, Rule, RuleView,
};
use crate::symbols::{contains_text, texts, SymbolSet};
use crate::walk::{lemma_reaches_front, lemma_reaches_self, lemma_reaches_split, reaches_avoiding};

verus! {

/// `b` is the first symbol of one of the alternatives of the non-terminal `a`.
pub open spec fn first_step(g: Seq<RuleView>, a: Seq<char>, b: Seq<char>) -> bool {
    &&& is_nonterminal(g, a)
    &&& exists|k: int| 0 <= k < alts_of(g, a).len() && #[trigger] alts_of(g, a)[k][0] == b
}

/// The relation `first_step` of `g`.
pub open spec fn first_steps(g: Seq<RuleView>) -> spec_fn(Seq<char>, Seq<char>) -> bool {
    |a: Seq<char>, b: Seq<char>| first_step(g, a, b)
}

/// The terminals reached from `s` by first steps that avoid the non-terminals on `stack`.
pub open spec fn first_set_avoiding(g: Seq<RuleView>, s: Seq<char>, stack: Seq<Seq<char>>) -> Set<
    Seq<char>,
> {
    Set::new(|t: Seq<char>| is_terminal(g, t) && reaches_avoiding(first_steps(g), s, t, stack))
}

/// FIRST(s): the terminals reached from `s` by first steps. A terminal is its own FIRST set.
pub open spec fn first_set(g: Seq<RuleView>, s: Seq<char>) -> Set<Seq<char>> {
    first_set_avoiding(g, s, Seq::empty())
}

/// The terminals reached, avoiding `stack`, from the first symbols of the first `n`
/// alternatives of `s`.
pub open spec fn first_of_alts(g: Seq<RuleView>, s: Seq<char>, n: int, stack: Seq<Seq<char>>) -> Set<
    Seq<char>,
> {
    Set::new(
        |t: Seq<char>|
            is_terminal(g, t) && exists|k: int|
                0 <= k < n && #[trigger] reaches_avoiding(first_steps(g), alts_of(g, s)[k][0], t, stack),
    )
}

/// The number of rules whose left-hand side is not on `stack`.
pub open spec fn unguarded(g: Seq<RuleView>, stack: Seq<Seq<char>>) -> nat
    decreases g.len(),
{
    if g.len() == 0 {
        0
    } else {
        unguarded(g.drop_last(), stack) + if stack.contains(g.last().lhs) {
            0nat
        } else {
            1nat
        }
    }
}

/// Pushing a symbol never raises `unguarded`; pushing a non-terminal that was not
/// on the stack lowers it.
pub proof fn lemma_unguarded_push(g: Seq<RuleView>, stack: Seq<Seq<char>>, x: Seq<char>)
    ensures
        unguarded(g, stack.push(x)) <= unguarded(g, stack),
        is_nonterminal(g, x) && !stack.contains(x) ==> unguarded(g, stack.push(x)) < unguarded(
            g,
            stack,
        ),
    decreases g.len(),
{
    if g.len() > 0 {
        let h = g.drop_last();
        lemma_unguarded_push(h, stack, x);
        if stack.contains(g.last().lhs) {
            let j = choose|j: int| 0 <= j < stack.len() && stack[j] == g.last().lhs;
            assert(stack.push(x)[j] == g.last().lhs);
        }
        if is_nonterminal(g, x) && !stack.contains(x) {
            assert(stack.push(x)[stack.len() as int] == x);
            if g.last().lhs != x {
                let i = choose|i: int| 0 <= i < g.len() && (#[trigger] g[i]).lhs == x;
                assert(h[i] == g[i]);
                assert(is_nonterminal(h, x));
            }
        }
    }
}

/// FIRST of a terminal off the stack is the terminal alone.
proof fn lemma_first_terminal(g: Seq<RuleView>, s: Seq<char>, stack: Seq<Seq<char>>)
    requires
        is_terminal(g, s),
        !stack.contains(s),
    ensures
        first_set_avoiding(g, s, stack) == set![s],
{
    lemma_reaches_self(first_steps(g), s, stack);
    assert forall|t: Seq<char>| first_set_avoiding(g, s, stack).contains(t) implies t == s by {
        lemma_reaches_split(first_steps(g), s, t, stack);
        if t != s {
            let c = choose|c: Seq<char>|
                #[trigger] (first_steps(g))(s, c) && reaches_avoiding(first_steps(g), c, t, stack.push(s));
        }
    }
    assert(first_set_avoiding(g, s, stack) =~= set![s]);
}

/// A symbol on the stack reaches nothing.
proof fn lemma_first_on_stack(g: Seq<RuleView>, s: Seq<char>, stack: Seq<Seq<char>>)
    requires
        stack.contains(s),
    ensures
        first_set_avoiding(g, s, stack) == Set::<Seq<char>>::empty(),
{
    assert forall|t: Seq<char>| !first_set_avoiding(g, s, stack).contains(t) by {
        if reaches_avoiding(first_steps(g), s, t, stack) {
            lemma_reaches_split(first_steps(g), s, t, stack);
        }
    }
    assert(first_set_avoiding(g, s, stack) =~= Set::<Seq<char>>::empty());
}

/// FIRST of a non-terminal off the stack is the union of FIRST of the first symbols of
/// its alternatives, each taken with the non-terminal pushed.
proof fn lemma_first_unfold(g: Seq<RuleView>, s: Seq<char>, stack: Seq<Seq<char>>)
    requires
        is_nonterminal(g, s),
        !stack.contains(s),
    ensures
        first_set_avoiding(g, s, stack) == first_of_alts(g, s, alts_of(g, s).len() as int, stack.push(s)),
{
    let n = alts_of(g, s).len() as int;
    let st = stack.push(s);
    assert forall|t: Seq<char>| #[trigger]
        first_set_avoiding(g, s, stack).contains(t) implies first_of_alts(g, s, n, st).contains(t) by {
        lemma_reaches_split(first_steps(g), s, t, stack);
        let c = choose|c: Seq<char>|
            #[trigger] (first_steps(g))(s, c) && reaches_avoiding(first_steps(g), c, t, st);
        let k = choose|k: int| 0 <= k < alts_of(g, s).len() && #[trigger] alts_of(g, s)[k][0] == c;
        assert(reaches_avoiding(first_steps(g), alts_of(g, s)[k][0], t, st));
    }
    assert forall|t: Seq<char>| #[trigger]
        first_of_alts(g, s, n, st).contains(t) implies first_set_avoiding(g, s, stack).contains(t) by {
        let k = choose|k: int|
            0 <= k < n && #[trigger] reaches_avoiding(first_steps(g), alts_of(g, s)[k][0], t, st);
        assert(first_step(g, s, alts_of(g, s)[k][0]));
        lemma_reaches_front(first_steps(g), s, alts_of(g, s)[k][0], t, stack);
    }
    assert(first_set_avoiding(g, s, stack) =~= first_of_alts(g, s, n, st));
}

/// FIRST of `symbol`, with the non-terminals on `stack` taken as already being expanded.
/// Where no non-terminal reaches itself by first steps, no symbol is ever met on the
/// stack and the guard changes nothing; elsewhere it cuts the expansion of the cycle, so
/// that every grammar gets an answer.
fn first_guarded(symbol: &str, rules: &[Rule], stack: &mut Vec<String>) -> (r: SymbolSet)
    requires
        grammar_wf(model(rules@)),
        forall|i: int|
            0 <= i < old(stack)@.len() ==> is_nonterminal(model(rules@), #[trigger] old(stack)@[i]@),
    ensures
        r.wf(),
        r@ == first_set_avoiding(model(rules@), symbol@, texts(old(stack)@)),
        final(stack)@ == old(stack)@,
    decreases unguarded(model(rules@), texts(stack@)),
{
    let ghost g = model(rules@);
    let ghost st = texts(stack@);
    let ghost stack0 = stack@;
    proof {
        lemma_rule_index(g, symbol@);
    }
    match find_rule(symbol, rules) {
        None => {
            let mut out = SymbolSet::new();
            out.insert(symbol);
            proof {
                if st.contains(symbol@) {
                    let j = choose|j: int| 0 <= j < st.len() && st[j] == symbol@;
                    assert(is_nonterminal(g, stack0[j]@));
                }
                lemma_first_terminal(g, symbol@, st);
                assert(out@ =~= set![symbol@]);
            }
            out
        },
        Some(ri) => {
            if contains_text(stack, symbol) {
                proof {
                    lemma_first_on_stack(g, symbol@, st);
                }
                return SymbolSet::new();
            }
            let alts: &Vec<Production> = &rules[ri].derivations;
            let ghost n = alts@.len() as int;
            let ghost st2 = st.push(symbol@);
            proof {
                assert(g[ri as int] == rules@[ri as int]@);
                assert(alts_of(g, symbol@) == g[ri as int].alts);
                assert(alts_of(g, symbol@).len() == n);
                lemma_unguarded_push(g, st, symbol@);
                lemma_first_unfold(g, symbol@, st);
            }
            let mut out = SymbolSet::new();
            stack.push(symbol.to_owned());
            proof {
                assert(texts(stack@) =~= st2);
                assert(first_of_alts(g, symbol@, 0, st2) =~= Set::<Seq<char>>::empty());
            }
            let mut k: usize = 0;
            while k < alts.len()
                invariant
                    0 <= k <= n,
                    n == alts@.len(),
                    g == model(rules@),
                    grammar_wf(g),
                    stack@ == stack0.push(stack@.last()),
                    texts(stack@) == st2,
                    st2 == st.push(symbol@),
                    stack0 == old(stack)@,
                    st == texts(stack0),
                    is_nonterminal(g, symbol@),
                    forall|i: int| 0 <= i < stack0.len() ==> is_nonterminal(g, #[trigger] stack0[i]@),
                    stack@.last()@ == symbol@,
                    unguarded(g, st2) < unguarded(g, st),
                    alts_of(g, symbol@) == g[ri as int].alts,
                    alts == &rules@[ri as int].derivations,
                    g[ri as int] == rules@[ri as int]@,
                    0 <= ri < g.len(),
                    out.wf(),
                    out@ == first_of_alts(g, symbol@, k as int, st2),
                decreases n - k,
            {
                let p: &Production = &alts[k];
                proof {
                    assert(g[ri as int].alts[k as int] == p@);
                    assert(rule_wf(g[ri as int]));
                    assert(p@.len() >= 1);
                    assert(p@[0] == p.output@[0]@);
                    assert forall|i: int| 0 <= i < stack@.len() implies is_nonterminal(g, #[trigger] stack@[i]@) by {
                        if i < stack0.len() {
                            assert(stack@[i] == stack0[i]);
                        }
                    }
                }
                let sub = first_guarded(p.output[0].as_str(), rules, stack);
                out.extend(&sub);
                proof {
                    assert(out@ =~= first_of_alts(g, symbol@, k as int + 1, st2));
                }
                k = k + 1;
            }
            stack.pop();
            proof {
                assert(stack@ =~= stack0);
            }
            out
        },
    }
}

/// FIRST of `symbol` in the grammar `rules`: the symbol itself for a terminal, and for a
/// non-terminal the union of FIRST of the first symbol of each of its alternatives.
pub fn first(symbol: &str, rules: &[Rule]) -> (r: SymbolSet)
    requires
        grammar_wf(model(rules@)),
    ensures
        r.wf(),
        r@ == first_set(model(rules@), symbol@),
{
    let mut stack: Vec<String> = Vec::new();
    proof {
        assert(texts(stack@) =~= Seq::<Seq<char>>::empty());
    }
    first_guarded(symbol, rules, &mut stack)
}

} // verus!
