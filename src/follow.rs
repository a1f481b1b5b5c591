//! FOLLOW sets: the terminals, and the end-of-input marker, that can come right
//! after a symbol.
use vstd::prelude::*;

use crate::first::{first, first_set, lemma_unguarded_push, unguarded};
use crate::grammar::{grammar_wf, is_nonterminal, model, Production, Rule, RuleView};
use crate::symbols::{contains_text, texts, SymbolSet};
use crate::walk::{lemma_reaches_front, lemma_reaches_self, lemma_reaches_split, reaches_avoiding};

verus! {

/// The symbol that marks an empty derivation.
pub open spec fn epsilon() -> Seq<char> {
    seq!['e', 'p', 's', 'i', 'l', 'o', 'n']
}

/// The symbol that marks the end of the input.
pub open spec fn end_marker() -> Seq<char> {
    seq!['$']
}

/// A place in the grammar: rule, alternative of that rule, position in that alternative.
pub type Place = (int, int, int);

/// The place `o` exists in `g` and holds `s`.
pub open spec fn occurs_at(g: Seq<RuleView>, s: Seq<char>, o: Place) -> bool {
    &&& 0 <= o.0 < g.len()
    &&& 0 <= o.1 < g[o.0].alts.len()
    &&& 0 <= o.2 < g[o.0].alts[o.1].len()
    &&& g[o.0].alts[o.1][o.2] == s
}

/// `s` stands somewhere on a right-hand side.
pub open spec fn occurs(g: Seq<RuleView>, s: Seq<char>) -> bool {
    exists|o: Place| #[trigger] occurs_at(g, s, o)
}

/// The place `o` is the last of its alternative.
pub open spec fn is_last(g: Seq<RuleView>, o: Place) -> bool {
    o.2 + 1 == g[o.0].alts[o.1].len()
}

/// The symbol right after the place `o`.
pub open spec fn next_symbol(g: Seq<RuleView>, o: Place) -> Seq<char> {
    g[o.0].alts[o.1][o.2 + 1]
}

/// The symbol at `o` takes in FOLLOW of the rule's left-hand side: at the end of the
/// alternative unless it is that left-hand side itself, and elsewhere where FIRST of
/// the next symbol holds `epsilon`.
pub open spec fn inherits(g: Seq<RuleView>, o: Place) -> bool {
    if is_last(g, o) {
        g[o.0].lhs != g[o.0].alts[o.1][o.2]
    } else {
        first_set(g, next_symbol(g, o)).contains(epsilon())
    }
}

/// FOLLOW(a) takes in FOLLOW(b).
pub open spec fn follow_step(g: Seq<RuleView>, a: Seq<char>, b: Seq<char>) -> bool {
    exists|o: Place| #[trigger] occurs_at(g, a, o) && g[o.0].lhs == b && inherits(g, o)
}

/// The relation `follow_step` of `g`.
pub open spec fn follow_steps(g: Seq<RuleView>) -> spec_fn(Seq<char>, Seq<char>) -> bool {
    |a: Seq<char>, b: Seq<char>| follow_step(g, a, b)
}

/// What `a` adds to FOLLOW by itself: the members of FIRST of each symbol right after it
/// other than `epsilon`, and the end marker if it stands on no right-hand side.
pub open spec fn direct_follow(g: Seq<RuleView>, a: Seq<char>) -> Set<Seq<char>> {
    Set::new(
        |x: Seq<char>|
            (exists|o: Place|
                #[trigger] occurs_at(g, a, o) && !is_last(g, o) && first_set(
                    g,
                    next_symbol(g, o),
                ).contains(x) && x != epsilon()) || (!occurs(g, a) && x == end_marker()),
    )
}

/// What the symbols reached from `s` by follow steps off `stack` add by themselves.
pub open spec fn follow_set_avoiding(g: Seq<RuleView>, s: Seq<char>, stack: Seq<Seq<char>>) -> Set<
    Seq<char>,
> {
    Set::new(
        |x: Seq<char>|
            exists|v: Seq<char>|
                #[trigger] reaches_avoiding(follow_steps(g), s, v, stack) && direct_follow(
                    g,
                    v,
                ).contains(x),
    )
}

/// FOLLOW(s).
pub open spec fn follow_set(g: Seq<RuleView>, s: Seq<char>) -> Set<Seq<char>> {
    follow_set_avoiding(g, s, Seq::empty())
}

/// The place as integers.
pub open spec fn place(o: (usize, usize, usize)) -> Place {
    (o.0 as int, o.1 as int, o.2 as int)
}

/// Every place of the grammar that holds `symbol`, in the order of the text.
fn occurrences(symbol: &str, rules: &[Rule]) -> (r: Vec<(usize, usize, usize)>)
    ensures
        forall|q: int| 0 <= q < r@.len() ==> occurs_at(model(rules@), symbol@, place(#[trigger] r@[q])),
        forall|o: Place|
            occurs_at(model(rules@), symbol@, o) ==> exists|q: int|
                0 <= q < r@.len() && place(#[trigger] r@[q]) == o,
{
    let ghost g = model(rules@);
    let t = symbol.to_owned();
    let mut r: Vec<(usize, usize, usize)> = Vec::new();
    let mut i: usize = 0;
    while i < rules.len()
        invariant
            0 <= i <= rules@.len(),
            g == model(rules@),
            t@ == symbol@,
            forall|q: int| 0 <= q < r@.len() ==> occurs_at(g, symbol@, place(#[trigger] r@[q])),
            forall|o: Place|
                occurs_at(g, symbol@, o) && o.0 < i ==> exists|q: int|
                    0 <= q < r@.len() && place(#[trigger] r@[q]) == o,
        decreases rules@.len() - i,
    {
        let alts: &Vec<Production> = &rules[i].derivations;
        proof {
            assert(g[i as int] == rules@[i as int]@);
        }
        let mut k: usize = 0;
        while k < alts.len()
            invariant
                0 <= i < rules@.len(),
                0 <= k <= alts@.len(),
                g == model(rules@),
                g[i as int] == rules@[i as int]@,
                g[i as int].alts.len() == alts@.len(),
                alts == &rules@[i as int].derivations,
                t@ == symbol@,
                forall|q: int| 0 <= q < r@.len() ==> occurs_at(g, symbol@, place(#[trigger] r@[q])),
                forall|o: Place|
                    occurs_at(g, symbol@, o) && (o.0 < i || (o.0 == i && o.1 < k)) ==> exists|q: int|
                        0 <= q < r@.len() && place(#[trigger] r@[q]) == o,
            decreases alts@.len() - k,
        {
            let out: &Vec<String> = &alts[k].output;
            proof {
                assert(g[i as int].alts[k as int] == texts(out@));
            }
            let mut j: usize = 0;
            while j < out.len()
                invariant
                    0 <= i < rules@.len(),
                    0 <= k < alts@.len(),
                    0 <= j <= out@.len(),
                    g == model(rules@),
                    g[i as int] == rules@[i as int]@,
                    g[i as int].alts.len() == alts@.len(),
                    g[i as int].alts[k as int] == texts(out@),
                    t@ == symbol@,
                    forall|q: int| 0 <= q < r@.len() ==> occurs_at(g, symbol@, place(#[trigger] r@[q])),
                    forall|o: Place|
                        occurs_at(g, symbol@, o) && (o.0 < i || (o.0 == i && o.1 < k) || (o.0 == i
                            && o.1 == k && o.2 < j)) ==> exists|q: int|
                            0 <= q < r@.len() && place(#[trigger] r@[q]) == o,
                decreases out@.len() - j,
            {
                if out[j] == t {
                    let ghost before = r@;
                    r.push((i, k, j));
                    proof {
                        assert(texts(out@)[j as int] == symbol@);
                        assert(occurs_at(g, symbol@, place((i, k, j))));
                        assert(r@[before.len() as int] == (i, k, j));
                        assert forall|q: int| 0 <= q < r@.len() implies occurs_at(
                            g,
                            symbol@,
                            place(#[trigger] r@[q]),
                        ) by {
                            if q < before.len() {
                                assert(r@[q] == before[q]);
                            }
                        }
                        assert forall|o: Place|
                            occurs_at(g, symbol@, o) && (o.0 < i || (o.0 == i && o.1 < k) || (o.0
                                == i && o.1 == k && o.2 < j + 1)) implies exists|q: int|
                            0 <= q < r@.len() && place(#[trigger] r@[q]) == o by {
                            if o.0 == i && o.1 == k && o.2 == j {
                                assert(place(r@[before.len() as int]) == o);
                            } else {
                                let q = choose|q: int| 0 <= q < before.len() && place(#[trigger] before[q]) == o;
                                assert(r@[q] == before[q]);
                            }
                        }
                    }
                }
                j = j + 1;
            }
            k = k + 1;
        }
        i = i + 1;
    }
    r
}

/// What the place `o` of `s` adds to FOLLOW(s), where FOLLOW of its rule's left-hand side
/// is taken with `stack`.
pub open spec fn contribution(g: Seq<RuleView>, o: Place, stack: Seq<Seq<char>>) -> Set<Seq<char>> {
    Set::new(
        |x: Seq<char>|
            (!is_last(g, o) && first_set(g, next_symbol(g, o)).contains(x) && x != epsilon()) || (
            inherits(g, o) && follow_set_avoiding(g, g[o.0].lhs, stack).contains(x)),
    )
}

/// A symbol on the stack has nothing in its FOLLOW set.
proof fn lemma_follow_on_stack(g: Seq<RuleView>, s: Seq<char>, stack: Seq<Seq<char>>)
    requires
        stack.contains(s),
    ensures
        follow_set_avoiding(g, s, stack) == Set::<Seq<char>>::empty(),
{
    assert forall|x: Seq<char>| !follow_set_avoiding(g, s, stack).contains(x) by {
        assert forall|v: Seq<char>| !reaches_avoiding(follow_steps(g), s, v, stack) by {
            if reaches_avoiding(follow_steps(g), s, v, stack) {
                lemma_reaches_split(follow_steps(g), s, v, stack);
            }
        }
    }
    assert(follow_set_avoiding(g, s, stack) =~= Set::<Seq<char>>::empty());
}

/// FOLLOW of a symbol off the stack is what each of its places adds, with the symbol
/// pushed, and the end marker where it has no place.
proof fn lemma_follow_unfold(g: Seq<RuleView>, s: Seq<char>, stack: Seq<Seq<char>>)
    requires
        !stack.contains(s),
    ensures
        follow_set_avoiding(g, s, stack) == Set::new(
            |x: Seq<char>|
                (exists|o: Place|
                    #[trigger] occurs_at(g, s, o) && contribution(g, o, stack.push(s)).contains(x)) || (
                !occurs(g, s) && x == end_marker()),
        ),
{
    let st2 = stack.push(s);
    let rhs = Set::new(
        |x: Seq<char>|
            (exists|o: Place|
                #[trigger] occurs_at(g, s, o) && contribution(g, o, st2).contains(x)) || (!occurs(
                g,
                s,
            ) && x == end_marker()),
    );
    assert forall|x: Seq<char>| follow_set_avoiding(g, s, stack).contains(x) implies rhs.contains(
        x,
    ) by {
        let v = choose|v: Seq<char>|
            #[trigger] reaches_avoiding(follow_steps(g), s, v, stack) && direct_follow(g, v).contains(x);
        lemma_reaches_split(follow_steps(g), s, v, stack);
        if v == s {
            if !(!occurs(g, s) && x == end_marker()) {
                let o = choose|o: Place|
                    #[trigger] occurs_at(g, s, o) && !is_last(g, o) && first_set(
                        g,
                        next_symbol(g, o),
                    ).contains(x) && x != epsilon();
                assert(contribution(g, o, st2).contains(x));
            }
        } else {
            let c = choose|c: Seq<char>|
                #[trigger] (follow_steps(g))(s, c) && reaches_avoiding(follow_steps(g), c, v, st2);
            assert(follow_step(g, s, c));
            let o = choose|o: Place| #[trigger] occurs_at(g, s, o) && g[o.0].lhs == c && inherits(g, o);
            assert(follow_set_avoiding(g, c, st2).contains(x));
            assert(contribution(g, o, st2).contains(x));
        }
    }
    assert forall|x: Seq<char>| rhs.contains(x) implies follow_set_avoiding(g, s, stack).contains(
        x,
    ) by {
        lemma_reaches_self(follow_steps(g), s, stack);
        if !occurs(g, s) && x == end_marker() {
            assert(direct_follow(g, s).contains(x));
        } else {
            let o = choose|o: Place| #[trigger] occurs_at(g, s, o) && contribution(g, o, st2).contains(x);
            if !is_last(g, o) && first_set(g, next_symbol(g, o)).contains(x) && x != epsilon() {
                assert(direct_follow(g, s).contains(x));
            } else {
                let c = g[o.0].lhs;
                let v = choose|v: Seq<char>|
                    #[trigger] reaches_avoiding(follow_steps(g), c, v, st2) && direct_follow(g, v).contains(x);
                assert(follow_step(g, s, c));
                assert((follow_steps(g))(s, c));
                lemma_reaches_front(follow_steps(g), s, c, v, stack);
            }
        }
    }
    assert(follow_set_avoiding(g, s, stack) =~= rhs);
}

/// FOLLOW of `symbol` in the grammar `rules`, where the symbols on `stack` are taken as
/// already being computed and contribute nothing. For each place of `symbol` on a
/// right-hand side: at the end of its alternative, FOLLOW of the rule's left-hand side
/// (unless that is `symbol`); elsewhere, FIRST of the next symbol without `epsilon`, and
/// FOLLOW of the left-hand side where that FIRST set holds `epsilon`. A symbol with no place
/// gets the end marker `$`. The stack is left as it was.
pub fn follow(symbol: &str, stack: &mut Vec<String>, rules: &[Rule]) -> (r: SymbolSet)
    requires
        grammar_wf(model(rules@)),
    ensures
        r.wf(),
        r@ == follow_set_avoiding(model(rules@), symbol@, texts(old(stack)@)),
        final(stack)@ == old(stack)@,
    decreases unguarded(model(rules@), texts(stack@)),
        if is_nonterminal(model(rules@), symbol@) {
            0nat
        } else {
            1nat
        },
{
    let ghost g = model(rules@);
    let ghost st = texts(stack@);
    let ghost stack0 = stack@;
    if contains_text(stack, symbol) {
        proof {
            lemma_follow_on_stack(g, symbol@, st);
        }
        return SymbolSet::new();
    }
    let occ = occurrences(symbol, rules);
    let eps: &str = "epsilon";
    proof {
        reveal_strlit("epsilon");
        assert(eps@ =~= epsilon());
    }
    let sym = symbol.to_owned();
    let mut out = SymbolSet::new();
    stack.push(symbol.to_owned());
    let ghost st2 = st.push(symbol@);
    proof {
        lemma_unguarded_push(g, st, symbol@);
        assert(texts(stack@) =~= st2);
        assert(Set::new(
            |x: Seq<char>|
                exists|p: int|
                    0 <= p < 0 && #[trigger] contribution(g, place(occ@[p]), st2).contains(x),
        ) =~= Set::<Seq<char>>::empty());
    }
    let mut q: usize = 0;
    while q < occ.len()
        invariant
            0 <= q <= occ@.len(),
            g == model(rules@),
            grammar_wf(g),
            stack0 == old(stack)@,
            st == texts(stack0),
            !st.contains(symbol@),
            st2 == st.push(symbol@),
            texts(stack@) == st2,
            stack@ == stack0.push(stack@.last()),
            sym@ == symbol@,
            eps@ == epsilon(),
            unguarded(g, st2) <= unguarded(g, st),
            is_nonterminal(g, symbol@) ==> unguarded(g, st2) < unguarded(g, st),
            forall|p: int| 0 <= p < occ@.len() ==> occurs_at(g, symbol@, place(#[trigger] occ@[p])),
            out.wf(),
            out@ == Set::new(
                |x: Seq<char>|
                    exists|p: int|
                        0 <= p < q && #[trigger] contribution(g, place(occ@[p]), st2).contains(x),
            ),
        decreases occ@.len() - q,
    {
        let (i, k, j) = occ[q];
        let ghost o = place(occ@[q as int]);
        proof {
            assert(occurs_at(g, symbol@, o));
            assert(g[i as int] == rules@[i as int]@);
        }
        let p: &Production = &rules[i].derivations[k];
        let owner: &String = &rules[i].non_terminal;
        proof {
            assert(g[i as int].alts[k as int] == p@);
            assert(g[i as int].lhs == owner@);
            assert(is_nonterminal(g, owner@));
        }
        let ghost before = out@;
        proof {
            assert(o == (i as int, k as int, j as int));
            assert(p@.len() == p.output@.len());
            assert(j < p.output@.len());
        }
        if j == p.output.len() - 1 {
            if !(*owner == sym) {
                let f = follow(owner.as_str(), stack, rules);
                out.extend(&f);
            }
        } else {
            proof {
                assert(p@[j as int + 1] == p.output@[j as int + 1]@);
            }
            let f = first(p.output[j + 1].as_str(), rules);
            out.extend_except(&f, eps);
            if f.contains(eps) {
                let f2 = follow(owner.as_str(), stack, rules);
                out.extend(&f2);
            }
        }
        proof {
            let c = contribution(g, o, st2);
            assert(out@ =~= before.union(c));
            assert forall|x: Seq<char>|
                out@.contains(x) <==> exists|pp: int|
                    0 <= pp < q + 1 && #[trigger] contribution(g, place(occ@[pp]), st2).contains(x) by {
                if c.contains(x) {
                    assert(contribution(g, place(occ@[q as int]), st2).contains(x));
                }
            }
            assert(out@ =~= Set::new(
                |x: Seq<char>|
                    exists|pp: int|
                        0 <= pp < q + 1 && #[trigger] contribution(g, place(occ@[pp]), st2).contains(x),
            ));
        }
        q = q + 1;
    }
    stack.pop();
    proof {
        assert(stack@ =~= stack0);
    }
    let ghost looped = out@;
    let end: &str = "$";
    proof {
        reveal_strlit("$");
        assert(end@ =~= end_marker());
    }
    if occ.len() == 0 {
        out.insert(end);
    }
    proof {
        lemma_follow_unfold(g, symbol@, st);
        assert forall|x: Seq<char>| #[trigger] out@.contains(x) <==> follow_set_avoiding(g, symbol@, st).contains(x) by {
            assert(out@.contains(x) <==> looped.contains(x) || (occ@.len() == 0 && x == end_marker()));
            if occ@.len() == 0 {
                if occurs(g, symbol@) {
                    let o = choose|o: Place| #[trigger] occurs_at(g, symbol@, o);
                }
            } else {
                assert(occurs_at(g, symbol@, place(occ@[0])));
            }
            if exists|o: Place| #[trigger] occurs_at(g, symbol@, o) && contribution(g, o, st2).contains(x) {
                let o = choose|o: Place| #[trigger] occurs_at(g, symbol@, o) && contribution(g, o, st2).contains(x);
                let pp = choose|pp: int| 0 <= pp < occ@.len() && place(#[trigger] occ@[pp]) == o;
                assert(contribution(g, place(occ@[pp]), st2).contains(x));
            }
        }
        assert(out@ =~= follow_set_avoiding(g, symbol@, st));
    }
    out
}

} // verus!
