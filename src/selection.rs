//! Selection sets (FIRST+) of the alternatives of a non-terminal, and the LL(1) check.
use vstd::prelude::*;

use crate::first::{first, first_set};
use crate::follow::{epsilon, follow, follow_set};
use crate::grammar::{
    alts_of, find_rule, grammar_wf, is_terminal, lemma_rule_index, model, rule_wf, Production,
    Rule, RuleView,
};
use crate::symbols::{texts, SymbolSet};

verus! {

/// The selection set of the alternative `i` of `s`: FIRST of its first symbol, with
/// FOLLOW(s) added where that FIRST set holds `epsilon`.
pub open spec fn selection_set(g: Seq<RuleView>, s: Seq<char>, i: int) -> Set<Seq<char>> {
    let f = first_set(g, alts_of(g, s)[i][0]);
    if f.contains(epsilon()) {
        f.union(follow_set(g, s))
    } else {
        f
    }
}

/// The selection sets of the alternatives of `s`, in the order of the alternatives.
pub open spec fn selection_sets(g: Seq<RuleView>, s: Seq<char>) -> Seq<Set<Seq<char>>> {
    Seq::new(alts_of(g, s).len(), |i: int| selection_set(g, s, i))
}

/// The sets that a sequence of symbol sets holds.
pub open spec fn set_views(v: Seq<SymbolSet>) -> Seq<Set<Seq<char>>> {
    v.map_values(|x: SymbolSet| x@)
}

/// No symbol is in two of the sets.
pub open spec fn pairwise_disjoint(sets: Seq<Set<Seq<char>>>) -> bool {
    forall|i: int, j: int| 0 <= i < j < sets.len() ==> #[trigger] sets[i].disjoint(#[trigger] sets[j])
}

/// `s` can be parsed with one token of lookahead: its selection sets are pairwise disjoint.
pub open spec fn is_ll1(g: Seq<RuleView>, s: Seq<char>) -> bool {
    pairwise_disjoint(selection_sets(g, s))
}

/// The selection sets of the alternatives of `symbol`, one per alternative and in their
/// order; none for a terminal.
pub fn first_plus(symbol: &str, rules: &[Rule]) -> (r: Vec<SymbolSet>)
    requires
        grammar_wf(model(rules@)),
    ensures
        forall|i: int| 0 <= i < r@.len() ==> (#[trigger] r@[i]).wf(),
        set_views(r@) == selection_sets(model(rules@), symbol@),
        is_terminal(model(rules@), symbol@) ==> r@.len() == 0,
{
    let ghost g = model(rules@);
    let mut r: Vec<SymbolSet> = Vec::new();
    proof {
        lemma_rule_index(g, symbol@);
    }
    let ri = match find_rule(symbol, rules) {
        None => {
            proof {
                assert(set_views(r@) =~= selection_sets(g, symbol@));
            }
            return r;
        },
        Some(ri) => ri,
    };
    let eps: &str = "epsilon";
    proof {
        reveal_strlit("epsilon");
        assert(eps@ =~= epsilon());
    }
    let alts: &Vec<Production> = &rules[ri].derivations;
    proof {
        assert(g[ri as int] == rules@[ri as int]@);
        assert(alts_of(g, symbol@) == g[ri as int].alts);
        assert(rule_wf(g[ri as int]));
    }
    let mut k: usize = 0;
    while k < alts.len()
        invariant
            0 <= k <= alts@.len(),
            g == model(rules@),
            grammar_wf(g),
            eps@ == epsilon(),
            alts == &rules@[ri as int].derivations,
            alts_of(g, symbol@) == alts@.map_values(|p: Production| p@),
            rule_wf(g[ri as int]),
            g[ri as int].alts == alts_of(g, symbol@),
            r@.len() == k,
            forall|i: int| 0 <= i < k ==> (#[trigger] r@[i]).wf() && r@[i]@ == selection_set(g, symbol@, i),
        decreases alts@.len() - k,
    {
        let p: &Production = &alts[k];
        proof {
            assert(alts_of(g, symbol@)[k as int] == p@);
            assert(p@.len() >= 1);
            assert(p@[0] == p.output@[0]@);
        }
        let mut sel = first(p.output[0].as_str(), rules);
        if sel.contains(eps) {
            let mut stack: Vec<String> = Vec::new();
            proof {
                assert(texts(stack@) =~= Seq::<Seq<char>>::empty());
            }
            let f = follow(symbol, &mut stack, rules);
            sel.extend(&f);
        }
        r.push(sel);
        k = k + 1;
    }
    proof {
        assert(set_views(r@) =~= selection_sets(g, symbol@));
    }
    r
}

/// The symbols in one of the first `n` sets.
pub open spec fn union_upto(sets: Seq<Set<Seq<char>>>, n: int) -> Set<Seq<char>> {
    Set::new(|x: Seq<char>| exists|k: int| 0 <= k < n && #[trigger] sets[k].contains(x))
}

/// Whether no symbol is in two of `sets`: true for no set and for one set.
pub fn disjoint(sets: &[SymbolSet]) -> (r: bool)
    requires
        forall|i: int| 0 <= i < sets@.len() ==> (#[trigger] sets@[i]).wf(),
    ensures
        r == pairwise_disjoint(set_views(sets@)),
{
    let ghost v = set_views(sets@);
    let mut values = SymbolSet::new();
    proof {
        assert(values@ =~= union_upto(v, 0));
    }
    let mut i: usize = 0;
    while i < sets.len()
        invariant
            0 <= i <= sets@.len(),
            v == set_views(sets@),
            forall|k: int| 0 <= k < sets@.len() ==> (#[trigger] sets@[k]).wf(),
            values.wf(),
            values@ == union_upto(v, i as int),
            pairwise_disjoint(v.take(i as int)),
        decreases sets@.len() - i,
    {
        let items = sets[i].items();
        let ghost before = values@;
        let mut j: usize = 0;
        while j < items.len()
            invariant
                0 <= i < sets@.len(),
                0 <= j <= items@.len(),
                v == set_views(sets@),
                texts(items@).to_set() == v[i as int],
                texts(items@).no_duplicates(),
                before == union_upto(v, i as int),
                values.wf(),
                values@ == before.union(texts(items@.take(j as int)).to_set()),
                forall|jj: int| 0 <= jj < j ==> !before.contains(#[trigger] items@[jj]@),
            decreases items@.len() - j,
        {
            let s: &String = &items[j];
            proof {
                assert(texts(items@)[j as int] == s@);
                assert(v[i as int].contains(s@));
                assert(!texts(items@.take(j as int)).contains(s@)) by {
                    if texts(items@.take(j as int)).contains(s@) {
                        let m = choose|m: int| 0 <= m < j && texts(items@.take(j as int))[m] == s@;
                        assert(texts(items@)[m] == s@);
                    }
                }
            }
            if !values.insert(s.as_str()) {
                proof {
                    let k = choose|k: int| 0 <= k < i && #[trigger] v[k].contains(s@);
                    assert(!v[k].disjoint(v[i as int]));
                }
                return false;
            }
            proof {
                let tj = texts(items@.take(j as int));
                assert(texts(items@.take(j as int + 1)) =~= tj.push(s@));
                tj.lemma_push_to_set_commute(s@);
            }
            j = j + 1;
        }
        proof {
            assert(items@.take(items@.len() as int) =~= items@);
            assert forall|a: int, b: int| 0 <= a < b < i + 1 implies #[trigger] v.take(i as int + 1)[a].disjoint(
                #[trigger] v.take(i as int + 1)[b],
            ) by {
                if b == i {
                    assert forall|x: Seq<char>| v[a].contains(x) implies !v[i as int].contains(x) by {
                        if v[i as int].contains(x) {
                            let m = choose|m: int| 0 <= m < texts(items@).len() && texts(items@)[m] == x;
                            assert(before.contains(x));
                        }
                    }
                } else {
                    assert(v.take(i as int)[a] == v[a] && v.take(i as int)[b] == v[b]);
                }
            }
            assert forall|x: Seq<char>| values@.contains(x) <==> #[trigger] union_upto(v, i as int + 1).contains(x) by {
                if union_upto(v, i as int + 1).contains(x) {
                    let k = choose|k: int| 0 <= k < i + 1 && #[trigger] v[k].contains(x);
                    if k < i {
                        assert(before.contains(x));
                    }
                }
            }
            assert(values@ =~= union_upto(v, i as int + 1));
        }
        i = i + 1;
    }
    proof {
        assert(v.take(sets@.len() as int) =~= v);
    }
    true
}

/// The selection sets of one rule's non-terminal and whether they are pairwise disjoint.
#[derive(Debug)]
pub struct SelectionReport {
    pub non_terminal: String,
    pub sets: Vec<SymbolSet>,
    pub disjoint: bool,
}

/// For every rule, in order: its non-terminal, that non-terminal's selection sets, and
/// whether they are pairwise disjoint. The grammar is LL(1) where every report is disjoint.
pub fn check_first_plus(rules: &[Rule]) -> (r: Vec<SelectionReport>)
    requires
        grammar_wf(model(rules@)),
    ensures
        r@.len() == rules@.len(),
        forall|i: int|
            0 <= i < r@.len() ==> {
                let rep = #[trigger] r@[i];
                let s = rules@[i].non_terminal@;
                &&& rep.non_terminal@ == s
                &&& forall|k: int| 0 <= k < rep.sets@.len() ==> (#[trigger] rep.sets@[k]).wf()
                &&& set_views(rep.sets@) == selection_sets(model(rules@), s)
                &&& rep.disjoint == is_ll1(model(rules@), s)
            },
{
    let mut r: Vec<SelectionReport> = Vec::new();
    let mut i: usize = 0;
    while i < rules.len()
        invariant
            0 <= i <= rules@.len(),
            grammar_wf(model(rules@)),
            r@.len() == i,
            forall|m: int|
                0 <= m < i ==> {
                    let rep = #[trigger] r@[m];
                    let s = rules@[m].non_terminal@;
                    &&& rep.non_terminal@ == s
                    &&& forall|k: int| 0 <= k < rep.sets@.len() ==> (#[trigger] rep.sets@[k]).wf()
                    &&& set_views(rep.sets@) == selection_sets(model(rules@), s)
                    &&& rep.disjoint == is_ll1(model(rules@), s)
                },
        decreases rules@.len() - i,
    {
        let nt: &String = &rules[i].non_terminal;
        let sets = first_plus(nt.as_str(), rules);
        let d = disjoint(sets.as_slice());
        r.push(SelectionReport { non_terminal: nt.clone(), sets, disjoint: d });
        i = i + 1;
    }
    r
}

} // verus!
