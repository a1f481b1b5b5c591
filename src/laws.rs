//! General facts about the sets that the engines compute.
use vstd::prelude::*;

use crate::first::{first_set, first_set_avoiding, first_step, first_steps};
use crate::follow::{
    direct_follow, end_marker, epsilon, follow_set, follow_set_avoiding, follow_steps, occurs,
};
use crate::grammar::{alts_of, is_nonterminal, is_terminal, RuleView};
use crate::selection::pairwise_disjoint;
use crate::walk::{lemma_reaches_front, lemma_reaches_self, lemma_reaches_split, reaches_avoiding};

verus! {

/// A terminal is the only member of its own FIRST set.
pub proof fn lemma_first_of_terminal(g: Seq<RuleView>, t: Seq<char>)
    requires
        is_terminal(g, t),
    ensures
        first_set(g, t) == set![t],
{
    let e = Seq::<Seq<char>>::empty();
    lemma_reaches_self(first_steps(g), t, e);
    assert forall|x: Seq<char>| first_set(g, t).contains(x) implies x == t by {
        lemma_reaches_split(first_steps(g), t, x, e);
        if x != t {
            let c = choose|c: Seq<char>|
                #[trigger] (first_steps(g))(t, c) && reaches_avoiding(first_steps(g), c, x, e.push(t));
        }
    }
    assert(first_set(g, t) =~= set![t]);
}

/// A terminal that begins an alternative of a non-terminal is in that non-terminal's
/// FIRST set.
pub proof fn lemma_first_has_leading_terminal(g: Seq<RuleView>, n: Seq<char>, k: int)
    requires
        is_nonterminal(g, n),
        0 <= k < alts_of(g, n).len(),
        alts_of(g, n)[k].len() >= 1,
        is_terminal(g, alts_of(g, n)[k][0]),
    ensures
        first_set(g, n).contains(alts_of(g, n)[k][0]),
{
    let t = alts_of(g, n)[k][0];
    let e = Seq::<Seq<char>>::empty();
    assert(!e.push(n).contains(t)) by {
        if e.push(n).contains(t) {
            let j = choose|j: int| 0 <= j < e.push(n).len() && e.push(n)[j] == t;
            assert(j == 0);
        }
    }
    lemma_reaches_self(first_steps(g), t, e.push(n));
    assert(first_step(g, n, t));
    assert((first_steps(g))(n, t));
    lemma_reaches_front(first_steps(g), n, t, t, e);
    assert(first_set_avoiding(g, n, e).contains(t));
}

/// A symbol that stands on no right-hand side, such as the start symbol, has the end
/// marker in its FOLLOW set.
pub proof fn lemma_follow_of_start(g: Seq<RuleView>, s: Seq<char>)
    requires
        !occurs(g, s),
    ensures
        follow_set(g, s).contains(end_marker()),
{
    let e = Seq::<Seq<char>>::empty();
    lemma_reaches_self(follow_steps(g), s, e);
    assert(direct_follow(g, s).contains(end_marker()));
}

/// `epsilon` is in no FOLLOW set, whatever stack it is computed with.
pub proof fn lemma_follow_has_no_epsilon(g: Seq<RuleView>, s: Seq<char>, stack: Seq<Seq<char>>)
    ensures
        !follow_set_avoiding(g, s, stack).contains(epsilon()),
{
    assert forall|v: Seq<char>| !direct_follow(g, v).contains(epsilon()) by {
        assert(end_marker() != epsilon()) by {
            assert(end_marker().len() != epsilon().len());
        }
    }
}

/// No set, or a single set, is pairwise disjoint.
pub proof fn lemma_disjoint_at_most_one(sets: Seq<Set<Seq<char>>>)
    requires
        sets.len() <= 1,
    ensures
        pairwise_disjoint(sets),
{
}

} // verus!
