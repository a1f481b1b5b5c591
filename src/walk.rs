//! Walks through a relation on symbols, kept clear of the symbols on a stack.
use vstd::prelude::*;

verus! {

/// `w` is a non-empty sequence of symbols, each related to the next by `step`.
pub open spec fn is_walk(step: spec_fn(Seq<char>, Seq<char>) -> bool, w: Seq<Seq<char>>) -> bool {
    &&& w.len() >= 1
    &&& forall|i: int| 0 <= i < w.len() - 1 ==> #[trigger] step(w[i], w[i + 1])
}

/// No symbol of `w` is on `stack`.
pub open spec fn avoids(w: Seq<Seq<char>>, stack: Seq<Seq<char>>) -> bool {
    forall|i: int| 0 <= i < w.len() ==> !stack.contains(#[trigger] w[i])
}

/// A walk from `s` to `v` avoids every symbol on `stack`.
pub open spec fn reaches_avoiding(
    step: spec_fn(Seq<char>, Seq<char>) -> bool,
    s: Seq<char>,
    v: Seq<char>,
    stack: Seq<Seq<char>>,
) -> bool {
    exists|w: Seq<Seq<char>>|
        #![trigger is_walk(step, w), avoids(w, stack)]
        is_walk(step, w) && w[0] == s && w.last() == v && avoids(w, stack)
}

/// A walk from `s` to `v` exists.
pub open spec fn reaches(step: spec_fn(Seq<char>, Seq<char>) -> bool, s: Seq<char>, v: Seq<char>) -> bool {
    reaches_avoiding(step, s, v, Seq::empty())
}

/// Every symbol off the stack reaches itself.
pub proof fn lemma_reaches_self(
    step: spec_fn(Seq<char>, Seq<char>) -> bool,
    s: Seq<char>,
    stack: Seq<Seq<char>>,
)
    requires
        !stack.contains(s),
    ensures
        reaches_avoiding(step, s, s, stack),
{
    let w = seq![s];
    assert(is_walk(step, w));
    assert(avoids(w, stack));
}

/// A step from `s`, followed by a walk that also avoids `s`, is a walk from `s`.
pub proof fn lemma_reaches_front(
    step: spec_fn(Seq<char>, Seq<char>) -> bool,
    s: Seq<char>,
    c: Seq<char>,
    v: Seq<char>,
    stack: Seq<Seq<char>>,
)
    requires
        !stack.contains(s),
        step(s, c),
        reaches_avoiding(step, c, v, stack.push(s)),
    ensures
        reaches_avoiding(step, s, v, stack),
{
    let w = choose|w: Seq<Seq<char>>|
        #![trigger is_walk(step, w), avoids(w, stack.push(s))]
        is_walk(step, w) && w[0] == c && w.last() == v && avoids(w, stack.push(s));
    let w2 = seq![s] + w;
    assert forall|i: int| 0 <= i < w2.len() - 1 implies #[trigger] step(w2[i], w2[i + 1]) by {
        if i > 0 {
            assert(w2[i] == w[i - 1] && w2[i + 1] == w[i]);
            assert(step(w[i - 1], w[(i - 1) + 1]));
        }
    }
    assert(is_walk(step, w2));
    assert forall|i: int| 0 <= i < w2.len() implies !stack.contains(#[trigger] w2[i]) by {
        if i > 0 {
            assert(w2[i] == w[i - 1]);
            assert(!stack.push(s).contains(w[i - 1]));
            if stack.contains(w[i - 1]) {
                let j = choose|j: int| 0 <= j < stack.len() && stack[j] == w[i - 1];
                assert(stack.push(s)[j] == w[i - 1]);
            }
        }
    }
    assert(avoids(w2, stack));
    assert(w2[0] == s && w2.last() == v);
}

proof fn lemma_split_walk(
    step: spec_fn(Seq<char>, Seq<char>) -> bool,
    w: Seq<Seq<char>>,
    stack: Seq<Seq<char>>,
)
    requires
        is_walk(step, w),
        avoids(w, stack),
    ensures
        w.last() == w[0] || exists|c: Seq<char>|
            #[trigger] step(w[0], c) && reaches_avoiding(step, c, w.last(), stack.push(w[0])),
    decreases w.len(),
{
    let s = w[0];
    if w.len() > 1 {
        if exists|k: int| 1 <= k < w.len() && w[k] == s {
            let k = choose|k: int| 1 <= k < w.len() && w[k] == s;
            let w2 = w.subrange(k, w.len() as int);
            assert forall|i: int| 0 <= i < w2.len() - 1 implies #[trigger] step(w2[i], w2[i + 1]) by {
                assert(w2[i] == w[i + k] && w2[i + 1] == w[(i + k) + 1]);
            }
            assert forall|i: int| 0 <= i < w2.len() implies !stack.contains(#[trigger] w2[i]) by {
                assert(w2[i] == w[i + k]);
            }
            lemma_split_walk(step, w2, stack);
        } else {
            let t = w.subrange(1, w.len() as int);
            assert forall|i: int| 0 <= i < t.len() - 1 implies #[trigger] step(t[i], t[i + 1]) by {
                assert(t[i] == w[i + 1] && t[i + 1] == w[(i + 1) + 1]);
            }
            assert forall|i: int| 0 <= i < t.len() implies !stack.push(s).contains(#[trigger] t[i]) by {
                assert(t[i] == w[i + 1]);
                assert(!stack.contains(w[i + 1]));
                assert(w[i + 1] != s);
                if stack.push(s).contains(t[i]) {
                    let j = choose|j: int| 0 <= j < stack.push(s).len() && stack.push(s)[j] == t[i];
                    if j < stack.len() {
                        assert(stack[j] == t[i]);
                    }
                }
            }
            assert(step(w[0], w[0int + 1]));
            assert(is_walk(step, t) && t[0] == w[1] && t.last() == w.last() && avoids(t, stack.push(s)));
        }
    }
}

/// A walk from `s` either stays at `s` or takes a first step to some `c` and then
/// goes on without coming back to `s`.
pub proof fn lemma_reaches_split(
    step: spec_fn(Seq<char>, Seq<char>) -> bool,
    s: Seq<char>,
    v: Seq<char>,
    stack: Seq<Seq<char>>,
)
    requires
        reaches_avoiding(step, s, v, stack),
    ensures
        !stack.contains(s),
        v == s || exists|c: Seq<char>| #[trigger] step(s, c) && reaches_avoiding(step, c, v, stack.push(s)),
{
    let w = choose|w: Seq<Seq<char>>|
        #![trigger is_walk(step, w), avoids(w, stack)]
        is_walk(step, w) && w[0] == s && w.last() == v && avoids(w, stack);
    assert(!stack.contains(w[0]));
    lemma_split_walk(step, w, stack);
}

} // verus!
