//! Sets of grammar symbols.
use vstd::prelude::*;

verus! {

/// The text of each string in `v`, in order.
pub open spec fn texts(v: Seq<String>) -> Seq<Seq<char>> {
    v.map_values(|s: String| s@)
}

/// Whether one of the strings of `v` has the text of `s`.
pub fn contains_text(v: &Vec<String>, s: &str) -> (r: bool)
    ensures
        r == texts(v@).contains(s@),
{
    let t = s.to_owned();
    let mut i: usize = 0;
    while i < v.len()
        invariant
            0 <= i <= v@.len(),
            t@ == s@,
            forall|k: int| 0 <= k < i ==> v@[k]@ != s@,
        decreases v@.len() - i,
    {
        if v[i] == t {
            proof {
                assert(texts(v@)[i as int] == s@);
            }
            return true;
        }
        i = i + 1;
    }
    proof {
        assert forall|x: Seq<char>| texts(v@).contains(x) implies x != s@ by {
            let k = choose|k: int| 0 <= k < texts(v@).len() && texts(v@)[k] == x;
            assert(v@[k]@ == x);
        }
    }
    false
}

/// A finite set of symbols, each held once, in the order of insertion.
#[derive(Debug)]
pub struct SymbolSet {
    items: Vec<String>,
}

impl View for SymbolSet {
    type V = Set<Seq<char>>;

    closed spec fn view(&self) -> Set<Seq<char>> {
        self.members().to_set()
    }
}

impl SymbolSet {
    /// The members in the order in which they were first added.
    pub closed spec fn members(&self) -> Seq<Seq<char>> {
        texts(self.items@)
    }

    /// Each member is held once.
    pub closed spec fn wf(&self) -> bool {
        texts(self.items@).no_duplicates()
    }

    /// The empty set.
    pub fn new() -> (r: SymbolSet)
        ensures
            r.wf(),
            r@ == Set::<Seq<char>>::empty(),
            r.members() == Seq::<Seq<char>>::empty(),
    {
        let r = SymbolSet { items: Vec::new() };
        assert(texts(r.items@) =~= Seq::<Seq<char>>::empty());
        r
    }

    /// Whether `s` is a member.
    pub fn contains(&self, s: &str) -> (r: bool)
        ensures
            r == self@.contains(s@),
    {
        contains_text(&self.items, s)
    }

    /// Adds `s`; the result tells whether it was absent before.
    pub fn insert(&mut self, s: &str) -> (r: bool)
        requires
            old(self).wf(),
        ensures
            final(self).wf(),
            final(self)@ == old(self)@.insert(s@),
            r == !old(self)@.contains(s@),
            r ==> final(self).members() == old(self).members().push(s@),
            !r ==> final(self).members() == old(self).members(),
    {
        if self.contains(s) {
            proof {
                assert(self@.insert(s@) =~= self@);
            }
            false
        } else {
            let ghost before = texts(self.items@);
            self.items.push(s.to_owned());
            proof {
                assert(texts(self.items@) =~= before.push(s@));
                before.lemma_push_to_set_commute(s@);
                assert(!before.contains(s@));
            }
            true
        }
    }

    /// Adds every member of `other`.
    pub fn extend(&mut self, other: &SymbolSet)
        requires
            old(self).wf(),
        ensures
            final(self).wf(),
            final(self)@ == old(self)@.union(other@),
    {
        let mut i: usize = 0;
        while i < other.items.len()
            invariant
                0 <= i <= other.items@.len(),
                self.wf(),
                self@ == old(self)@.union(texts(other.items@.take(i as int)).to_set()),
            decreases other.items@.len() - i,
        {
            let s: &String = &other.items[i];
            self.insert(s.as_str());
            proof {
                let ti = texts(other.items@.take(i as int));
                assert(texts(other.items@.take(i as int + 1)) =~= ti.push(s@));
                ti.lemma_push_to_set_commute(s@);
                assert(self@ =~= old(self)@.union(texts(other.items@.take(i as int + 1)).to_set()));
            }
            i = i + 1;
        }
        proof {
            assert(other.items@.take(other.items@.len() as int) =~= other.items@);
        }
    }

    /// Adds every member of `other` but `excluded`.
    pub fn extend_except(&mut self, other: &SymbolSet, excluded: &str)
        requires
            old(self).wf(),
        ensures
            final(self).wf(),
            final(self)@ == old(self)@.union(other@.remove(excluded@)),
    {
        let t = excluded.to_owned();
        let mut i: usize = 0;
        while i < other.items.len()
            invariant
                0 <= i <= other.items@.len(),
                t@ == excluded@,
                self.wf(),
                self@ == old(self)@.union(texts(other.items@.take(i as int)).to_set().remove(excluded@)),
            decreases other.items@.len() - i,
        {
            let s: &String = &other.items[i];
            if *s != t {
                self.insert(s.as_str());
            }
            proof {
                let ti = texts(other.items@.take(i as int));
                assert(texts(other.items@.take(i as int + 1)) =~= ti.push(s@));
                ti.lemma_push_to_set_commute(s@);
                assert(self@ =~= old(self)@.union(
                    texts(other.items@.take(i as int + 1)).to_set().remove(excluded@),
                ));
            }
            i = i + 1;
        }
        proof {
            assert(other.items@.take(other.items@.len() as int) =~= other.items@);
        }
    }

    /// The number of members.
    pub fn len(&self) -> (r: usize)
        requires
            self.wf(),
        ensures
            r == self@.len(),
    {
        proof {
            texts(self.items@).unique_seq_to_set();
        }
        self.items.len()
    }

    /// The members, each once, in the order in which they were first added.
    pub fn items(&self) -> (r: Vec<String>)
        requires
            self.wf(),
        ensures
            texts(r@) == self.members(),
            texts(r@).to_set() == self@,
            texts(r@).no_duplicates(),
    {
        let mut r: Vec<String> = Vec::new();
        let mut i: usize = 0;
        while i < self.items.len()
            invariant
                0 <= i <= self.items@.len(),
                texts(r@) == texts(self.items@.take(i as int)),
            decreases self.items@.len() - i,
        {
            let c: String = self.items[i].clone();
            proof {
                assert(c@ == self.items@[i as int]@);
            }
            let ghost before = r@;
            r.push(c);
            proof {
                assert(texts(r@) =~= texts(before).push(c@));
                assert(texts(self.items@.take(i as int + 1)) =~= texts(self.items@.take(i as int)).push(c@));
                assert(texts(r@) =~= texts(self.items@.take(i as int + 1)));
            }
            i = i + 1;
        }
        proof {
            assert(self.items@.take(self.items@.len() as int) =~= self.items@);
        }
        r
    }
}

} // verus!
