//! Splitting text at a separator, and reading a rule from one logical line.
use vstd::prelude::*;

use crate::grammar::{rule_wf, Production, Rule, RuleView};
use crate::symbols::texts;

verus! {

/// `sep` stands in `s` at position `i`.
pub open spec fn is_match(s: Seq<char>, sep: Seq<char>, i: int) -> bool {
    0 <= i && i + sep.len() <= s.len() && s.subrange(i, i + sep.len()) == sep
}

/// The pieces of `s` from `start` on, where the current piece began at `start` and the
/// scan for `sep` has reached `i`; each match ends a piece and the scan goes on after it.
pub open spec fn split_from(s: Seq<char>, sep: Seq<char>, start: int, i: int) -> Seq<Seq<char>>
    decreases s.len() - i,
{
    if sep.len() == 0 || i < 0 || i + sep.len() > s.len() {
        seq![s.subrange(start, s.len() as int)]
    } else if is_match(s, sep, i) {
        seq![s.subrange(start, i)] + split_from(s, sep, i + sep.len(), i + sep.len())
    } else {
        split_from(s, sep, start, i + 1)
    }
}

/// The pieces of `s` between the matches of `sep`, found from left to right without
/// overlap; at least one piece, possibly empty.
pub open spec fn split(s: Seq<char>, sep: Seq<char>) -> Seq<Seq<char>> {
    split_from(s, sep, 0, 0)
}

proof fn lemma_split_from_nonempty(s: Seq<char>, sep: Seq<char>, start: int, i: int)
    ensures
        split_from(s, sep, start, i).len() >= 1,
    decreases s.len() - i,
{
    if sep.len() == 0 || i < 0 || i + sep.len() > s.len() {
    } else if is_match(s, sep, i) {
        lemma_split_from_nonempty(s, sep, i + sep.len(), i + sep.len());
    } else {
        lemma_split_from_nonempty(s, sep, start, i + 1);
    }
}

/// Splitting always yields at least one piece.
pub proof fn lemma_split_nonempty(s: Seq<char>, sep: Seq<char>)
    ensures
        split(s, sep).len() >= 1,
{
    lemma_split_from_nonempty(s, sep, 0, 0);
}

/// The characters of `s`.
pub(crate) fn chars_of(s: &str) -> (r: Vec<char>)
    ensures
        r@ == s@,
{
    let n = s.unicode_len();
    let mut r: Vec<char> = Vec::new();
    let mut i: usize = 0;
    while i < n
        invariant
            0 <= i <= n,
            n == s@.len(),
            r@ == s@.subrange(0, i as int),
        decreases n - i,
    {
        r.push(s.get_char(i));
        proof {
            assert(r@ =~= s@.subrange(0, i as int + 1));
        }
        i = i + 1;
    }
    proof {
        assert(r@ =~= s@);
    }
    r
}

/// Whether `sep` stands in `cs` at position `i`.
pub(crate) fn matches_at(cs: &Vec<char>, sep: &Vec<char>, i: usize) -> (r: bool)
    ensures
        r == is_match(cs@, sep@, i as int),
{
    let n = cs.len();
    if sep.len() > n || i > n - sep.len() {
        return false;
    }
    let mut k: usize = 0;
    while k < sep.len()
        invariant
            n == cs@.len(),
            0 <= k <= sep@.len(),
            i + sep@.len() <= cs@.len(),
            forall|m: int| 0 <= m < k ==> cs@[i + m] == sep@[m],
        decreases sep@.len() - k,
    {
        if cs[i + k] != sep[k] {
            proof {
                assert(cs@.subrange(i as int, i + sep@.len())[k as int] != sep@[k as int]);
            }
            return false;
        }
        k = k + 1;
    }
    proof {
        assert(cs@.subrange(i as int, i + sep@.len()) =~= sep@);
    }
    true
}

/// The pieces of `s` between the matches of `sep`.
pub fn split_text(s: &str, sep: &str) -> (r: Vec<String>)
    ensures
        texts(r@) == split(s@, sep@),
{
    let cs = chars_of(s);
    let sp = chars_of(sep);
    let n = cs.len();
    let m = sp.len();
    let mut r: Vec<String> = Vec::new();
    let mut start: usize = 0;
    let mut i: usize = 0;
    while m > 0 && m <= n - i
        invariant
            cs@ == s@,
            sp@ == sep@,
            n == cs@.len(),
            m == sp@.len(),
            0 <= start <= i <= n,
            texts(r@) + split_from(s@, sep@, start as int, i as int) == split(s@, sep@),
        decreases n - i,
    {
        if matches_at(&cs, &sp, i) {
            let piece = s.substring_char(start, i).to_owned();
            let ghost before = r@;
            r.push(piece);
            proof {
                assert(texts(r@) =~= texts(before).push(piece@));
                assert(texts(r@) + split_from(s@, sep@, (i + m) as int, (i + m) as int) =~= texts(before)
                    + split_from(s@, sep@, start as int, i as int));
            }
            i = i + m;
            start = i;
        } else {
            i = i + 1;
        }
    }
    let last = s.substring_char(start, n).to_owned();
    let ghost before = r@;
    r.push(last);
    proof {
        assert(texts(r@) =~= texts(before).push(last@));
        assert(texts(r@) =~= texts(before) + split_from(s@, sep@, start as int, i as int));
    }
    r
}

/// The first position where `sep` stands in `s`.
pub fn find_text(s: &str, sep: &str) -> (r: Option<usize>)
    ensures
        r is None ==> find_from(s@, sep@, 0) == -1,
        r is Some ==> r->0 == find_from(s@, sep@, 0),
{
    let cs = chars_of(s);
    let sp = chars_of(sep);
    let n = cs.len();
    let m = sp.len();
    let mut i: usize = 0;
    while m > 0 && m <= n - i
        invariant
            cs@ == s@,
            sp@ == sep@,
            n == cs@.len(),
            m == sp@.len(),
            0 <= i <= n,
            find_from(s@, sep@, 0) == find_from(s@, sep@, i as int),
        decreases n - i,
    {
        if matches_at(&cs, &sp, i) {
            return Some(i);
        }
        i = i + 1;
    }
    None
}

/// Why a line is not a rule.
#[derive(Debug, Clone, Copy, PartialEq, Eq, Structural)]
pub enum GrammarError {
    /// The line has no ` ::= ` between its left and right sides.
    MissingSeparator,
    /// The right-hand side is empty.
    EmptyRightSide,
    /// An alternative holds no symbol.
    EmptyAlternative,
}

/// ` ::= `, between the two sides of a rule.
pub open spec fn defines_sep() -> Seq<char> {
    seq![' ', ':', ':', '=', ' ']
}

/// ` | `, between alternatives.
pub open spec fn alt_sep() -> Seq<char> {
    seq![' ', '|', ' ']
}

/// ` `, between symbols.
pub open spec fn symbol_sep() -> Seq<char> {
    seq![' ']
}

/// The symbols of an alternative.
pub open spec fn production_symbols(text: Seq<char>) -> Seq<Seq<char>> {
    split(text, symbol_sep())
}

/// The first position at or after `i` where `sep` stands in `s`, or -1.
pub open spec fn find_from(s: Seq<char>, sep: Seq<char>, i: int) -> int
    decreases s.len() - i,
{
    if sep.len() == 0 || i < 0 || i + sep.len() > s.len() {
        -1
    } else if is_match(s, sep, i) {
        i
    } else {
        find_from(s, sep, i + 1)
    }
}

proof fn lemma_find_from(s: Seq<char>, sep: Seq<char>, i: int)
    requires
        0 <= i,
    ensures
        find_from(s, sep, i) == -1 || (i <= find_from(s, sep, i) && is_match(
            s,
            sep,
            find_from(s, sep, i),
        )),
    decreases s.len() - i,
{
    if !(sep.len() == 0 || i + sep.len() > s.len()) && !is_match(s, sep, i) {
        lemma_find_from(s, sep, i + 1);
    }
}

/// The position of the first ` ::= ` of a line, or -1.
pub open spec fn definition_at(line: Seq<char>) -> int {
    find_from(line, defines_sep(), 0)
}

/// The left-hand side of a line: what stands before its first ` ::= `.
pub open spec fn left_side(line: Seq<char>) -> Seq<char> {
    line.subrange(0, definition_at(line))
}

/// The right-hand side of a line: everything after its first ` ::= `.
pub open spec fn right_side(line: Seq<char>) -> Seq<char> {
    line.subrange(definition_at(line) + defines_sep().len(), line.len() as int)
}

/// The texts of the alternatives of a line.
pub open spec fn alternatives(line: Seq<char>) -> Seq<Seq<char>> {
    split(right_side(line), alt_sep())
}

/// What is wrong with a line, checked in this order; `None` for a rule.
pub open spec fn line_error(line: Seq<char>) -> Option<GrammarError> {
    if definition_at(line) < 0 {
        Some(GrammarError::MissingSeparator)
    } else if right_side(line).len() == 0 {
        Some(GrammarError::EmptyRightSide)
    } else if exists|k: int| 0 <= k < alternatives(line).len() && #[trigger] alternatives(line)[k].len() == 0 {
        Some(GrammarError::EmptyAlternative)
    } else {
        None
    }
}

/// The rule that a well-formed line states.
pub open spec fn line_rule(line: Seq<char>) -> RuleView {
    RuleView {
        lhs: left_side(line),
        alts: alternatives(line).map_values(|a: Seq<char>| production_symbols(a)),
    }
}

impl Production {
    /// The production that an alternative's text states: its symbols, split at single
    /// spaces. Empty text is no production.
    pub fn try_from(value: &str) -> (r: Result<Production, GrammarError>)
        ensures
            value@.len() == 0 ==> r == Err::<Production, GrammarError>(GrammarError::EmptyAlternative),
            value@.len() > 0 ==> r is Ok && r->Ok_0@ == production_symbols(value@),
            r is Ok ==> r->Ok_0.wf(),
    {
        if value.is_empty() {
            return Err(GrammarError::EmptyAlternative);
        }
        let sep: &str = " ";
        proof {
            reveal_strlit(" ");
            assert(sep@ =~= symbol_sep());
            lemma_split_nonempty(value@, sep@);
        }
        Ok(Production::new(split_text(value, sep)))
    }
}

impl Rule {
    /// The rule that one logical line `LHS ::= ALT1 | ALT2 | ...` states: the left-hand side
    /// is what stands before the first ` ::= `, the right-hand side all that follows it. A
    /// line with no ` ::= `, with an empty right-hand side or with an empty alternative is
    /// malformed.
    pub fn try_from(value: &str) -> (r: Result<Rule, GrammarError>)
        ensures
            match line_error(value@) {
                Some(e) => r == Err::<Rule, GrammarError>(e),
                None => r is Ok && r->Ok_0@ == line_rule(value@),
            },
            r is Ok ==> rule_wf(r->Ok_0@),
    {
        let dsep: &str = " ::= ";
        let asep: &str = " | ";
        proof {
            reveal_strlit(" ::= ");
            reveal_strlit(" | ");
            assert(dsep@ =~= defines_sep());
            assert(asep@ =~= alt_sep());
        }
        let m = match find_text(value, dsep) {
            None => {
                return Err(GrammarError::MissingSeparator);
            },
            Some(m) => m,
        };
        let n = value.unicode_len();
        proof {
            lemma_find_from(value@, dsep@, 0);
        }
        let lhs = value.substring_char(0, m).to_owned();
        let rhs_text = value.substring_char(m + 5, n).to_owned();
        let rhs: &String = &rhs_text;
        proof {
            assert(lhs@ == left_side(value@));
            assert(rhs@ == right_side(value@));
        }
        if rhs.as_str().is_empty() {
            return Err(GrammarError::EmptyRightSide);
        }
        let alts = split_text(rhs.as_str(), asep);
        let ghost av = alternatives(value@);
        proof {
            lemma_split_nonempty(rhs@, asep@);
            assert(right_side(value@) == rhs@);
            assert(texts(alts@) == av);
        }
        let mut prods: Vec<Production> = Vec::new();
        let mut k: usize = 0;
        while k < alts.len()
            invariant
                0 <= k <= alts@.len(),
                texts(alts@) == av,
                av == alternatives(value@),
                definition_at(value@) >= 0,
                right_side(value@).len() > 0,
                av.len() >= 1,
                prods@.len() == k,
                forall|m: int| 0 <= m < k ==> av[m].len() > 0,
                forall|m: int|
                    0 <= m < k ==> (#[trigger] prods@[m])@ == production_symbols(av[m]) && prods@[m].wf(),
            decreases alts@.len() - k,
        {
            let a: &String = &alts[k];
            proof {
                assert(av[k as int] == a@);
            }
            match Production::try_from(a.as_str()) {
                Ok(p) => {
                    prods.push(p);
                },
                Err(e) => {
                    proof {
                        assert(av[k as int].len() == 0);
                    }
                    return Err(e);
                },
            }
            k = k + 1;
        }
        let r = Rule::new(lhs, prods);
        proof {
            assert(r@.alts =~= av.map_values(|a: Seq<char>| production_symbols(a)));
            assert(r@ == line_rule(value@));
        }
        Ok(r)
    }
}

} // verus!
