//! From the text of a grammar file to one logical line per rule.
use vstd::prelude::*;
use vstd::string::StringExecFns;

use crate::symbols::texts;
use crate::text::{chars_of, is_match, matches_at, split, split_text};

verus! {

/// `c` has the Unicode property White_Space.
pub open spec fn is_white_space(c: char) -> bool {
    let u = c as u32;
    (9 <= u <= 13) || u == 32 || u == 0x85 || u == 0xA0 || u == 0x1680 || (0x2000 <= u <= 0x200A)
        || u == 0x2028 || u == 0x2029 || u == 0x202F || u == 0x205F || u == 0x3000
}

/// `s` without its leading white space.
pub open spec fn trim_start(s: Seq<char>) -> Seq<char>
    decreases s.len(),
{
    if s.len() > 0 && is_white_space(s[0]) {
        trim_start(s.drop_first())
    } else {
        s
    }
}

/// `s` without its trailing white space.
pub open spec fn trim_end(s: Seq<char>) -> Seq<char>
    decreases s.len(),
{
    if s.len() > 0 && is_white_space(s.last()) {
        trim_end(s.drop_last())
    } else {
        s
    }
}

/// `s` without leading and trailing white space.
pub open spec fn trim(s: Seq<char>) -> Seq<char> {
    trim_end(trim_start(s))
}

/// `s` with each double quote replaced by a single quote.
pub open spec fn unquote(s: Seq<char>) -> Seq<char> {
    s.map_values(|c: char| if c == '"' { '\'' } else { c })
}

/// A line that carries grammar text: not empty, and not a comment, which begins with
/// `//`, `#` or `;`.
pub open spec fn is_content_line(x: Seq<char>) -> bool {
    !(x.len() == 0 || (x.len() >= 2 && x[0] == '/' && x[1] == '/') || x[0] == '#' || x[0] == ';')
}

/// The lines of a file that carry grammar text, trimmed, with double quotes made single.
/// A comment is recognised on the line as written; a line that is blank once trimmed is
/// dropped.
pub open spec fn file_lines(raw: Seq<Seq<char>>) -> Seq<Seq<char>>
    decreases raw.len(),
{
    if raw.len() == 0 {
        Seq::empty()
    } else {
        let f = file_lines(raw.drop_last());
        if is_content_line(raw.last()) && trim(raw.last()).len() > 0 {
            f.push(unquote(trim(raw.last())))
        } else {
            f
        }
    }
}

fn white_space(c: char) -> (r: bool)
    ensures
        r == is_white_space(c),
{
    let u = c as u32;
    (9 <= u && u <= 13) || u == 32 || u == 0x85 || u == 0xA0 || u == 0x1680 || (0x2000 <= u && u
        <= 0x200A) || u == 0x2028 || u == 0x2029 || u == 0x202F || u == 0x205F || u == 0x3000
}

proof fn lemma_trim_start_skip(s: Seq<char>, a: int)
    requires
        0 <= a < s.len(),
        is_white_space(s[a]),
    ensures
        trim_start(s.subrange(a, s.len() as int)) == trim_start(s.subrange(a + 1, s.len() as int)),
{
    assert(s.subrange(a, s.len() as int).drop_first() =~= s.subrange(a + 1, s.len() as int));
}

proof fn lemma_trim_end_skip(s: Seq<char>, b: int)
    requires
        0 < b <= s.len(),
        is_white_space(s[b - 1]),
    ensures
        trim_end(s.subrange(0, b)) == trim_end(s.subrange(0, b - 1)),
{
    assert(s.subrange(0, b).drop_last() =~= s.subrange(0, b - 1));
}

/// `s` without leading and trailing white space.
pub fn trim_text(s: &str) -> (r: String)
    ensures
        r@ == trim(s@),
{
    let n = s.unicode_len();
    let mut a: usize = 0;
    proof {
        assert(s@.subrange(0, n as int) =~= s@);
    }
    while a < n && white_space(s.get_char(a))
        invariant
            0 <= a <= n,
            n == s@.len(),
            trim_start(s@) == trim_start(s@.subrange(a as int, n as int)),
        decreases n - a,
    {
        proof {
            lemma_trim_start_skip(s@, a as int);
        }
        a = a + 1;
    }
    let ghost t = s@.subrange(a as int, n as int);
    proof {
        assert(trim_start(t) == t);
        assert(t.subrange(0, t.len() as int) =~= t);
    }
    let mut b: usize = n;
    while b > a && white_space(s.get_char(b - 1))
        invariant
            0 <= a <= b <= n,
            n == s@.len(),
            t == s@.subrange(a as int, n as int),
            trim_end(t) == trim_end(t.subrange(0, b - a)),
        decreases b,
    {
        proof {
            assert(t[b - a - 1] == s@[b - 1]);
            lemma_trim_end_skip(t, b - a);
        }
        b = b - 1;
    }
    proof {
        assert(t.subrange(0, b - a) =~= s@.subrange(a as int, b as int));
        assert(trim_end(s@.subrange(a as int, b as int)) == s@.subrange(a as int, b as int));
    }
    s.substring_char(a, b).to_owned()
}

/// `s` with each double quote replaced by a single quote.
pub fn unquote_text(s: &str) -> (r: String)
    ensures
        r@ == unquote(s@),
{
    let n = s.unicode_len();
    let single: &str = "'";
    proof {
        reveal_strlit("'");
        assert(single@ =~= seq!['\'']);
    }
    let mut r = String::new();
    let mut i: usize = 0;
    while i < n
        invariant
            0 <= i <= n,
            n == s@.len(),
            single@ == seq!['\''],
            r@ == unquote(s@.subrange(0, i as int)),
        decreases n - i,
    {
        if s.get_char(i) == '"' {
            r.append(single);
        } else {
            r.append(s.substring_char(i, i + 1));
        }
        proof {
            assert(r@ =~= unquote(s@.subrange(0, i as int + 1)));
        }
        i = i + 1;
    }
    proof {
        assert(s@.subrange(0, n as int) =~= s@);
    }
    r
}

/// Whether `x` carries grammar text: not empty, and not begun by `//`, `#` or `;`.
pub fn valid_string(x: &str) -> (r: bool)
    ensures
        r == is_content_line(x@),
{
    let n = x.unicode_len();
    if n == 0 {
        return false;
    }
    let c = x.get_char(0);
    if c == '#' || c == ';' {
        return false;
    }
    !(n >= 2 && c == '/' && x.get_char(1) == '/')
}

/// The lines of `contents` that carry grammar text, each trimmed, with double quotes made
/// single. Comments (lines begun by `//`, `#` or `;`) and lines that are blank once trimmed
/// are dropped.
pub fn get_file_lines(contents: String) -> (r: Vec<String>)
    ensures
        texts(r@) == file_lines(split(contents@, seq!['\n'])),
{
    let nl: &str = "\n";
    proof {
        reveal_strlit("\n");
        assert(nl@ =~= seq!['\n']);
    }
    let raw = split_text(contents.as_str(), nl);
    let ghost rv = texts(raw@);
    let mut r: Vec<String> = Vec::new();
    let mut i: usize = 0;
    proof {
        assert(rv.take(0) =~= Seq::<Seq<char>>::empty());
        assert(texts(r@) =~= file_lines(rv.take(0)));
    }
    while i < raw.len()
        invariant
            0 <= i <= raw@.len(),
            rv == texts(raw@),
            texts(r@) == file_lines(rv.take(i as int)),
        decreases raw@.len() - i,
    {
        let l: &String = &raw[i];
        proof {
            assert(rv.take(i as int + 1).drop_last() =~= rv.take(i as int));
            assert(rv.take(i as int + 1).last() == l@);
        }
        if valid_string(l.as_str()) {
            let t = trim_text(l.as_str());
            if !t.as_str().is_empty() {
                let u = unquote_text(t.as_str());
                let ghost before = r@;
                r.push(u);
                proof {
                    assert(texts(r@) =~= texts(before).push(u@));
                }
            }
        }
        i = i + 1;
    }
    proof {
        assert(rv.take(raw@.len() as int) =~= rv);
    }
    r
}

/// `::=`, which marks the line that begins a rule.
pub open spec fn definition_mark() -> Seq<char> {
    seq![':', ':', '=']
}

/// `l` holds `::=` somewhere.
pub open spec fn has_definition(l: Seq<char>) -> bool {
    exists|i: int| is_match(l, definition_mark(), i)
}

/// The indices of the lines that begin a rule, in order.
pub open spec fn rule_starts(lines: Seq<Seq<char>>) -> Seq<int>
    decreases lines.len(),
{
    if lines.len() == 0 {
        Seq::empty()
    } else {
        let s = rule_starts(lines.drop_last());
        if has_definition(lines.last()) {
            s.push(lines.len() - 1)
        } else {
            s
        }
    }
}

/// The lines of `ls` joined by single spaces.
pub open spec fn join_with_spaces(ls: Seq<Seq<char>>) -> Seq<char>
    decreases ls.len(),
{
    if ls.len() == 0 {
        Seq::empty()
    } else if ls.len() == 1 {
        ls[0]
    } else {
        join_with_spaces(ls.drop_last()) + seq![' '] + ls.last()
    }
}

/// One logical line per rule: each line that holds `::=` joined with the lines after it,
/// up to the next such line. Lines before the first such line belong to no rule.
pub open spec fn joined_rules(lines: Seq<Seq<char>>) -> Seq<Seq<char>> {
    let st = rule_starts(lines);
    Seq::new(
        st.len(),
        |c: int|
            join_with_spaces(
                lines.subrange(
                    st[c],
                    if c + 1 < st.len() {
                        st[c + 1]
                    } else {
                        lines.len() as int
                    },
                ),
            ),
    )
}

/// Whether `l` holds `::=`.
fn holds_definition(l: &str) -> (r: bool)
    ensures
        r == has_definition(l@),
{
    let mark: &str = "::=";
    proof {
        reveal_strlit("::=");
        assert(mark@ =~= definition_mark());
    }
    let cs = chars_of(l);
    let ms = chars_of(mark);
    let mut i: usize = 0;
    while i < cs.len()
        invariant
            cs@ == l@,
            ms@ == definition_mark(),
            0 <= i <= cs@.len(),
            forall|j: int| 0 <= j < i ==> !is_match(l@, definition_mark(), j),
        decreases cs@.len() - i,
    {
        if matches_at(&cs, &ms, i) {
            return true;
        }
        i = i + 1;
    }
    false
}

/// The indices of the lines that begin a rule.
fn rule_start_indices(lines: &[String]) -> (r: Vec<usize>)
    ensures
        r@.map_values(|u: usize| u as int) == rule_starts(texts(lines@)),
        forall|c: int| 0 <= c < r@.len() ==> r@[c] < lines@.len(),
        forall|c: int, d: int| 0 <= c < d < r@.len() ==> r@[c] < r@[d],
{
    let ghost lv = texts(lines@);
    let mut r: Vec<usize> = Vec::new();
    let mut i: usize = 0;
    proof {
        assert(lv.take(0) =~= Seq::<Seq<char>>::empty());
        assert(r@.map_values(|u: usize| u as int) =~= rule_starts(lv.take(0)));
    }
    while i < lines.len()
        invariant
            0 <= i <= lines@.len(),
            lv == texts(lines@),
            r@.map_values(|u: usize| u as int) == rule_starts(lv.take(i as int)),
            forall|c: int| 0 <= c < r@.len() ==> r@[c] < i,
            forall|c: int, d: int| 0 <= c < d < r@.len() ==> r@[c] < r@[d],
        decreases lines@.len() - i,
    {
        proof {
            assert(lv.take(i as int + 1).drop_last() =~= lv.take(i as int));
            assert(lv.take(i as int + 1).last() == lines@[i as int]@);
        }
        if holds_definition(lines[i].as_str()) {
            let ghost before = r@;
            r.push(i);
            proof {
                assert(r@.map_values(|u: usize| u as int) =~= before.map_values(|u: usize| u as int).push(
                    i as int,
                ));
            }
        }
        i = i + 1;
    }
    proof {
        assert(lv.take(lines@.len() as int) =~= lv);
    }
    r
}

/// The lines `from` up to `to` joined by single spaces.
fn join_range(lines: &[String], from: usize, to: usize) -> (r: String)
    requires
        from <= to <= lines@.len(),
    ensures
        r@ == join_with_spaces(texts(lines@).subrange(from as int, to as int)),
{
    let space: &str = " ";
    proof {
        reveal_strlit(" ");
        assert(space@ =~= seq![' ']);
    }
    let ghost lv = texts(lines@);
    let mut r = String::new();
    let mut i: usize = from;
    proof {
        assert(lv.subrange(from as int, from as int) =~= Seq::<Seq<char>>::empty());
    }
    while i < to
        invariant
            from <= i <= to <= lines@.len(),
            lv == texts(lines@),
            space@ == seq![' '],
            r@ == join_with_spaces(lv.subrange(from as int, i as int)),
        decreases to - i,
    {
        let l: &String = &lines[i];
        proof {
            assert(lv.subrange(from as int, i as int + 1).drop_last() =~= lv.subrange(from as int, i as int));
            assert(lv.subrange(from as int, i as int + 1).last() == l@);
        }
        if i > from {
            r.append(space);
        }
        r.append(l.as_str());
        proof {
            if i == from {
                assert(r@ =~= join_with_spaces(lv.subrange(from as int, i as int + 1)));
            } else {
                assert(r@ =~= join_with_spaces(lv.subrange(from as int, i as int + 1)));
            }
        }
        i = i + 1;
    }
    r
}

/// One logical line per rule: each line that holds `::=`, joined by spaces with the lines
/// after it up to the next such line. Lines before the first such line belong to no rule.
/// Every input is accepted: where no line holds `::=` the result is deliberately empty,
/// a grammar without rules, which callers can test for.
pub fn join_lines(lines: &[String]) -> (r: Vec<String>)
    ensures
        texts(r@) == joined_rules(texts(lines@)),
{
    let ghost lv = texts(lines@);
    let starts = rule_start_indices(lines);
    let ghost st = rule_starts(lv);
    let mut r: Vec<String> = Vec::new();
    let mut c: usize = 0;
    while c < starts.len()
        invariant
            0 <= c <= starts@.len(),
            lv == texts(lines@),
            st == rule_starts(lv),
            starts@.map_values(|u: usize| u as int) == st,
            forall|k: int| 0 <= k < starts@.len() ==> starts@[k] < lines@.len(),
            forall|k: int, d: int| 0 <= k < d < starts@.len() ==> starts@[k] < starts@[d],
            r@.len() == c,
            forall|k: int| 0 <= k < c ==> (#[trigger] texts(r@)[k]) == joined_rules(lv)[k],
        decreases starts@.len() - c,
    {
        let from = starts[c];
        let to = if c + 1 < starts.len() {
            starts[c + 1]
        } else {
            lines.len()
        };
        proof {
            assert(st[c as int] == from as int);
            if c + 1 < starts@.len() {
                assert(st[c + 1] == to as int);
            }
        }
        let line = join_range(lines, from, to);
        let ghost before = r@;
        r.push(line);
        proof {
            assert forall|k: int| 0 <= k < c + 1 implies (#[trigger] texts(r@)[k]) == joined_rules(lv)[k] by {
                if k < c {
                    assert(texts(r@)[k] == texts(before)[k]);
                }
            }
        }
        c = c + 1;
    }
    proof {
        assert(texts(r@) =~= joined_rules(lv));
    }
    r
}

} // verus!
