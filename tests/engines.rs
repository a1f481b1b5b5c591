use std::collections::HashSet;

use grammar_checker::{
    check_first_plus, disjoint, find_rule, first, first_plus, follow, get_file_lines,
    is_terminal_symbol, Rule, SymbolSet,
};

const EXPRESSION_GRAMMAR: &str = "// classic expression grammar
goal ::= expr
expr ::= term expr'
expr' ::= + term expr' | - term expr' | epsilon
term ::= factor term'
term' ::= * factor term' | / factor term' | epsilon
factor ::= ( expr ) | num | name
";

fn rules_of(text: &str) -> Vec<Rule> {
    let lines = get_file_lines(text.to_string());
    lines
        .iter()
        .map(|x| Rule::try_from(&x[..]).unwrap())
        .collect()
}

fn members(s: &SymbolSet) -> HashSet<String> {
    s.items().into_iter().collect()
}

fn set_of(v: &[&str]) -> HashSet<String> {
    v.iter().map(|x| x.to_string()).collect()
}

#[test]
fn first_set_test() {
    let rules = rules_of(EXPRESSION_GRAMMAR);

    let mut expected: HashSet<&str> = HashSet::new();

    for s in &vec!["(", "num", "name"] {
        expected.insert(s);
    }

    let expected_owned: HashSet<String> = expected.iter().map(|x| x.to_string()).collect();
    assert_eq!(members(&first("expr", &rules)), expected_owned);
    assert_eq!(members(&first("term", &rules)), expected_owned);
    assert_eq!(members(&first("factor", &rules)), expected_owned);

    expected.clear();

    for s in &vec!["epsilon", "+", "-"] {
        expected.insert(s);
    }

    let expected_owned: HashSet<String> = expected.iter().map(|x| x.to_string()).collect();
    assert_eq!(members(&first("expr'", &rules)), expected_owned);

    expected.clear();

    for s in &vec!["epsilon", "*", "/"] {
        expected.insert(s);
    }

    let expected_owned: HashSet<String> = expected.iter().map(|x| x.to_string()).collect();
    assert_eq!(members(&first("term'", &rules)), expected_owned);
}

#[test]
fn follow_set_test() {
    let rules = rules_of(EXPRESSION_GRAMMAR);

    let mut expected: HashSet<&str> = HashSet::new();
    let mut stack: Vec<String> = Vec::new();

    for s in &vec!["$", ")"] {
        expected.insert(s);
    }

    let owned = |e: &HashSet<&str>| -> HashSet<String> { e.iter().map(|x| x.to_string()).collect() };

    assert_eq!(members(&follow("expr", &mut stack, &rules)), owned(&expected));
    stack.clear();
    assert_eq!(members(&follow("expr'", &mut stack, &rules)), owned(&expected));
    stack.clear();

    expected.clear();

    for s in &vec!["$", "+", "-", ")"] {
        expected.insert(s);
    }

    assert_eq!(members(&follow("term", &mut stack, &rules)), owned(&expected));
    stack.clear();
    assert_eq!(members(&follow("term'", &mut stack, &rules)), owned(&expected));
    stack.clear();

    expected.clear();

    for s in &vec!["$", "+", "-", ")", "*", "/"] {
        expected.insert(s);
    }

    assert_eq!(members(&follow("factor", &mut stack, &rules)), owned(&expected));
    stack.clear();
}

#[test]
fn first_of_a_terminal_is_itself() {
    let rules = rules_of(EXPRESSION_GRAMMAR);
    assert_eq!(members(&first("+", &rules)), set_of(&["+"]));
    assert_eq!(members(&first("epsilon", &rules)), set_of(&["epsilon"]));
    assert_eq!(members(&first("undefined", &rules)), set_of(&["undefined"]));
}

#[test]
fn first_holds_leading_terminals() {
    let rules = rules_of(EXPRESSION_GRAMMAR);
    let f = members(&first("factor", &rules));
    assert!(f.contains("("));
    assert!(f.contains("num"));
    assert!(f.contains("name"));
    let e = members(&first("expr'", &rules));
    assert!(e.contains("+"));
    assert!(e.contains("-"));
}

#[test]
fn follow_of_start_symbol_holds_end_marker() {
    let rules = rules_of(EXPRESSION_GRAMMAR);
    let mut stack: Vec<String> = Vec::new();
    assert_eq!(members(&follow("goal", &mut stack, &rules)), set_of(&["$"]));
}

#[test]
fn follow_never_holds_epsilon() {
    let rules = rules_of(EXPRESSION_GRAMMAR);
    for s in ["goal", "expr", "expr'", "term", "term'", "factor", "+", "num", ")", "epsilon"] {
        let mut stack: Vec<String> = Vec::new();
        assert!(!follow(s, &mut stack, &rules).contains("epsilon"));
    }
}

#[test]
fn follow_of_terminals() {
    let rules = rules_of(EXPRESSION_GRAMMAR);
    let mut stack: Vec<String> = Vec::new();
    assert_eq!(members(&follow("(", &mut stack, &rules)), set_of(&["(", "num", "name"]));
    assert_eq!(members(&follow("num", &mut stack, &rules)), set_of(&["$", "+", "-", ")", "*", "/"]));
    assert_eq!(members(&follow("undefined", &mut stack, &rules)), set_of(&["$"]));
}

#[test]
fn follow_with_symbol_on_stack_is_empty() {
    let rules = rules_of(EXPRESSION_GRAMMAR);
    let mut stack: Vec<String> = vec!["term".to_string()];
    assert_eq!(follow("term", &mut stack, &rules).len(), 0);
    assert_eq!(stack, vec!["term".to_string()]);
    // With `expr` taken as being computed, `term` keeps only what it has by itself.
    let mut stack: Vec<String> = vec!["expr".to_string()];
    assert_eq!(members(&follow("term", &mut stack, &rules)), set_of(&["+", "-"]));
}

#[test]
fn selection_sets_follow_production_order() {
    let rules = rules_of(EXPRESSION_GRAMMAR);
    let sets = first_plus("expr'", &rules);
    assert_eq!(sets.len(), 3);
    assert_eq!(members(&sets[0]), set_of(&["+"]));
    assert_eq!(members(&sets[1]), set_of(&["-"]));
    assert_eq!(members(&sets[2]), set_of(&["epsilon", "$", ")"]));

    let sets = first_plus("factor", &rules);
    assert_eq!(sets.len(), 3);
    assert_eq!(members(&sets[0]), set_of(&["("]));
    assert_eq!(members(&sets[1]), set_of(&["num"]));
    assert_eq!(members(&sets[2]), set_of(&["name"]));

    let sets = first_plus("term'", &rules);
    assert_eq!(members(&sets[2]), set_of(&["epsilon", "$", "+", "-", ")"]));
}

#[test]
fn selection_sets_of_a_terminal_are_empty() {
    let rules = rules_of(EXPRESSION_GRAMMAR);
    assert!(first_plus("num", &rules).is_empty());
}

fn symbol_set(v: &[&str]) -> SymbolSet {
    let mut s = SymbolSet::new();
    for x in v {
        s.insert(x);
    }
    s
}

#[test]
fn disjoint_examples() {
    assert!(disjoint(&[]));
    assert!(disjoint(&[symbol_set(&["a"])]));
    assert!(!disjoint(&[symbol_set(&["a"]), symbol_set(&["a"])]));
    assert!(disjoint(&[symbol_set(&["a"]), symbol_set(&["b"])]));
    assert!(!disjoint(&[symbol_set(&["a", "b"]), symbol_set(&["c"]), symbol_set(&["d", "b"])]));
    assert!(disjoint(&[symbol_set(&["a", "b"]), symbol_set(&[]), symbol_set(&["c", "d"])]));
}

#[test]
fn repeated_queries_agree() {
    let rules = rules_of(EXPRESSION_GRAMMAR);
    assert_eq!(members(&first("term", &rules)), members(&first("term", &rules)));
    let mut stack: Vec<String> = Vec::new();
    let a = members(&follow("factor", &mut stack, &rules));
    assert!(stack.is_empty());
    let b = members(&follow("factor", &mut stack, &rules));
    assert_eq!(a, b);
    let x: Vec<HashSet<String>> = first_plus("term'", &rules).iter().map(members).collect();
    let y: Vec<HashSet<String>> = first_plus("term'", &rules).iter().map(members).collect();
    assert_eq!(x, y);
}

#[test]
fn expression_grammar_is_ll1() {
    let rules = rules_of(EXPRESSION_GRAMMAR);
    let reports = check_first_plus(&rules);
    assert_eq!(reports.len(), 6);
    let names: Vec<&str> = reports.iter().map(|r| r.non_terminal.as_str()).collect();
    assert_eq!(names, vec!["goal", "expr", "expr'", "term", "term'", "factor"]);
    for r in &reports {
        assert!(r.disjoint);
    }
    assert_eq!(reports[2].sets.len(), 3);
}

#[test]
fn common_prefix_is_not_ll1() {
    let rules = rules_of("s ::= a b | a c\n");
    let reports = check_first_plus(&rules);
    assert_eq!(reports.len(), 1);
    assert!(!reports[0].disjoint);
}

#[test]
fn mutual_cycle_terminates() {
    let rules = rules_of("A ::= B\nB ::= A\n");
    let mut stack: Vec<String> = Vec::new();
    let f = follow("A", &mut stack, &rules);
    assert_eq!(f.len(), 0);
    assert!(stack.is_empty());
    assert_eq!(first("A", &rules).len(), 0);
}

#[test]
fn classifier_and_lookup() {
    let rules = rules_of(EXPRESSION_GRAMMAR);
    assert!(is_terminal_symbol("num", &rules));
    assert!(is_terminal_symbol("epsilon", &rules));
    assert!(!is_terminal_symbol("term'", &rules));
    assert_eq!(find_rule("goal", &rules), Some(0));
    assert_eq!(find_rule("factor", &rules), Some(5));
    assert_eq!(find_rule("$", &rules), None);
}

#[test]
fn duplicate_rules_use_the_first() {
    let rules = rules_of("a ::= x\na ::= y\n");
    assert_eq!(find_rule("a", &rules), Some(0));
    assert_eq!(members(&first("a", &rules)), set_of(&["x"]));
}

#[test]
fn symbol_set_basics() {
    let mut s = SymbolSet::new();
    assert_eq!(s.len(), 0);
    assert!(s.insert("a"));
    assert!(!s.insert("a"));
    assert!(s.insert("b"));
    assert_eq!(s.len(), 2);
    assert!(s.contains("a"));
    assert!(!s.contains("c"));
    assert_eq!(s.items(), vec!["a".to_string(), "b".to_string()]);
    let mut u = SymbolSet::new();
    u.insert("z");
    u.insert("y");
    u.insert("z");
    u.insert("x");
    assert_eq!(u.items(), vec!["z", "y", "x"]);
    let mut t = symbol_set(&["b", "c", "epsilon"]);
    t.extend_except(&s, "a");
    assert_eq!(members(&t), set_of(&["b", "c", "epsilon"]));
    t.extend(&s);
    assert_eq!(members(&t), set_of(&["a", "b", "c", "epsilon"]));
}

#[test]
fn five_rule_grammar_without_goal() {
    let rules = rules_of(
        "expr ::= term expr'
expr' ::= + term expr' | - term expr' | epsilon
term ::= factor term'
term' ::= * factor term' | / factor term' | epsilon
factor ::= ( expr ) | num | name
",
    );
    assert_eq!(members(&first("expr", &rules)), set_of(&["(", "num", "name"]));
    assert_eq!(members(&first("term", &rules)), set_of(&["(", "num", "name"]));
    assert_eq!(members(&first("factor", &rules)), set_of(&["(", "num", "name"]));
    assert_eq!(members(&first("expr'", &rules)), set_of(&["epsilon", "+", "-"]));
    // `expr` stands inside `( expr )`, so none of these rules is a start symbol and the
    // end marker enters no FOLLOW set.
    let mut stack: Vec<String> = Vec::new();
    assert_eq!(members(&follow("expr", &mut stack, &rules)), set_of(&[")"]));
    assert_eq!(members(&follow("factor", &mut stack, &rules)), set_of(&["+", "-", ")", "*", "/"]));
    for r in check_first_plus(&rules) {
        assert!(r.disjoint);
    }
}
