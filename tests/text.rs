use grammar_checker::{
    generate_parser, get_file_lines, join_lines, nonterminals, render_procedure, valid_string,
    Branch, GrammarError, Procedure, Production, Rule, Step, SymbolSet,
};

#[test]
fn rule_from_line() {
    let r = Rule::try_from("expr' ::= + term expr' | epsilon").unwrap();
    assert_eq!(r.non_terminal, "expr'");
    assert_eq!(r.derivations.len(), 2);
    assert_eq!(r.derivations[0].output, vec!["+", "term", "expr'"]);
    assert_eq!(r.derivations[1].output, vec!["epsilon"]);
}

#[test]
fn right_side_is_all_after_the_first_separator() {
    let r = Rule::try_from("a ::= b ::= c").unwrap();
    assert_eq!(r.non_terminal, "a");
    assert_eq!(r.derivations.len(), 1);
    assert_eq!(r.derivations[0].output, vec!["b", "::=", "c"]);
    let r = Rule::try_from("x ::= ::= y | z").unwrap();
    assert_eq!(r.non_terminal, "x");
    assert_eq!(r.derivations[0].output, vec!["::=", "y"]);
    assert_eq!(r.derivations[1].output, vec!["z"]);
}

#[test]
fn rule_errors() {
    assert_eq!(Rule::try_from("a b c").unwrap_err(), GrammarError::MissingSeparator);
    assert_eq!(Rule::try_from("a ::=b").unwrap_err(), GrammarError::MissingSeparator);
    assert_eq!(Rule::try_from("a ::= ").unwrap_err(), GrammarError::EmptyRightSide);
    assert_eq!(Rule::try_from("a ::= b |  | c").unwrap_err(), GrammarError::EmptyAlternative);

}

#[test]
fn production_from_text() {
    let p = Production::try_from("( expr )").unwrap();
    assert_eq!(p.output, vec!["(", "expr", ")"]);
    let p = Production::try_from("a  b").unwrap();
    assert_eq!(p.output, vec!["a", "", "b"]);
    assert_eq!(Production::try_from("").unwrap_err(), GrammarError::EmptyAlternative);
    let p = Production::new(vec!["x".to_string()]);
    assert_eq!(p.output, vec!["x"]);
    let r = Rule::new("s".to_string(), vec![p]);
    assert_eq!(r.non_terminal, "s");
    assert_eq!(r.derivations.len(), 1);
}

#[test]
fn comment_and_blank_lines() {
    assert!(valid_string("a ::= b"));
    assert!(valid_string("/ a"));
    assert!(!valid_string(""));
    assert!(!valid_string("// note"));
    assert!(!valid_string("# note"));
    assert!(!valid_string("; note"));
    assert!(valid_string("  # indented"));
}

#[test]
fn file_lines_are_cleaned() {
    let text = "a ::= \"x\"\n// comment\n# comment\n; comment\n\n  b ::= y\t \n  | z";
    let lines = get_file_lines(text.to_string());
    assert_eq!(lines, vec!["a ::= 'x'", "b ::= y", "| z"]);
}

#[test]
fn wrapped_lines_are_joined() {
    let lines: Vec<String> = vec!["stray", "a ::= x", "| y", "b ::= z", "| w", "| v"]
        .into_iter()
        .map(|x| x.to_string())
        .collect();
    assert_eq!(join_lines(&lines), vec!["a ::= x | y", "b ::= z | w | v"]);
    let none: Vec<String> = vec!["x".to_string()];
    assert!(join_lines(&none).is_empty());
}

#[test]
fn parser_skeleton() {
    let lines = get_file_lines("s ::= a t | b\nt ::= c | epsilon\n".to_string());
    let rules: Vec<Rule> = lines.iter().map(|x| Rule::try_from(&x[..]).unwrap()).collect();
    assert_eq!(nonterminals(&rules), vec!["s", "t"]);
    let procs = generate_parser(&rules);
    assert_eq!(procs.len(), 2);
    assert_eq!(procs[0].non_terminal, "s");
    assert_eq!(procs[0].branches.len(), 2);
    assert!(procs[0].branches[0].guard.contains("a"));
    assert_eq!(procs[0].branches[0].guard.len(), 1);
    match &procs[0].branches[0].steps[..] {
        [Step::MatchTerminal(x), Step::Call(y)] => {
            assert_eq!(x, "a");
            assert_eq!(y, "t");
        }
        other => panic!("unexpected steps {:?}", other),
    }
    assert_eq!(procs[1].non_terminal, "t");
    let g = &procs[1].branches[1].guard;
    assert!(g.contains("epsilon"));
    assert!(g.contains("$"));
    assert_eq!(g.len(), 2);
}

#[test]
fn parser_order_follows_first_appearance() {
    let lines = get_file_lines("s ::= u t\nt ::= x\nu ::= y\n".to_string());
    let rules: Vec<Rule> = lines.iter().map(|x| Rule::try_from(&x[..]).unwrap()).collect();
    let names: Vec<String> = generate_parser(&rules).into_iter().map(|p| p.non_terminal).collect();
    assert_eq!(names, vec!["s", "u", "t"]);
}

#[test]
fn blank_lines_are_dropped() {
    assert!(get_file_lines(" ".to_string()).is_empty());
    let lines = get_file_lines("a ::= b\n   \n\t\n| c\n".to_string());
    assert_eq!(lines, vec!["a ::= b", "| c"]);
    assert_eq!(join_lines(&lines), vec!["a ::= b | c"]);
}

#[test]
fn procedure_text() {
    let mut g1 = SymbolSet::new();
    g1.insert("a");
    let mut g2 = SymbolSet::new();
    g2.insert("epsilon");
    g2.insert("$");
    let p = Procedure {
        non_terminal: "s".to_string(),
        branches: vec![
            Branch {
                guard: g1,
                steps: vec![Step::MatchTerminal("a".to_string()), Step::Call("t".to_string())],
            },
            Branch { guard: g2, steps: vec![Step::MatchTerminal("epsilon".to_string())] },
        ],
    };
    let expected = "void parse_s() {\n\
std::cout << \"Calling parse_s\" << std::endl;\
\tif (match(a)) {\n\
match_terminal(a);\n\t\tparse_t();\nstd::cout << \"Returned to parse_s\" << std::endl;\n\t}\n\
\telse if (match(epsilon | $)) {\n\
match_terminal(epsilon);\n\t}\n\
else { std::cout << \"Error in parse_s\" << std::endl;\nexit(1); }}\n";
    assert_eq!(render_procedure(&p), expected);
}
