use regex_engine::ast::RegexAst;
use regex_engine::asttonfa::from_ast;
use regex_engine::matcher::Match;
use regex_engine::nfa::Transition;
use regex_engine::parser::{parse, ParseError};

#[test]
fn escape_parses_as_literal_star() {
    // `a/*` is a literal `a` followed by a literal `*`, not a quantified `a`.
    let ast = parse("a/*").unwrap();
    assert_eq!(
        ast,
        RegexAst::Concat(
            Box::new(RegexAst::Literal('a')),
            Box::new(RegexAst::Literal('*')),
        )
    );
}

#[test]
fn stacked_quantifiers_wrap_in_scan_order() {
    // `a*+` stacks: the star wraps first, then the plus wraps the star.
    let ast = parse("a*+").unwrap();
    assert_eq!(
        ast,
        RegexAst::Plus(Box::new(RegexAst::KleeneStar(Box::new(RegexAst::Literal(
            'a'
        )))))
    );
}

#[test]
fn empty_pattern_is_unexpected_end() {
    let err = parse("").unwrap_err();
    assert!(matches!(err, ParseError::UnexpectedEnd));
}

#[test]
fn unterminated_escape_is_unexpected_end() {
    let err = parse("a/").unwrap_err();
    assert!(matches!(err, ParseError::UnexpectedEnd));
}

#[test]
fn concat_state_count_is_exactly_four() {
    // Two literal fragments of two states each, joined by one epsilon
    // transition and nothing else.
    let ast = parse("ab").unwrap();
    let nfa = from_ast(&ast);
    assert_eq!(nfa.states.len(), 4);
    let epsilon_count = nfa
        .states
        .iter()
        .flat_map(|s| &s.transitions)
        .filter(|t| matches!(t, Transition::Epsilon(_)))
        .count();
    assert_eq!(epsilon_count, 1);
}

#[test]
fn alternate_state_and_epsilon_floor() {
    let ast = parse("a|b").unwrap();
    let nfa = from_ast(&ast);
    assert!(nfa.states.len() >= 6);
    let epsilon_count = nfa
        .states
        .iter()
        .flat_map(|s| &s.transitions)
        .filter(|t| matches!(t, Transition::Epsilon(_)))
        .count();
    assert!(epsilon_count >= 4);
}

#[test]
fn compile_twice_is_deterministic() {
    // Parsing and compiling the same pattern twice yields automatons of
    // identical shape and identical match results on a fixed text.
    let ast1 = parse("(ab)+").unwrap();
    let ast2 = parse("(ab)+").unwrap();
    assert_eq!(ast1, ast2);
    let nfa1 = from_ast(&ast1);
    let nfa2 = from_ast(&ast2);
    assert_eq!(nfa1.states.len(), nfa2.states.len());
    assert_eq!(nfa1.start, nfa2.start);
    assert_eq!(nfa1.accept, nfa2.accept);
    for (s1, s2) in nfa1.states.iter().zip(nfa2.states.iter()) {
        assert_eq!(s1.transitions.len(), s2.transitions.len());
    }
    assert_eq!(nfa1.find("ab abab"), nfa2.find("ab abab"));
    assert_eq!(nfa1.find_all("ab abab"), nfa2.find_all("ab abab"));
}

#[test]
fn dot_matches_any_single_character() {
    let ast = parse(".").unwrap();
    let nfa = from_ast(&ast);
    assert_eq!(nfa.find("z"), Some(Match { start: 0, end: 1 }));
}

#[test]
fn find_reports_leftmost_start() {
    let ast = parse("b").unwrap();
    let nfa = from_ast(&ast);
    assert_eq!(nfa.find("ab"), Some(Match { start: 1, end: 2 }));
}

#[test]
fn find_reports_no_match() {
    let ast = parse("ab").unwrap();
    let nfa = from_ast(&ast);
    assert_eq!(nfa.find("zz"), None);
}

#[test]
fn zero_length_matches_report_everywhere() {
    // A pattern that can match empty matches at every position of a text
    // it never consumes, and the cursor still terminates.
    let ast = parse("(ab)?").unwrap();
    let nfa = from_ast(&ast);
    assert_eq!(
        nfa.find_all("x"),
        vec![Match { start: 0, end: 0 }, Match { start: 1, end: 1 }]
    );
}

#[test]
fn empty_text_zero_length_match() {
    let ast = parse("a*").unwrap();
    let nfa = from_ast(&ast);
    assert_eq!(nfa.find(""), Some(Match { start: 0, end: 0 }));
}

#[test]
fn alternation_matches_either_branch() {
    let ast = parse("a|b").unwrap();
    let nfa = from_ast(&ast);
    assert_eq!(nfa.find("b"), Some(Match { start: 0, end: 1 }));
    assert_eq!(nfa.find("a"), Some(Match { start: 0, end: 1 }));
}

#[test]
fn plus_needs_at_least_one_repetition() {
    let ast = parse("(ab)+").unwrap();
    let nfa = from_ast(&ast);
    assert_eq!(nfa.find("zz"), None);
    assert_eq!(nfa.find("abab"), Some(Match { start: 0, end: 4 }));
}
