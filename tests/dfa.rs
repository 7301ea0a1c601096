use automata::alphabet::EOF;
use automata::closure::eps_matrix;
use automata::closure::nfa_matrix;
use automata::codegen::gen_parser_steps_code;
use automata::dfa::Dfa;
use automata::matrix::Matrix;
use automata::matrix::INVALID;
use automata::nfa::Nfa;
use automata::scanner::Parser;

// === Building automata from patterns ===

#[derive(Clone, Debug)]
enum Pattern {
    Range(u32, u32),
    Many(Box<Pattern>),
    Sequence(Vec<Pattern>),
    Or(Vec<Pattern>),
    Always,
    Never,
}

fn char_pattern(c: char) -> Pattern {
    Pattern::Range(c as u32, c as u32)
}

fn many1(p: Pattern) -> Pattern {
    Pattern::Sequence(vec![p.clone(), Pattern::Many(Box::new(p))])
}

fn new_pattern(nfa: &mut Nfa, source: usize, pattern: &Pattern) -> usize {
    let current = nfa.new_state();
    nfa.connect_eps(source, current);
    match pattern {
        Pattern::Range(start, end) => {
            let state = nfa.new_state();
            nfa.connect(current, state, *start, *end);
            state
        }
        Pattern::Many(body) => {
            let s1 = nfa.new_state();
            let s2 = new_pattern(nfa, s1, body);
            let s3 = nfa.new_state();
            nfa.connect_eps(current, s1);
            nfa.connect_eps(current, s3);
            nfa.connect_eps(s2, s3);
            nfa.connect_eps(s3, s1);
            s3
        }
        Pattern::Sequence(patterns) => {
            let mut state = current;
            for p in patterns {
                state = new_pattern(nfa, state, p);
            }
            state
        }
        Pattern::Or(patterns) => {
            let ends: Vec<usize> = patterns.iter().map(|p| new_pattern(nfa, current, p)).collect();
            let end = nfa.new_state();
            for state in ends {
                nfa.connect_eps(state, end);
            }
            end
        }
        Pattern::Always => current,
        Pattern::Never => nfa.new_state(),
    }
}

/// Adds `pattern` as a rule from the start state; its last state completes the rule.
fn new_rule(nfa: &mut Nfa, pattern: &Pattern) -> usize {
    let start = nfa.start;
    let end = new_pattern(nfa, start, pattern);
    nfa.set_export(end, true);
    end
}

fn single_pattern(pattern: Pattern) -> Nfa {
    let mut nfa = Nfa::new();
    new_rule(&mut nfa, &pattern);
    nfa
}

fn pattern_range() -> Nfa {
    single_pattern(Pattern::Range('a' as u32, 'z' as u32))
}

fn pattern_or() -> Nfa {
    single_pattern(Pattern::Or(vec![char_pattern('a'), char_pattern('d')]))
}

fn pattern_seq() -> Nfa {
    single_pattern(Pattern::Sequence(vec![char_pattern('a'), char_pattern('d')]))
}

fn pattern_many() -> Nfa {
    single_pattern(Pattern::Many(Box::new(char_pattern('a'))))
}

fn pattern_always() -> Nfa {
    single_pattern(Pattern::Always)
}

fn pattern_never() -> Nfa {
    single_pattern(Pattern::Never)
}

fn simple_rules() -> Nfa {
    let mut nfa = Nfa::new();
    new_rule(&mut nfa, &char_pattern('a'));
    new_rule(&mut nfa, &Pattern::Sequence(vec![char_pattern('a'), char_pattern('b')]));
    nfa
}

fn complex_rules() -> Nfa {
    let mut nfa = Nfa::new();
    let space = char_pattern(' ');
    let spaced_a_word = Pattern::Sequence(vec![space.clone(), many1(char_pattern('a'))]);
    let spaced_b_word = Pattern::Sequence(vec![space, many1(char_pattern('b'))]);
    new_rule(&mut nfa, &spaced_a_word);
    new_rule(&mut nfa, &spaced_b_word);
    new_rule(&mut nfa, &Pattern::Range(EOF, EOF));
    new_rule(&mut nfa, &Pattern::Range(0, EOF));
    nfa
}

/// The automaton of two named rules, with the state that completes each rule.
fn named_rules() -> (Nfa, Vec<(usize, String)>) {
    let mut nfa = Nfa::new();
    let rule_1 = new_rule(&mut nfa, &many1(char_pattern('a')));
    let rule_2 = new_rule(&mut nfa, &many1(char_pattern('b')));
    (nfa, vec![(rule_1, String::from("rule_1")), (rule_2, String::from("rule_2"))])
}

// === Utilities ===

fn invalid() -> usize {
    INVALID
}

fn assert_same_alphabet(dfa: &Dfa, nfa: &Nfa) {
    assert_eq!(dfa.alphabet, nfa.alphabet.seal());
}

fn assert_same_matrix(dfa: &Dfa, expected: &Matrix) {
    assert_eq!(dfa.links, *expected);
}

fn matrix(rows: Vec<Vec<usize>>) -> Matrix {
    Matrix::from_rows(rows).unwrap()
}

fn get_name<'a>(names: &'a [(usize, String)], dfa: &Dfa, state: usize) -> Option<&'a String> {
    let sources = &dfa.exported_sources[state];
    let mut result = None;
    for source in sources.iter() {
        let name = names.iter().find(|(id, _)| id == source).map(|(_, name)| name);
        if name.is_some() {
            result = name;
            break;
        }
    }
    result
}

// === The Tests ===

/// Input NFA:
///
///  ╭──EPS───╮╭───a────╮
///  ▼        │▼        │
/// s0 ──a──▶ s1 ──b──▶ s2
///  │                  ▲
///  ╰───c──▶ s3 ──c────┤
///            ╰──EPS───╯
#[test]
fn test1() {
    let x = INVALID;
    let mut nfa = Nfa::new();
    let s0 = nfa.start;
    let s1 = nfa.new_state();
    let s2 = nfa.new_state();
    let s3 = nfa.new_state();
    nfa.connect(s0, s1, 'a' as u32, 'a' as u32);
    nfa.connect(s0, s3, 'c' as u32, 'c' as u32);
    nfa.connect_eps(s1, s0);
    nfa.connect(s1, s2, 'b' as u32, 'b' as u32);
    nfa.connect(s2, s1, 'a' as u32, 'a' as u32);
    nfa.connect(s3, s2, 'c' as u32, 'c' as u32);
    nfa.connect_eps(s3, s2);

    let m1 = nfa_matrix(&nfa);
    let m1_expected = matrix(vec![
        vec![x, 1, x, 3, x],
        vec![x, x, 2, x, x],
        vec![x, 1, x, x, x],
        vec![x, x, x, 2, x],
    ]);
    assert_eq!(m1, m1_expected);

    let m2 = eps_matrix(&nfa);
    assert_eq!(m2, vec![vec![0], vec![0, 1], vec![2], vec![2, 3]]);

    let dfa = Dfa::from_nfa(&nfa);
    println!("{}", dfa.as_graphviz_code());
    println!("{}", gen_parser_steps_code(&dfa));
}

#[test]
fn sample_automaton_routines() {
    let x = INVALID;
    let mut nfa = Nfa::new();
    let s0 = nfa.start;
    let s1 = nfa.new_state();
    let s2 = nfa.new_state();
    let s3 = nfa.new_state();
    nfa.connect(s0, s1, 'a' as u32, 'a' as u32);
    nfa.connect(s0, s3, 'c' as u32, 'c' as u32);
    nfa.connect_eps(s1, s0);
    nfa.connect(s1, s2, 'b' as u32, 'b' as u32);
    nfa.connect(s2, s1, 'a' as u32, 'a' as u32);
    nfa.connect(s3, s2, 'c' as u32, 'c' as u32);
    nfa.connect_eps(s3, s2);
    let dfa = Dfa::from_nfa(&nfa);
    let expected = matrix(vec![
        vec![x, 1, x, 2, x],
        vec![x, 1, 3, 2, x],
        vec![x, 1, x, 3, x],
        vec![x, 1, x, x, x],
    ]);
    assert_same_matrix(&dfa, &expected);
    assert_eq!(dfa.sources, vec![vec![0], vec![0, 1], vec![2, 3], vec![2]]);
    let code = gen_parser_steps_code(&dfa);
    let state3 = "\
fn step_state3(parser: &mut Parser) {
    if parser.current_input >= 0 && parser.current_input <= 96 {
        // invalid
    } else if parser.current_input >= 97 && parser.current_input <= 97 {
        parser.dfa_state = 1;
        parser.next_input_char();
    } else if parser.current_input >= 98 && parser.current_input <= 98 {
        // invalid
    } else if parser.current_input >= 99 && parser.current_input <= 99 {
        // invalid
    } else if parser.current_input >= 100 && parser.current_input <= 4294967295 {
        // invalid
    }
}
";
    assert!(code.contains(state3));
    assert!(code.ends_with("    step_state0,\n    step_state1,\n    step_state2,\n    step_state3,\n];\n"));
}

#[test]
fn dfa_pattern_range() {
    let nfa = pattern_range();
    let dfa = Dfa::from_nfa(&nfa);
    assert_same_alphabet(&dfa, &nfa);
    let expected = matrix(vec![vec![invalid(), 1, invalid()], vec![invalid(), invalid(), invalid()]]);
    assert_same_matrix(&dfa, &expected);
}

#[test]
fn dfa_pattern_or() {
    let nfa = pattern_or();
    let dfa = Dfa::from_nfa(&nfa);
    assert_same_alphabet(&dfa, &nfa);
    let expected = matrix(vec![
        vec![invalid(), 1, invalid(), 2, invalid()],
        vec![invalid(), invalid(), invalid(), invalid(), invalid()],
        vec![invalid(), invalid(), invalid(), invalid(), invalid()],
    ]);
    assert_same_matrix(&dfa, &expected);
}

#[test]
fn dfa_pattern_seq() {
    let nfa = pattern_seq();
    let dfa = Dfa::from_nfa(&nfa);
    assert_same_alphabet(&dfa, &nfa);
    let expected = matrix(vec![
        vec![invalid(), 1, invalid(), invalid(), invalid()],
        vec![invalid(), invalid(), invalid(), 2, invalid()],
        vec![invalid(), invalid(), invalid(), invalid(), invalid()],
    ]);
    assert_same_matrix(&dfa, &expected);
}

#[test]
fn dfa_pattern_many() {
    let nfa = pattern_many();
    let dfa = Dfa::from_nfa(&nfa);
    assert_same_alphabet(&dfa, &nfa);
    let expected = matrix(vec![vec![invalid(), 1, invalid()], vec![invalid(), 1, invalid()]]);
    assert_same_matrix(&dfa, &expected);
}

#[test]
fn dfa_pattern_always() {
    let nfa = pattern_always();
    let dfa = Dfa::from_nfa(&nfa);
    assert_same_alphabet(&dfa, &nfa);
    let expected = matrix(vec![vec![invalid()]]);
    assert_same_matrix(&dfa, &expected);
}

#[test]
fn dfa_pattern_never() {
    let nfa = pattern_never();
    let dfa = Dfa::from_nfa(&nfa);
    assert_same_alphabet(&dfa, &nfa);
    let expected = matrix(vec![vec![invalid()]]);
    assert_same_matrix(&dfa, &expected);
}

#[test]
fn dfa_simple_rules() {
    let nfa = simple_rules();
    let dfa = Dfa::from_nfa(&nfa);
    assert_same_alphabet(&dfa, &nfa);
    let expected = matrix(vec![
        vec![invalid(), 1, invalid(), invalid()],
        vec![invalid(), invalid(), 2, invalid()],
        vec![invalid(), invalid(), invalid(), invalid()],
    ]);
    assert_same_matrix(&dfa, &expected);
}

#[test]
fn dfa_complex_rules() {
    let nfa = complex_rules();
    let dfa = Dfa::from_nfa(&nfa);
    assert_same_alphabet(&dfa, &nfa);
    let expected = matrix(vec![
        vec![1, 2, 1, 1, 1, 1, 3],
        vec![invalid(), invalid(), invalid(), invalid(), invalid(), invalid(), invalid()],
        vec![invalid(), invalid(), invalid(), 4, 5, invalid(), invalid()],
        vec![invalid(), invalid(), invalid(), invalid(), invalid(), invalid(), invalid()],
        vec![invalid(), invalid(), invalid(), 6, invalid(), invalid(), invalid()],
        vec![invalid(), invalid(), invalid(), invalid(), 7, invalid(), invalid()],
        vec![invalid(), invalid(), invalid(), 6, invalid(), invalid(), invalid()],
        vec![invalid(), invalid(), invalid(), invalid(), 7, invalid(), invalid()],
    ]);
    assert_same_matrix(&dfa, &expected);
}

#[test]
fn dfa_named_rules() {
    let (nfa, names) = named_rules();
    let dfa = Dfa::from_nfa(&nfa);
    assert_same_alphabet(&dfa, &nfa);
    assert_eq!(dfa.exported_sources.len(), 5);
    assert_eq!(get_name(&names, &dfa, 0), None);
    assert_eq!(get_name(&names, &dfa, 1), Some(&String::from("rule_1")));
    assert_eq!(get_name(&names, &dfa, 2), Some(&String::from("rule_2")));
    assert_eq!(get_name(&names, &dfa, 3), Some(&String::from("rule_1")));
    assert_eq!(get_name(&names, &dfa, 4), Some(&String::from("rule_2")));
}

// === Further cases ===

#[test]
fn sources_hold_exported_sources() {
    let nfa = complex_rules();
    let dfa = Dfa::from_nfa(&nfa);
    assert_eq!(dfa.sources.len(), dfa.links.rows());
    for (sources, exported) in dfa.sources.iter().zip(dfa.exported_sources.iter()) {
        for q in exported {
            assert!(sources.contains(q));
            assert!(nfa.states[*q].export);
        }
        for q in sources {
            assert_eq!(exported.contains(q), nfa.states[*q].export);
        }
        assert!(sources.windows(2).all(|w| w[0] < w[1]));
    }
    assert_eq!(dfa.sources[0], eps_matrix(&nfa)[nfa.start]);
}

#[test]
fn determinization_is_repeatable() {
    let nfa = complex_rules();
    let first = Dfa::from_nfa(&nfa);
    let second = Dfa::from_nfa(&nfa);
    assert_eq!(first.links, second.links);
    assert_eq!(first.sources, second.sources);
}

#[test]
fn many_merges_states_into_a_self_loop() {
    let nfa = pattern_many();
    let dfa = Dfa::from_nfa(&nfa);
    assert_eq!(dfa.links.rows(), 2);
    assert_eq!(dfa.next_state(1, 'a' as u32), 1);
    assert_eq!(dfa.next_state(0, 'a' as u32), 1);
    assert_eq!(dfa.next_state(0, 'b' as u32), INVALID);
}

#[test]
fn next_state_outside_the_table_is_invalid() {
    let dfa = Dfa::from_nfa(&pattern_seq());
    assert_eq!(dfa.next_state(7, 'a' as u32), INVALID);
    assert_eq!(dfa.next_state(INVALID, 'a' as u32), INVALID);
    assert_eq!(dfa.next_state(1, 'd' as u32), 2);
    assert_eq!(dfa.next_state(0, EOF), INVALID);
}

#[test]
fn epsilon_cycle_closures_hold_their_roots() {
    let mut nfa = Nfa::new();
    let a = nfa.new_state();
    let b = nfa.new_state();
    nfa.connect_eps(0, a);
    nfa.connect_eps(a, b);
    nfa.connect_eps(b, 0);
    nfa.connect_eps(b, b);
    let closures = eps_matrix(&nfa);
    assert_eq!(closures, vec![vec![0, 1, 2], vec![0, 1, 2], vec![0, 1, 2]]);
    let lone = nfa.new_state();
    assert_eq!(eps_matrix(&nfa)[lone], vec![lone]);
    let done = nfa.new_state_exported();
    assert!(nfa.states[done].export);
    assert!(!nfa.states[lone].export);
    nfa.set_export(done, false);
    assert!(!nfa.states[done].export);
}

fn run_matrix(dfa: &Dfa, input: &str) -> (usize, usize) {
    let mut parser = Parser::new(input);
    while parser.position < parser.input.len() && parser.step(dfa) {}
    (parser.dfa_state, parser.position)
}

fn run_branches(dfa: &Dfa, input: &str) -> (usize, usize) {
    let mut parser = Parser::new(input);
    while parser.position < parser.input.len() && parser.step_branches(dfa) {}
    (parser.dfa_state, parser.position)
}

#[test]
fn generated_steps_match_matrix_steps() {
    let dfa = Dfa::from_nfa(&complex_rules());
    for input in ["", " aaab", " bbb", "x", "  a", " ab", "zzz", " a"] {
        assert_eq!(run_branches(&dfa, input), run_matrix(&dfa, input), "input {:?}", input);
    }
    assert_eq!(run_matrix(&dfa, " aaab"), (6, 4));
    assert_eq!(run_matrix(&dfa, " bbb"), (7, 4));
    assert_eq!(run_matrix(&dfa, "x"), (1, 1));
}

#[test]
fn parser_loads_eof_after_the_input() {
    let mut parser = Parser::new("ab");
    assert_eq!(parser.current_input, 'a' as u32);
    assert_eq!(parser.dfa_state, 0);
    parser.next_input_char();
    assert_eq!(parser.current_input, 'b' as u32);
    parser.next_input_char();
    assert_eq!(parser.current_input, EOF);
    parser.next_input_char();
    assert_eq!(parser.current_input, EOF);
    assert_eq!(parser.position, 2);
    assert_eq!(Parser::new("").current_input, EOF);
}

#[test]
fn steps_code_of_a_sequence() {
    let dfa = Dfa::from_nfa(&pattern_seq());
    let code = gen_parser_steps_code(&dfa);
    let expected = "\
fn step_state0(parser: &mut Parser) {
    if parser.current_input >= 0 && parser.current_input <= 96 {
        // invalid
    } else if parser.current_input >= 97 && parser.current_input <= 97 {
        parser.dfa_state = 1;
        parser.next_input_char();
    } else if parser.current_input >= 98 && parser.current_input <= 99 {
        // invalid
    } else if parser.current_input >= 100 && parser.current_input <= 100 {
        // invalid
    } else if parser.current_input >= 101 && parser.current_input <= 4294967295 {
        // invalid
    }
}

fn step_state1(parser: &mut Parser) {
    if parser.current_input >= 0 && parser.current_input <= 96 {
        // invalid
    } else if parser.current_input >= 97 && parser.current_input <= 97 {
        // invalid
    } else if parser.current_input >= 98 && parser.current_input <= 99 {
        // invalid
    } else if parser.current_input >= 100 && parser.current_input <= 100 {
        parser.dfa_state = 2;
        parser.next_input_char();
    } else if parser.current_input >= 101 && parser.current_input <= 4294967295 {
        // invalid
    }
}

fn step_state2(parser: &mut Parser) {
    if parser.current_input >= 0 && parser.current_input <= 96 {
        // invalid
    } else if parser.current_input >= 97 && parser.current_input <= 97 {
        // invalid
    } else if parser.current_input >= 98 && parser.current_input <= 99 {
        // invalid
    } else if parser.current_input >= 100 && parser.current_input <= 100 {
        // invalid
    } else if parser.current_input >= 101 && parser.current_input <= 4294967295 {
        // invalid
    }
}


const STEPS_LOOKUP_TABLE: &[fn(&mut Parser)] = &[
    step_state0,
    step_state1,
    step_state2,
];
";
    assert_eq!(code, expected);
}

#[test]
fn graphviz_of_a_range() {
    let nfa = pattern_range();
    let dfa = Dfa::from_nfa(&nfa);
    let code = dfa.as_graphviz_code();
    let expected = format!(
        "digraph G {{\n{}\nnode_0[label=\"0 ({:?})\"]\nnode_0 -> node_1[label=\"97..=122\"]\nnode_1[label=\"1 ({:?})\"]\n\n}}\n",
        "node [shape=circle style=filled fillcolor=\"#4385f5\" fontcolor=\"#FFFFFF\" color=white penwidth=5.0 margin=0.1]",
        dfa.sources[0],
        dfa.sources[1],
    );
    assert_eq!(code, expected);
    assert_eq!(dfa.sources[1], vec![2]);
}

#[test]
fn every_symbol_of_a_column_has_the_same_target() {
    let mut nfa = Nfa::new();
    let s1 = nfa.new_state();
    let s2 = nfa.new_state();
    nfa.connect(0, s1, 'a' as u32, 'z' as u32);
    nfa.connect(0, s2, 'm' as u32, 'p' as u32);
    let table = nfa_matrix(&nfa);
    let alphabet = nfa.alphabet.seal();
    for sym in ['a', 'c', 'l', 'z'] {
        assert_eq!(table.get(0, alphabet.index_of_symbol(sym as u32)), s1);
    }
    for sym in ['m', 'n', 'p'] {
        assert_eq!(table.get(0, alphabet.index_of_symbol(sym as u32)), s1);
    }
    assert_eq!(table.get(0, alphabet.index_of_symbol('{' as u32)), INVALID);
}
