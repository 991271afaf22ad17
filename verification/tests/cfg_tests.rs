use cfg_simplifier::cfg::CFG;
use cfg_simplifier::cfg::GrammarError;
use cfg_simplifier::cfg::Symbol;
use itertools::join;

#[test]
fn remove_epsilon() {
    let test_rules = r#"
            S -> AaB | aB | cC
            A -> AB | a | b | B
            B -> Ba |
            C -> AB | c
        "#;
    let expected = format!(
        "{}\n",
        join(
            vec![
                "S -> Aa | AaB | a | aB | c | cC",
                "A -> AB | B | a | b",
                "B -> Ba | a",
                "C -> A | AB | B | c",
            ],
            "\n"
        )
    );
    let cfg = CFG::parse_from_reader(test_rules).unwrap();
    assert_eq!(cfg.remove_epsilon_rules().to_canonical_string(), expected);
}

#[test]
fn remove_units() {
    let test_rules = "
            Я -> AaB | aB | cC
            A -> AB | a | b | B
            B -> Ba |
            C -> AB | c
        ";
    let expected = format!(
        "{}\n",
        join(
            vec![
                "Я -> Aa | AaB | a | aB | c | cC",
                "A -> AB | Ba | a | b",
                "B -> Ba | a",
                "C -> AB | Ba | a | b | c",
            ],
            "\n"
        )
    );
    let cfg = CFG::parse_from_reader(test_rules).unwrap().remove_epsilon_rules();
    assert_eq!(cfg.remove_unit_rules().to_canonical_string(), expected);
}

#[test]
fn remove_useless() {
    let test_rules = "
            S -> aAB | E
            A -> aA | bB
            B -> ACb| b
            C -> A | bA | cC | aE
            D -> a | c | Fb
            E -> cE | aE | Eb | ED | FG
            F -> BC | EC | AC
            G -> Ga | Gb
        ";
    let expected = format!(
        "{}\n",
        join(
            vec![
                "S -> aAB",
                "A -> aA | bB",
                "B -> ACb | b",
                "C -> A | bA | cC",
                "D -> Fb | a | c",
                "F -> AC | BC",
            ],
            "\n"
        )
    );
    let cfg = CFG::parse_from_reader(test_rules).unwrap().remove_epsilon_rules();
    assert_eq!(cfg.remove_useless_rules().to_canonical_string(), expected);
}

#[test]
fn remove_unreachable() {
    let test_rules = "
            S -> aAB | E
            A -> aA | bB
            B -> ACb| b
            C -> A | bA | cC | aE
            D -> a | c | Fb
            E -> cE | aE | Eb | ED | FG
            F -> BC | EC | AC
            G -> Ga | Gb
        ";
    let expected = format!(
        "{}\n",
        join(vec!["S -> aAB", "A -> aA | bB", "B -> ACb | b", "C -> A | bA | cC",], "\n")
    );
    let cfg = CFG::parse_from_reader(test_rules)
        .unwrap()
        .remove_epsilon_rules()
        .remove_useless_rules();
    assert_eq!(cfg.remove_unreachable_rules().to_canonical_string(), expected);
}

#[test]
fn simplify_runs_all_four_passes() {
    let test_rules = "
            S -> aAB | E
            A -> aA | bB
            B -> ACb| b
            C -> A | bA | cC | aE
            D -> a | c | Fb
            E -> cE | aE | Eb | ED | FG
            F -> BC | EC | AC
            G -> Ga | Gb
        ";
    let expected = format!(
        "{}\n",
        join(vec!["S -> aAB", "A -> aA | bB", "B -> ACb | b", "C -> aA | bA | bB | cC",], "\n")
    );
    let cfg = CFG::parse_from_reader(test_rules).unwrap();
    assert_eq!(cfg.simplify().to_canonical_string(), expected);
}

#[test]
fn simplify_is_idempotent_on_a_grammar() {
    let test_rules = "
            S -> AaB | aB | cC
            A -> AB | a | b | B
            B -> Ba |
            C -> AB | c
        ";
    let once = CFG::parse_from_reader(test_rules).unwrap().simplify();
    let twice = once.simplify();
    assert_eq!(once.to_canonical_string(), twice.to_canonical_string());
}

#[test]
fn epsilon_on_start_synthesizes_fresh_start() {
    let cfg = CFG::parse_from_reader("S -> a |").unwrap();
    let out = cfg.remove_epsilon_rules();
    assert_eq!(out.start.symbol, 'Я');
    assert_eq!(out.to_canonical_string(), "Я ->  | S\nS -> a\n");
}

#[test]
fn unit_pass_is_noop_on_unit_free_grammar() {
    let cfg = CFG::parse_from_reader("S -> aA\nA -> b").unwrap();
    let before = cfg.to_canonical_string();
    assert_eq!(cfg.remove_unit_rules().to_canonical_string(), before);
}

#[test]
fn classification_of_characters() {
    assert!(Symbol::new('a').is_terminal());
    assert!(Symbol::new('5').is_terminal());
    assert!(Symbol::new('я').is_terminal());
    assert!(Symbol::new('A').is_nonterminal());
    assert!(Symbol::new('Я').is_nonterminal());
    assert_eq!(Symbol::new('A').get_symbol(), 'A');
    assert!(Symbol::new('A').as_nonterminal().is_some());
    assert!(Symbol::new('a').as_nonterminal().is_none());
}

#[test]
fn parse_rejects_terminal_left_side() {
    assert!(matches!(
        CFG::parse_from_reader("a -> b"),
        Err(GrammarError::TerminalAtLhs(_))
    ));
}

#[test]
fn parse_rejects_malformed_rules() {
    assert!(matches!(CFG::parse_from_reader("S - b"), Err(GrammarError::BadRule(_))));
    assert!(matches!(CFG::parse_from_reader("S -> a -> b"), Err(GrammarError::BadRule(_))));
    assert!(matches!(CFG::parse_from_reader("SX -> a"), Err(GrammarError::BadRule(_))));
}

#[test]
fn parse_rejects_empty_grammar() {
    assert!(matches!(CFG::parse_from_reader(""), Err(GrammarError::NoRule)));
    assert!(matches!(CFG::parse_from_reader("# only a comment\n\n"), Err(GrammarError::NoRule)));
}

#[test]
fn parse_skips_blanks_and_comments() {
    let cfg = CFG::parse_from_reader("# header\n\nS -> aB | b\nB -> c\n").unwrap();
    assert_eq!(cfg.start.symbol, 'S');
    assert_eq!(cfg.productions.len(), 3);
    assert_eq!(cfg.to_canonical_string(), "S -> aB | b\nB -> c\n");
}

#[test]
fn parse_deduplicates_repeated_rules() {
    let cfg = CFG::parse_from_reader("S -> a | a\nS -> a\n").unwrap();
    assert_eq!(cfg.productions.len(), 1);
    assert_eq!(cfg.to_canonical_string(), "S -> a\n");
}

#[test]
fn pool_and_epsilon_checks() {
    let cfg = CFG::parse_from_reader("S -> a |").unwrap();
    assert!(cfg.has_epsilon_on_start());
    assert!(cfg.has_free_pool_symbol());
    let plain = CFG::parse_from_reader("S -> aB\nB -> b").unwrap();
    assert!(!plain.has_epsilon_on_start());
}
