use cfg_simplifier::cfg::CFG;
use cfg_simplifier::cfg::Symbol;
use cfg_simplifier::generator::GenStep;
use cfg_simplifier::generator::GeneratedSet;
use cfg_simplifier::generator::Generator;

fn collect_all(mut g: Generator) -> Vec<Vec<Symbol>> {
    let mut out: Vec<Vec<Symbol>> = Vec::new();
    loop {
        match g.step() {
            GenStep::Yielded(s) => out.push(s),
            GenStep::Continued => {}
            GenStep::Exhausted => break,
        }
    }
    out
}

fn as_strings(items: &[Vec<Symbol>]) -> Vec<String> {
    let mut out: Vec<String> = items
        .iter()
        .map(|item| item.iter().map(|s| s.get_symbol()).collect::<String>())
        .collect();
    out.sort();
    out
}

#[test]
fn generator_yields_single_terminals() {
    let cfg = CFG::parse_from_reader("S -> a | b | c").unwrap();
    let g = Generator::new(cfg, 1, 1, true);
    let strings = as_strings(&collect_all(g));
    assert_eq!(strings, vec!["a".to_string(), "b".to_string(), "c".to_string()]);
}

#[test]
fn generator_respects_length_bounds() {
    let cfg = CFG::parse_from_reader("S -> aS | a").unwrap();
    let g = Generator::new(cfg, 2, 3, true);
    let strings = as_strings(&collect_all(g));
    assert_eq!(strings, vec!["aa".to_string(), "aaa".to_string()]);
}

#[test]
fn generator_rightmost_expansion_covers_same_strings() {
    let cfg = CFG::parse_from_reader("S -> AB\nA -> a | b\nB -> c").unwrap();
    let leftmost = as_strings(&collect_all(Generator::new(
        CFG::parse_from_reader("S -> AB\nA -> a | b\nB -> c").unwrap(),
        1,
        2,
        true,
    )));
    let rightmost = as_strings(&collect_all(Generator::new(cfg, 1, 2, false)));
    assert_eq!(leftmost, vec!["ac".to_string(), "bc".to_string()]);
    assert_eq!(leftmost, rightmost);
}

#[test]
fn generator_yields_empty_string_from_nullable_start() {
    // The empty sentential form is yielded as soon as it is popped, even
    // below the minimum length: the empty string escapes the bounds.
    let cfg = CFG::parse_from_reader("S -> | a").unwrap();
    let g = Generator::new(cfg, 1, 1, true);
    let strings = as_strings(&collect_all(g));
    assert_eq!(strings, vec!["".to_string(), "a".to_string()]);
}

#[test]
fn generated_set_renders_one_line_per_string() {
    let items = vec![
        vec![Symbol::new('a'), Symbol::new('b')],
        vec![Symbol::new('c')],
    ];
    let set = GeneratedSet(items);
    assert_eq!(set.to_display_string(), "ab\nc\n");
}

#[test]
fn generated_set_insert_deduplicates() {
    let mut set = GeneratedSet(Vec::new());
    set.insert(vec![Symbol::new('a')]);
    set.insert(vec![Symbol::new('b')]);
    set.insert(vec![Symbol::new('a')]);
    assert_eq!(set.0.len(), 2);
    assert_eq!(set.to_display_string(), "a\nb\n");
}
