use ascesis::Grammar;
use ascesis::Generator;
use ascesis::Sentence;

fn tiny_grammar() -> Grammar {
    // S -> x | x S
    let mut g = Grammar::new();
    let x = g.add_terminal("x");
    let s = g.add_nonterminal("S");
    g.add_production(s, vec![x]);
    g.add_production(s, vec![x, s]);
    g
}

#[test]
fn sentence_stack_and_rendering() {
    let mut g = Grammar::new();
    let hello = g.add_terminal("hello");
    let world = g.add_terminal("world");
    let mut s = Sentence::new();
    s.push(world);
    s.push(hello);
    assert_eq!(s.as_string(&g), "hello world");
    assert_eq!(s.pop(), Some(hello));
    assert_eq!(s.as_string(&g), "world");
    s.clear();
    assert_eq!(s.len(), 0);
}

#[test]
fn generator_rejects_unknown_start_symbol() {
    let g = tiny_grammar();
    let mut gen = Generator::new().with_grammar(&g);
    let err = gen.set_axiom(&g, "Nope").unwrap_err();
    assert_eq!(err, "No such nonterminal: <Nope>");
    assert!(gen.set_axiom(&g, "x").is_err());
    assert!(gen.set_axiom(&g, "S").is_ok());
}

#[test]
fn generator_end_is_absorbing() {
    let g = tiny_grammar();
    let mut gen = Generator::new().with_grammar(&g);
    gen.set_axiom(&g, "S").unwrap();
    gen.start_emission(&g);
    // Exhaust the fuel mid-sentence: the enumeration ends for good, and the
    // cut is recorded, distinguishing it from a completed enumeration.
    assert!(!gen.is_exhausted());
    assert_eq!(gen.next(0), None);
    assert!(gen.is_exhausted());
    assert_eq!(gen.next(10_000), None);
    assert_eq!(gen.next(10_000), None);
}

#[test]
fn generator_emits_shortest_sentences_first() {
    let g = tiny_grammar();
    let mut gen = Generator::new().with_grammar(&g);
    gen.set_axiom(&g, "S").unwrap();
    gen.start_emission(&g);
    let first = gen.next(10_000).expect("a first sentence");
    assert_eq!(first, "x");
    let second = gen.next(10_000).expect("a second sentence");
    assert_eq!(second, "x x");
}

#[test]
fn generator_terminates_on_finite_language() {
    // S -> x | y: both sentences come out and the enumeration ends.  The
    // final round replays the shortest production once before the axiom is
    // recognized as finished, so the shortest sentence appears twice.
    let mut g = Grammar::new();
    let x = g.add_terminal("x");
    let y = g.add_terminal("y");
    let s = g.add_nonterminal("S");
    g.add_production(s, vec![x]);
    g.add_production(s, vec![y]);
    let mut gen = Generator::new().with_grammar(&g);
    gen.set_axiom(&g, "S").unwrap();
    gen.start_emission(&g);
    let mut seen = Vec::new();
    while let Some(s) = gen.next(10_000) {
        seen.push(s);
        assert!(seen.len() <= 4, "the enumeration does not end");
    }
    assert_eq!(seen, vec!["x".to_string(), "y".to_string(), "x".to_string()]);
}
