use parser_gen::simple_grammar::{try_from_text, SimpleGrammar};

#[test]
fn from_text_numbers_tokens() {
    let g = SimpleGrammar::from_text("S -> a S b\nS ->");
    assert_eq!(g.nt, vec!["S".to_string(), String::new()]);
    assert_eq!(g.t, vec!["ε".to_string(), "#".to_string(), String::new(), "a".to_string(), "b".to_string()]);
    assert_eq!(g.prod, vec![vec![(vec![5, 0, 6], 0), (vec![], 1)], vec![(vec![0], 2)]]);
}

#[test]
fn from_text_groups_by_lhs() {
    let g = SimpleGrammar::from_text("E -> T x -> ignored\nT -> y\n  E -> E");
    assert_eq!(g.nt, vec!["E".to_string(), "T".to_string(), String::new()]);
    assert_eq!(g.t.len(), 5);
    assert_eq!(g.prod, vec![vec![(vec![1, 6], 0), (vec![0], 2)], vec![(vec![7], 1)], vec![(vec![0], 3)]]);
}

#[test]
fn try_from_text_refuses_what_from_text_cannot_read() {
    assert!(try_from_text("s -> a").is_none());
    assert!(try_from_text("S a").is_none());
    assert!(try_from_text("S -> A").is_none());
    assert!(try_from_text(" -> a").is_none());
    let g = try_from_text("S -> a S b\nS ->").unwrap();
    assert_eq!(g.prod.len(), 2);
}
