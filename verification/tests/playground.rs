use parser_gen::playground::{algo_of, parse_input, parser, render, trim_str, trimmed_lines, Algo};
use parser_gen::simple::parse_lines;
use parser_gen::text::replace_all;

#[test]
fn trim_like_std() {
    for s in ["", "  ", " a ", "\ta b\u{3000}", "x", "\r\n y \n"] {
        assert_eq!(trim_str(s), s.trim(), "on {:?}", s);
    }
}

#[test]
fn trimmed_lines_drop_blank() {
    assert_eq!(trimmed_lines("  S -> a \n\n\t\nS ->\n"), vec!["S -> a", "S ->"]);
}

#[test]
fn replace_like_std() {
    for (s, from, to) in [("a_Eof b _Eof", "_Eof", "#"), ("aaa", "aa", "b"), ("", "x", "y"), ("xyz", "q", "r")] {
        assert_eq!(replace_all(s, from, to), s.replace(from, to));
    }
}

#[test]
fn algo_names() {
    assert_eq!(algo_of("lr(0)"), Some(Algo::Lr0));
    assert_eq!(algo_of("lr(1)"), Some(Algo::Lr1));
    assert_eq!(algo_of("lalr(1)"), Some(Algo::Lalr1));
    assert_eq!(algo_of("ll(1)"), Some(Algo::Ll1));
    assert_eq!(algo_of("lr0"), None);
}

#[test]
fn parse_input_errors() {
    assert_eq!(
        parse_input("  E => T  ").err().unwrap(),
        "input is invalid: invalid input \"E => T\", expect form of \"lhs -> rhs1 rhs2 ...\""
    );
    assert_eq!(parse_input("\n  \n").err().unwrap(), "input is invalid: grammar must have at least one production rule");
    let raw = parse_input("  S -> a S b  \n\n S ->").ok().unwrap();
    assert_eq!(raw.production.len(), 2);
}

#[test]
fn parser_shows_each_algorithm() {
    let g = "S -> a S b\nS ->";
    let lr0 = parser(g, "lr(0)", false).ok().unwrap();
    assert!(lr0.starts_with("digraph {\n"));
    assert!(!lr0.contains("_Eof"));
    let lalr = parser(g, "lalr(1)", false).ok().unwrap();
    assert!(lalr.contains("_ ->.S,#"), "{}", lalr);
    let lr1 = parser(g, "lr(1)", false).ok().unwrap();
    assert!(lr1.contains("_ ->.S,#"), "{}", lr1);
    let table = parser(g, "lalr(1)", true).ok().unwrap();
    assert!(table.contains("State 0:\n"));
    assert!(table.contains("  1: #\n"), "{}", table);
    let ll = parser(g, "ll(1)", false).ok().unwrap();
    assert!(ll.contains("follow: # b\n"), "{}", ll);
}

#[test]
fn parser_errors() {
    assert_eq!(
        parser("S -> a", "lr0", false).err().unwrap(),
        "grammar \"lr0\" is invalid, expect one of \"lr0\", \"lr1\", \"lalr1\", \"ll1"
    );
    assert_eq!(parser("S => a", "lr(0)", false).err().unwrap(), "input is invalid: invalid input \"S => a\", expect form of \"lhs -> rhs1 rhs2 ...\"");
}

#[test]
fn render_matches_parts() {
    let mut raw = parse_lines("S -> a S b\nS ->").ok().unwrap();
    let g = raw.extend(false).ok().unwrap();
    let lr0 = render(&g, Algo::Lr0, false).ok().unwrap();
    let fsm = parser_gen::lr0::work(&g);
    assert_eq!(lr0, parser_gen::show_lr::lr0_dot(&g, &fsm).replace("_Eof", "#"));
    let ll = render(&g, Algo::Ll1, true).ok().unwrap();
    let ctx = parser_gen::ll1::LLCtx::new(&g);
    assert_eq!(ll, parser_gen::show_ll::table(&ctx, &g).replace("_Eof", "#"));
}
