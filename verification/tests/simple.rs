use parser_gen::ll1::LLCtx;
use parser_gen::lr0;
use parser_gen::lalr1;
use parser_gen::show_ll;
use parser_gen::show_lr;
use parser_gen::show_ll::show_prod_token;
use parser_gen::show_lr::{lr0_dot, lr1_dot};
use parser_gen::simple::{lines, parse_lines};
use parser_gen::pipeline::lalr1_table;
use parser_gen::printer::{min_u, IndentPrinter};

#[test]
fn lines_like_std() {
    for s in ["", "a", "a\n", "a\r\nb", "a\n\nb\n", "x\r", "\n\n"] {
        let ours: Vec<&str> = lines(s);
        let std: Vec<&str> = s.lines().collect();
        assert_eq!(ours, std, "on {:?}", s);
    }
}

#[test]
fn parse_lines_grammar() {
    let raw = parse_lines("E -> E + T\nE -> T\nT -> id").ok().unwrap();
    assert_eq!(raw.start, "E");
    assert_eq!(raw.production.len(), 3);
    assert_eq!(raw.production[0].lhs, "E");
    assert_eq!(raw.production[0].rhs[0].rhs, vec!["E", "+", "T"]);
    let lexical: Vec<(String, String)> = raw.lexical.iter().map(|(k, v)| (k.clone(), v.clone())).collect();
    assert_eq!(lexical, vec![("0".to_string(), "+".to_string()), ("1".to_string(), "id".to_string())]);
}

#[test]
fn parse_lines_errors() {
    assert_eq!(parse_lines("E => T").err().unwrap(), "invalid input \"E => T\", expect form of \"lhs -> rhs1 rhs2 ...\"");
    assert_eq!(parse_lines("_ -> a").err().unwrap(), "invalid token name: \"_\"");
    assert_eq!(parse_lines("A -> _").err().unwrap(), "invalid token name: \"_\"");
    assert_eq!(parse_lines("").err().unwrap(), "grammar must have at least one production rule");
}

#[test]
fn show_simple_grammar() {
    let mut raw = parse_lines("S -> a S b\nS ->").ok().unwrap();
    let g = raw.extend(false).ok().unwrap();
    let text = show_prod_token(&g);
    assert!(text.starts_with("Productions:\n  0: S -> a S b\n  1: S ->\n  2: _ -> S\n\nTokens:\n  0: _Eps\n"));
    let fsm = lr0::work(&g);
    let dot = lr0_dot(&g, &fsm);
    assert!(dot.starts_with("digraph {\n0 -> "));
    assert!(dot.contains("0[shape=box, label=\"S ->.a S b\\nS ->.\\n_ ->.S\"]\n"), "{}", dot);
    assert!(dot.ends_with("}"));
    let lr1 = lalr1::work(&fsm, &g);
    let dot1 = lr1_dot(&g, &lr1);
    assert!(dot1.contains("_ ->.S,_Eof"), "{}", dot1);
    let out = lalr1_table(&g).ok().unwrap();
    let table = show_lr::table(&out.lr1, &out.orig_table, &out.table, &g);
    assert!(table.contains("State 0:\n"));
    assert!(table.contains(" => Shift("));
    assert!(show_lr::conflict(&g, &out.conflict).is_empty());
    let ll = LLCtx::new(&g);
    let lt = show_ll::table(&ll, &g);
    assert!(lt.contains("first: _Eps a\n"), "{}", lt);
    assert!(lt.contains("follow: _Eof b\n"));
    assert!(show_ll::conflict(&ll, &g).is_empty());
}

#[test]
fn ll_conflict_message() {
    let mut raw = parse_lines("S -> a\nS -> a b").ok().unwrap();
    let g = raw.extend(false).ok().unwrap();
    let ll = LLCtx::new(&g);
    assert_eq!(show_ll::conflict(&ll, &g), vec!["conflict at prod \"S -> a\" and \"S -> a b\", both's PS contains \"a\"".to_string()]);
}

#[test]
fn lr_conflict_message() {
    let mut raw = parse_lines("E -> E + E\nE -> id").ok().unwrap();
    let g = raw.extend(false).ok().unwrap();
    let out = lalr1_table(&g).ok().unwrap();
    let msgs = show_lr::conflict(&g, &out.conflict);
    assert_eq!(msgs.len(), 1);
    assert!(msgs[0].starts_with("shift-reduce conflict at state "));
    assert!(msgs[0].contains("when faced with token \"+\", it can either shift "));
    assert!(msgs[0].ends_with("(\"E -> E + E\")"));
}

#[test]
fn indent_printer() {
    let mut p = IndentPrinter::new();
    p.ln("a").inc().ln("b").lns("c\nd").dec().ln("e");
    assert_eq!(p.finish(), "a\n  b\n  c\n  d\ne\n");
}

#[test]
fn min_u_widths() {
    assert_eq!(min_u(255), "u8");
    assert_eq!(min_u(256), "u16");
    assert_eq!(min_u(65535), "u16");
    assert_eq!(min_u(65536), "u32");
}

#[test]
fn action_table_codes() {
    let mut raw = parse_lines("S -> a").ok().unwrap();
    let g = raw.extend(false).ok().unwrap();
    let out = lalr1_table(&g).ok().unwrap();
    let text = parser_gen::gen_fmt::action(&g, &out.table, '[', ']');
    assert_eq!(text, "[3,3,3,4,],[3,1,3,3,],[3,2,3,3,],");
}
