use parser_gen::driver::{mk_parse_tables, parse, Event, ParseOutcome, ParseTables};
use parser_gen::grammar::{Assoc, Grammar, RawGrammar, RawPriorityRow, RawProduction, RawProductionRhs};
use parser_gen::lexer::{DfaTables, Lexer, Token};
use parser_gen::pipeline::lalr1_table;

fn s(x: &str) -> String {
    x.to_string()
}

fn alt(rhs: &[&str], prec: Option<&str>) -> RawProductionRhs {
    RawProductionRhs { rhs: rhs.iter().map(|x| s(x)).collect(), rhs_arg: None, act: s(""), prec: prec.map(s) }
}

fn raw(priority: Vec<RawPriorityRow>, lexical: &[(&str, &str)], start: &str, production: Vec<RawProduction>) -> RawGrammar {
    RawGrammar {
        header: s(""),
        epilogue: None,
        priority,
        lexical: lexical.iter().map(|(a, b)| (s(a), s(b))).collect(),
        lexer_field: s(""),
        lexer_action: s(""),
        parser_field: s(""),
        start: s(start),
        production,
        parser_def: None,
    }
}

fn term_id(g: &Grammar, name: &str) -> u32 {
    g.terms.iter().position(|t| t.name == name).expect("no such term") as u32
}

/// A DFA over byte classes: `class` maps a byte to its class, `edge[s][c]` is the next state,
/// `acc[s]` the name of the term that state `s` accepts.
fn dfa(g: &Grammar, class: impl Fn(u8) -> u8, edge: Vec<Vec<u32>>, acc: &[Option<&str>]) -> DfaTables {
    let ec: Vec<u8> = (0..128u8).map(|b| class(b)).collect();
    let eof = term_id(g, "_Eof");
    let acc: Vec<u32> = acc.iter().map(|a| match a { Some(n) => term_id(g, n), None => eof }).collect();
    DfaTables { acc, ec, edge, eof, eps: term_id(g, "_Eps") }
}

fn lex_all<'a>(input: &'a [u8], d: &DfaTables) -> Vec<Token<'a>> {
    let mut lexer = Lexer::new(input);
    let mut tokens = Vec::new();
    while let Some(t) = lexer.next(d) {
        let end = t.ty == d.eof;
        tokens.push(t);
        if end {
            break;
        }
    }
    tokens
}

fn tables(g: &Grammar) -> ParseTables {
    let out = lalr1_table(g).ok().expect("no table");
    mk_parse_tables(g, &out.table)
}

fn run(g: &Grammar, d: &DfaTables, input: &[u8]) -> (Vec<Token<'static>>, ParseOutcome) {
    let input: &'static [u8] = Box::leak(input.to_vec().into_boxed_slice());
    let tokens = lex_all(input, d);
    let types: Vec<u32> = tokens.iter().map(|t| t.ty).collect();
    let outcome = parse(&tables(g), &types, usize::MAX);
    (tokens, outcome)
}

fn expr_grammar() -> Grammar {
    let priority = vec![
        RawPriorityRow { assoc: Assoc::Left, terms: vec![s("Add"), s("Sub")] },
        RawPriorityRow { assoc: Assoc::Left, terms: vec![s("Mul"), s("Div"), s("Mod")] },
        RawPriorityRow { assoc: Assoc::NoAssoc, terms: vec![s("UMinus")] },
        RawPriorityRow { assoc: Assoc::NoAssoc, terms: vec![s("RParen")] },
    ];
    let lexical = [
        ("\\(", "LParen"),
        ("\\)", "RParen"),
        ("\\d+", "IntConst"),
        ("\\+", "Add"),
        ("-", "Sub"),
        ("\\*", "Mul"),
        ("/", "Div"),
        ("%", "Mod"),
        ("\\s+", "_Eps"),
    ];
    let production = vec![RawProduction {
        lhs: s("Expr"),
        ty: s("i32"),
        rhs: vec![
            alt(&["Expr", "Add", "Expr"], None),
            alt(&["Expr", "Sub", "Expr"], None),
            alt(&["Expr", "Mul", "Expr"], None),
            alt(&["Expr", "Div", "Expr"], None),
            alt(&["Expr", "Mod", "Expr"], None),
            alt(&["Sub", "Expr"], Some("UMinus")),
            alt(&["LParen", "Expr", "RParen"], None),
            alt(&["IntConst"], None),
        ],
    }];
    let mut r = raw(priority, &lexical, "Expr", production);
    r.extend(true).ok().expect("grammar error")
}

fn expr_dfa(g: &Grammar) -> DfaTables {
    let class = |b: u8| match b {
        b'(' => 1,
        b')' => 2,
        b'0'..=b'9' => 3,
        b'+' => 4,
        b'-' => 5,
        b'*' => 6,
        b'/' => 7,
        b'%' => 8,
        b' ' | b'\t' | b'\n' | b'\r' | 0x0b | 0x0c => 9,
        _ => 0,
    };
    let mut edge = vec![vec![0u32; 10]; 10];
    for c in 1..10u32 {
        edge[0][c as usize] = c;
    }
    edge[3][3] = 3;
    edge[9][9] = 9;
    let acc = [
        None,
        Some("LParen"),
        Some("RParen"),
        Some("IntConst"),
        Some("Add"),
        Some("Sub"),
        Some("Mul"),
        Some("Div"),
        Some("Mod"),
        Some("_Eps"),
    ];
    dfa(g, class, edge, &acc)
}

fn eval_expr(events: &[Event], tokens: &[Token]) -> i32 {
    enum V {
        T(usize),
        N(i32),
    }
    fn n(v: Option<V>) -> i32 {
        match v {
            Some(V::N(x)) => x,
            _ => panic!("expected a number"),
        }
    }
    let mut stk: Vec<V> = Vec::new();
    for e in events {
        match *e {
            Event::Shift(i) => stk.push(V::T(i)),
            Event::Reduce(r) => {
                let v = match r {
                    0..=4 => {
                        let b = n(stk.pop());
                        stk.pop();
                        let a = n(stk.pop());
                        match r {
                            0 => a + b,
                            1 => a - b,
                            2 => a * b,
                            3 => a / b,
                            _ => a % b,
                        }
                    }
                    5 => {
                        let b = n(stk.pop());
                        stk.pop();
                        -b
                    }
                    6 => {
                        stk.pop();
                        let b = n(stk.pop());
                        stk.pop();
                        b
                    }
                    _ => match stk.pop() {
                        Some(V::T(i)) => std::str::from_utf8(tokens[i].piece).unwrap().parse().unwrap(),
                        _ => panic!("expected a token"),
                    },
                };
                stk.push(V::N(v));
            }
        }
    }
    n(stk.pop())
}

fn expr_eval(input: &[u8]) -> Result<i32, Option<usize>> {
    let g = expr_grammar();
    let d = expr_dfa(&g);
    let (tokens, outcome) = run(&g, &d, input);
    match outcome {
        ParseOutcome::Accept(events) => Ok(eval_expr(&events, &tokens)),
        ParseOutcome::Reject(at) => Err(at),
        _ => panic!("the tables cannot take this input"),
    }
}

#[test]
fn lalr1() {
    assert_eq!(expr_eval(b"1 - 2 * (3 + 4 * 5 / 6) + -7 * -9 % 10"), Ok(-8));
}

#[test]
fn lalr1_associativity() {
    assert_eq!(expr_eval(b"10 - 4 - 3"), Ok(3));
    assert_eq!(expr_eval(b"2 * 3 + 4"), Ok(10));
    assert_eq!(expr_eval(b"2 + 3 * 4"), Ok(14));
}

#[test]
fn lalr1_syntax_error() {
    assert_eq!(expr_eval(b"1 + + 2"), Err(Some(2)));
    assert_eq!(expr_eval(b"(1"), Err(Some(2)));
}

#[test]
fn lalr1_conflicts_are_solved_by_priority() {
    let g = expr_grammar();
    let out = lalr1_table(&g).ok().expect("no table");
    assert_eq!(out.conflict.len(), 0);
    assert!(out.lr0.len() > 0);
    assert_eq!(out.lr0.len(), out.lr1.len());
}

fn tokens_grammar() -> Grammar {
    let production = vec![RawProduction {
        lhs: s("Tokens"),
        ty: s("()"),
        rhs: vec![alt(&["Tokens", "Token"], None), alt(&[], None)],
    }];
    let mut r = raw(vec![], &[("\\s+", "_Eps"), ("[A-Za-z][_0-9A-Za-z]*", "Token")], "Tokens", production);
    r.extend(true).ok().expect("grammar error")
}

fn ident_class(b: u8) -> u8 {
    match b {
        b'A'..=b'Z' | b'a'..=b'z' => 1,
        b'0'..=b'9' | b'_' => 2,
        b' ' | b'\t' | b'\n' | b'\r' | 0x0b | 0x0c => 3,
        b';' => 4,
        b'.' => 5,
        _ => 0,
    }
}

#[test]
fn lifetime() {
    let g = tokens_grammar();
    let edge = vec![vec![0, 1, 0, 2, 0, 0], vec![0, 1, 1, 0, 0, 0], vec![0, 0, 0, 2, 0, 0]];
    let d = dfa(&g, ident_class, edge, &[None, Some("Token"), Some("_Eps")]);
    let (tokens, outcome) = run(&g, &d, b"abc abcd abcde");
    let events = match outcome {
        ParseOutcome::Accept(events) => events,
        _ => panic!("not accepted"),
    };
    let shifted: Vec<&[u8]> = events
        .iter()
        .filter_map(|e| match e {
            Event::Shift(i) => Some(tokens[*i].piece),
            _ => None,
        })
        .collect();
    assert_eq!(shifted, vec![&b"abc"[..], &b"abcd"[..], &b"abcde"[..]]);
    println!("{:?}", shifted);
}

#[test]
fn test() {
    let production = vec![
        RawProduction { lhs: s("StmtList"), ty: s("()"), rhs: vec![alt(&["StmtList", "Expr", "S"], None), alt(&[], None)] },
        RawProduction { lhs: s("Expr"), ty: s("()"), rhs: vec![alt(&["MaybeOwner", "Identifier"], None)] },
        RawProduction { lhs: s("MaybeOwner"), ty: s("()"), rhs: vec![alt(&["Expr", "Dot"], None), alt(&[], None)] },
    ];
    let lexical = [(";", "S"), ("\\.", "Dot"), ("\\s+", "_Eps"), ("[A-Za-z][_0-9A-Za-z]*", "Identifier")];
    let mut r = raw(vec![], &lexical, "StmtList", production);
    let g = r.extend(true).ok().expect("grammar error");
    let edge = vec![
        vec![0, 1, 0, 2, 3, 4],
        vec![0, 1, 1, 0, 0, 0],
        vec![0, 0, 0, 2, 0, 0],
        vec![0, 0, 0, 0, 0, 0],
        vec![0, 0, 0, 0, 0, 0],
    ];
    let d = dfa(&g, ident_class, edge, &[None, Some("Identifier"), Some("_Eps"), Some("S"), Some("Dot")]);
    let (tokens, outcome) = run(&g, &d, b"a;a;a;a;a;");
    match outcome {
        ParseOutcome::Accept(_) => println!("Ok"),
        ParseOutcome::Reject(at) => println!("Err at {:?}", at.map(|i| tokens[i].piece)),
        _ => println!("stuck"),
    }
}
