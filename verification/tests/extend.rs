use parser_gen::grammar::{Assoc, RawGrammar, RawPriorityRow, RawProduction, RawProductionRhs};

fn s(x: &str) -> String {
    x.to_string()
}

fn alt(rhs: &[&str], args: Option<&[(&str, &str)]>, prec: Option<&str>) -> RawProductionRhs {
    RawProductionRhs {
        rhs: rhs.iter().map(|x| s(x)).collect(),
        rhs_arg: args.map(|a| a.iter().map(|(n, t)| (s(n), s(t))).collect()),
        act: s(""),
        prec: prec.map(s),
    }
}

fn prod(lhs: &str, ty: &str, rhs: Vec<RawProductionRhs>) -> RawProduction {
    RawProduction { lhs: s(lhs), ty: s(ty), rhs }
}

fn row(assoc: Assoc, terms: &[&str]) -> RawPriorityRow {
    RawPriorityRow { assoc, terms: terms.iter().map(|x| s(x)).collect() }
}

fn raw(priority: Vec<RawPriorityRow>, lexical: &[(&str, &str)], start: &str, production: Vec<RawProduction>) -> RawGrammar {
    RawGrammar {
        header: s(""),
        epilogue: None,
        priority,
        lexical: lexical.iter().map(|(a, b)| (s(a), s(b))).collect(),
        lexer_field: s(""),
        lexer_action: s(""),
        parser_field: s(""),
        start: s(start),
        production,
        parser_def: None,
    }
}

fn extend_err(mut r: RawGrammar, validate: bool) -> String {
    assert!(r.fits());
    r.extend(validate).err().unwrap()
}

#[test]
fn extend_numbers_terms_and_productions() {
    let mut r = raw(
        vec![row(Assoc::Left, &["Add"])],
        &[("\\+", "Add"), ("[0-9]+", "Num")],
        "E",
        vec![prod("E", "i32", vec![alt(&["E", "Add", "E"], None, None), alt(&["Num"], None, None)])],
    );
    let g = r.extend(true).ok().unwrap();
    let names: Vec<&str> = g.terms.iter().map(|t| t.name.as_str()).collect();
    assert_eq!(names, vec!["_Eps", "_Eof", "_Err", "Add", "Num"]);
    assert_eq!(g.nt.len(), 2);
    assert_eq!(g.prod.len(), 3);
    assert_eq!(g.show_prod(0, None), "E -> E Add E");
    assert_eq!(g.show_prod(2, Some(0)), "_ ->.E");
    assert_eq!(g.prod_pri(0), Some(0));
    assert_eq!(g.prod_pri(1), None);
    assert_eq!(r.production.len(), 2);
}

#[test]
fn extend_errors_on_terms() {
    let p = || vec![prod("E", "", vec![alt(&["a"], None, None)])];
    assert_eq!(
        extend_err(raw(vec![row(Assoc::Left, &["a1", "9x"])], &[("a", "a")], "E", p()), true),
        "term is not a valid variable name: \"9x\""
    );
    assert_eq!(
        extend_err(raw(vec![row(Assoc::Left, &["a"]), row(Assoc::Right, &["a"])], &[("a", "a")], "E", p()), true),
        "duplicate term when assigning priority: \"a\""
    );
    assert_eq!(
        extend_err(raw(vec![row(Assoc::Left, &["_Eof"])], &[("a", "a")], "E", p()), false),
        "duplicate term when assigning priority: \"_Eof\""
    );
    assert_eq!(extend_err(raw(vec![], &[("a", "a-b")], "E", p()), true), "term is not a valid variable name: \"a-b\"");
    assert_eq!(extend_err(raw(vec![], &[("a", "a")], "E", vec![]), true), "grammar must have at least one production rule");
}

#[test]
fn extend_errors_on_non_terms() {
    assert_eq!(
        extend_err(raw(vec![], &[("a", "a")], "e-1", vec![prod("e-1", "", vec![alt(&["a"], None, None)])]), true),
        "non-term is not a valid variable name: \"e-1\""
    );
    assert_eq!(
        extend_err(raw(vec![], &[("a", "a")], "a", vec![prod("a", "", vec![alt(&["a"], None, None)])]), true),
        "non-term has a duplicate name with term: \"a\""
    );
    assert_eq!(
        extend_err(
            raw(vec![], &[("a", "a")], "E", vec![prod("E", "i32", vec![alt(&["a"], None, None)]), prod("E", "u8", vec![])]),
            true
        ),
        "non-term \"E\" is assigned to different types: \"i32\" and \"u8\""
    );
    assert_eq!(
        extend_err(raw(vec![], &[("a", "a")], "S", vec![prod("E", "", vec![alt(&["a"], None, None)])]), true),
        "start non-term \"S\" undefined"
    );
}

#[test]
fn extend_errors_on_productions() {
    assert_eq!(
        extend_err(raw(vec![], &[("a", "a")], "E", vec![prod("E", "", vec![alt(&["a", "b"], None, None)])]), true),
        "production rhs contains undefined token: \"b\""
    );
    assert_eq!(
        extend_err(raw(vec![], &[("a", "a")], "E", vec![prod("E", "", vec![alt(&["a"], None, Some("c"))])]), true),
        "prec uses undefined term: \"c\""
    );
    assert_eq!(
        extend_err(
            raw(vec![], &[("a", "a")], "E", vec![prod("E", "", vec![alt(&["a", "a"], Some(&[("x", "Token")]), None)])]),
            true
        ),
        "production \"E -> a a\" rhs and method arguments have different length: 2 vs 1"
    );
    assert_eq!(
        extend_err(
            raw(
                vec![],
                &[("a", "a")],
                "E",
                vec![prod("E", "i32", vec![alt(&["E", "a"], Some(&[("e", "u8"), ("t", "Token")]), None), alt(&["a"], None, None)])]
            ),
            true
        ),
        "production \"E -> E a\" rhs and method arguments have conflict signature: `E` requires `i32`, while method takes `u8`"
    );
    assert_eq!(
        extend_err(
            raw(vec![], &[("a", "a")], "E", vec![prod("E", "", vec![alt(&["a"], Some(&[("t", "String")]), None)])]),
            true
        ),
        "production \"E -> a\" rhs and method arguments have conflict signature: `a` requires Token, while method takes `String`"
    );
}

#[test]
fn gather_types_in_first_order() {
    let mut r = raw(
        vec![],
        &[("a", "a")],
        "E",
        vec![
            prod("E", "i32", vec![alt(&["T"], None, None)]),
            prod("T", "u8", vec![alt(&["F"], None, None)]),
            prod("F", "i32", vec![alt(&["a"], None, None)]),
        ],
    );
    let g = r.extend(true).ok().unwrap();
    let (types, _) = parser_gen::gen_fmt::gather_types(&g);
    assert_eq!(types, vec!["i32".to_string(), "u8".to_string()]);
}

fn typed_grammar() -> parser_gen::grammar::Grammar {
    let mut e1 = alt(&["E", "a"], Some(&[("e", "int"), ("t", "Token")]), None);
    e1.act = s("return;");
    let mut e2 = alt(&["a"], None, None);
    e2.act = s("x");
    let mut r = raw(vec![], &[("a", "a")], "E", vec![prod("E", "int", vec![e1, e2])]);
    r.extend(true).ok().unwrap()
}

#[test]
fn cpp_reduce_actions() {
    let g = typed_grammar();
    let text = parser_gen::gen_fmt::cpp_parser_act(&g);
    let expected = String::new()
        + "case 0: {\n"
        + "[[maybe_unused]] Token t(std::move(*std::get_if<Token>(&stk.back().first))); stk.pop_back();\n"
        + "[[maybe_unused]] int e(std::move(*std::get_if<int>(&stk.back().first))); stk.pop_back();\n"
        + "return;\nbreak;\n}\n"
        + "case 1: {\n"
        + "[[maybe_unused]] Token _1(std::move(*std::get_if<Token>(&stk.back().first))); stk.pop_back();\n"
        + "x\nbreak;\n}\n"
        + "case 2: {\n"
        + "[[maybe_unused]] int _1(std::move(*std::get_if<int>(&stk.back().first))); stk.pop_back();\n"
        + "__ = _1;\nbreak;\n}\n";
    assert_eq!(text, expected);
}

#[test]
fn java_reduce_actions() {
    let g = typed_grammar();
    let text = parser_gen::gen_fmt::java_parser_act(&g);
    let expected = String::new()
        + "case 0:{"
        + "Token t=((StackItemToken)stk.get(stk.size()-1)).$;stk.remove(stk.size()-1);\n"
        + "int e=((StackItem0)stk.get(stk.size()-1)).$;stk.remove(stk.size()-1);\n"
        + "StackItem0 $=new StackItem0();\nreturn;value=$;break;}\n"
        + "case 1:{"
        + "Token $1=((StackItemToken)stk.get(stk.size()-1)).$;stk.remove(stk.size()-1);\n"
        + "StackItem0 $=new StackItem0();\nxvalue=$;break;}\n"
        + "case 2:{"
        + "int $1=((StackItem0)stk.get(stk.size()-1)).$;stk.remove(stk.size()-1);\n"
        + "StackItem0 $=new StackItem0();\n$.$ = $1;value=$;break;}\n";
    assert_eq!(text, expected);
}

#[test]
fn rust_reduce_actions() {
    let g = typed_grammar();
    let text = parser_gen::gen_fmt::gen_act(true, &g, true, "err!()");
    let expected = String::new()
        + "0=>{\nprintln!(\"E -> E a\");\n"
        + "let t=match stk.pop(){Some((_Token(x),_))=>x,_=>err!()};\n"
        + "let e=match stk.pop(){Some((_S0(x),_))=>x,_=>err!()};\n"
        + "_S0({return;})\n}\n"
        + "1=>{\nprintln!(\"E -> a\");\n"
        + "let _1=match stk.pop(){Some((_Token(x),_))=>x,_=>err!()};\n"
        + "_S0({x})\n}\n"
        + "2=>{\nprintln!(\"_ -> E\");\n"
        + "let _1=match stk.pop(){Some((_S0(x),_))=>x,_=>err!()};\n"
        + "_S0({_1})\n}\n";
    assert_eq!(text, expected);
    let plain = parser_gen::gen_fmt::gen_act(false, &g, false, "return _Fail");
    assert!(plain.starts_with("0=>{\nlet t=match stk.pop(){Some((_Token(x)))=>x,_=>return _Fail};\n"));
}
