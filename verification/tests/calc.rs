use parser_gen::driver::{parse, Act, Event, ParseOutcome, ParseTables};
use parser_gen::lexer::{DfaTables, Lexer, Token};

// Token kinds of the calculator grammar, in table order.
const EXPR: u32 = 0;
const K_EXPR: u32 = 1;
const K_EPS: u32 = 2;
const K_EOF: u32 = 3;
const OR: u32 = 4;
const AND: u32 = 5;
const BOR: u32 = 6;
const BXOR: u32 = 7;
const BAND: u32 = 8;
const EQ: u32 = 9;
const NE: u32 = 10;
const LE: u32 = 11;
const GE: u32 = 12;
const LT: u32 = 13;
const GT: u32 = 14;
const SHL: u32 = 15;
const SHR: u32 = 16;
const ADD: u32 = 17;
const SUB: u32 = 18;
const MUL: u32 = 19;
const DIV: u32 = 20;
const MOD: u32 = 21;
const UMINUS: u32 = 22;
const NOT: u32 = 23;
const LBRACKET: u32 = 24;
const RPARENTHESIS: u32 = 25;
const REPEAT: u32 = 26;
const INTCONST: u32 = 27;

fn calc_dfa() -> DfaTables {
    let acc: Vec<u32> = vec![3, 3, 27, 2, 17, 3, 20, 21, 7, 14, 19, 6, 13, 8, 18, 9, 10, 26, 12, 16, 4, 11, 15, 5];
    let ec: Vec<u8> = vec![0, 0, 0, 0, 0, 0, 0, 0, 0, 1, 1, 0, 0, 1, 0, 0, 0, 0, 0, 0, 0, 0, 0, 0, 0, 0, 0, 0, 0, 0, 0, 0, 1, 2, 0, 0, 0, 3, 4, 0, 0, 0, 5, 6, 0, 7, 0, 8, 9, 9, 9, 9, 9, 9, 9, 9, 9, 9, 0, 0, 10, 11, 12, 0, 0, 0, 0, 0, 0, 0, 0, 0, 0, 0, 0, 0, 0, 0, 0, 0, 0, 0, 0, 0, 0, 0, 0, 0, 0, 0, 0, 0, 0, 0, 13, 0, 0, 0, 0, 0, 0, 0, 0, 0, 0, 0, 0, 0, 0, 0, 0, 0, 0, 0, 0, 0, 0, 0, 0, 0, 0, 0, 0, 0, 14, 0, 0, 0];
    let edge: Vec<Vec<u32>> = vec![
        vec![0, 3, 5, 7, 13, 10, 4, 14, 6, 2, 12, 1, 9, 8, 11],
        vec![0, 0, 0, 0, 0, 0, 0, 0, 0, 0, 0, 15, 0, 0, 0],
        vec![0, 0, 0, 0, 0, 0, 0, 0, 0, 2, 0, 0, 0, 0, 0],
        vec![0, 3, 0, 0, 0, 0, 0, 0, 0, 0, 0, 0, 0, 0, 0],
        vec![0, 0, 0, 0, 0, 0, 0, 0, 0, 0, 0, 0, 0, 0, 0],
        vec![0, 0, 0, 0, 0, 0, 0, 0, 0, 0, 0, 16, 0, 0, 0],
        vec![0, 0, 0, 0, 0, 0, 0, 0, 0, 0, 0, 0, 0, 0, 0],
        vec![0, 0, 0, 17, 0, 0, 0, 0, 0, 0, 0, 0, 0, 0, 0],
        vec![0, 0, 0, 0, 0, 0, 0, 0, 0, 0, 0, 0, 0, 0, 0],
        vec![0, 0, 0, 0, 0, 0, 0, 0, 0, 0, 0, 18, 19, 0, 0],
        vec![0, 0, 0, 0, 0, 0, 0, 0, 0, 0, 0, 0, 0, 0, 0],
        vec![0, 0, 0, 0, 0, 0, 0, 0, 0, 0, 0, 0, 0, 0, 20],
        vec![0, 0, 0, 0, 0, 0, 0, 0, 0, 0, 22, 21, 0, 0, 0],
        vec![0, 0, 0, 0, 23, 0, 0, 0, 0, 0, 0, 0, 0, 0, 0],
        vec![0, 0, 0, 0, 0, 0, 0, 0, 0, 0, 0, 0, 0, 0, 0],
        vec![0, 0, 0, 0, 0, 0, 0, 0, 0, 0, 0, 0, 0, 0, 0],
        vec![0, 0, 0, 0, 0, 0, 0, 0, 0, 0, 0, 0, 0, 0, 0],
        vec![0, 0, 0, 0, 0, 0, 0, 0, 0, 0, 0, 0, 0, 0, 0],
        vec![0, 0, 0, 0, 0, 0, 0, 0, 0, 0, 0, 0, 0, 0, 0],
        vec![0, 0, 0, 0, 0, 0, 0, 0, 0, 0, 0, 0, 0, 0, 0],
        vec![0, 0, 0, 0, 0, 0, 0, 0, 0, 0, 0, 0, 0, 0, 0],
        vec![0, 0, 0, 0, 0, 0, 0, 0, 0, 0, 0, 0, 0, 0, 0],
        vec![0, 0, 0, 0, 0, 0, 0, 0, 0, 0, 0, 0, 0, 0, 0],
        vec![0, 0, 0, 0, 0, 0, 0, 0, 0, 0, 0, 0, 0, 0, 0],
    ];
    DfaTables { acc, ec, edge, eof: K_EOF, eps: K_EPS }
}

fn calc_tables() -> ParseTables {
    let prod: Vec<(u32, u32)> = vec![(0, 3), (0, 3), (0, 3), (0, 3), (0, 3), (0, 3), (0, 3), (0, 3), (0, 3), (0, 3), (0, 3), (0, 3), (0, 3), (0, 3), (0, 3), (0, 3), (0, 3), (0, 3), (0, 2), (0, 2), (0, 1), (1, 1)];
    let edge: Vec<Vec<Act>> = vec![
        vec![Act::Goto(1), Act::Error, Act::Error, Act::Error, Act::Error, Act::Error, Act::Error, Act::Error, Act::Error, Act::Error, Act::Error, Act::Error, Act::Error, Act::Error, Act::Error, Act::Error, Act::Error, Act::Error, Act::Shift(2), Act::Error, Act::Error, Act::Error, Act::Error, Act::Shift(3), Act::Error, Act::Error, Act::Error, Act::Shift(4)],
        vec![Act::Error, Act::Error, Act::Error, Act::Acc, Act::Shift(5), Act::Shift(6), Act::Shift(7), Act::Shift(8), Act::Shift(9), Act::Shift(10), Act::Shift(11), Act::Shift(12), Act::Shift(13), Act::Shift(14), Act::Shift(15), Act::Shift(16), Act::Shift(17), Act::Shift(18), Act::Shift(19), Act::Shift(20), Act::Shift(21), Act::Shift(22), Act::Error, Act::Error, Act::Error, Act::Error, Act::Error, Act::Error],
        vec![Act::Goto(23), Act::Error, Act::Error, Act::Error, Act::Error, Act::Error, Act::Error, Act::Error, Act::Error, Act::Error, Act::Error, Act::Error, Act::Error, Act::Error, Act::Error, Act::Error, Act::Error, Act::Error, Act::Shift(2), Act::Error, Act::Error, Act::Error, Act::Error, Act::Shift(3), Act::Error, Act::Error, Act::Error, Act::Shift(4)],
        vec![Act::Goto(24), Act::Error, Act::Error, Act::Error, Act::Error, Act::Error, Act::Error, Act::Error, Act::Error, Act::Error, Act::Error, Act::Error, Act::Error, Act::Error, Act::Error, Act::Error, Act::Error, Act::Error, Act::Shift(2), Act::Error, Act::Error, Act::Error, Act::Error, Act::Shift(3), Act::Error, Act::Error, Act::Error, Act::Shift(4)],
        vec![Act::Error, Act::Error, Act::Error, Act::Reduce(20), Act::Reduce(20), Act::Reduce(20), Act::Reduce(20), Act::Reduce(20), Act::Reduce(20), Act::Reduce(20), Act::Reduce(20), Act::Reduce(20), Act::Reduce(20), Act::Reduce(20), Act::Reduce(20), Act::Reduce(20), Act::Reduce(20), Act::Reduce(20), Act::Reduce(20), Act::Reduce(20), Act::Reduce(20), Act::Reduce(20), Act::Error, Act::Error, Act::Error, Act::Error, Act::Error, Act::Error],
        vec![Act::Goto(25), Act::Error, Act::Error, Act::Error, Act::Error, Act::Error, Act::Error, Act::Error, Act::Error, Act::Error, Act::Error, Act::Error, Act::Error, Act::Error, Act::Error, Act::Error, Act::Error, Act::Error, Act::Shift(2), Act::Error, Act::Error, Act::Error, Act::Error, Act::Shift(3), Act::Error, Act::Error, Act::Error, Act::Shift(4)],
        vec![Act::Goto(26), Act::Error, Act::Error, Act::Error, Act::Error, Act::Error, Act::Error, Act::Error, Act::Error, Act::Error, Act::Error, Act::Error, Act::Error, Act::Error, Act::Error, Act::Error, Act::Error, Act::Error, Act::Shift(2), Act::Error, Act::Error, Act::Error, Act::Error, Act::Shift(3), Act::Error, Act::Error, Act::Error, Act::Shift(4)],
        vec![Act::Goto(27), Act::Error, Act::Error, Act::Error, Act::Error, Act::Error, Act::Error, Act::Error, Act::Error, Act::Error, Act::Error, Act::Error, Act::Error, Act::Error, Act::Error, Act::Error, Act::Error, Act::Error, Act::Shift(2), Act::Error, Act::Error, Act::Error, Act::Error, Act::Shift(3), Act::Error, Act::Error, Act::Error, Act::Shift(4)],
        vec![Act::Goto(28), Act::Error, Act::Error, Act::Error, Act::Error, Act::Error, Act::Error, Act::Error, Act::Error, Act::Error, Act::Error, Act::Error, Act::Error, Act::Error, Act::Error, Act::Error, Act::Error, Act::Error, Act::Shift(2), Act::Error, Act::Error, Act::Error, Act::Error, Act::Shift(3), Act::Error, Act::Error, Act::Error, Act::Shift(4)],
        vec![Act::Goto(29), Act::Error, Act::Error, Act::Error, Act::Error, Act::Error, Act::Error, Act::Error, Act::Error, Act::Error, Act::Error, Act::Error, Act::Error, Act::Error, Act::Error, Act::Error, Act::Error, Act::Error, Act::Shift(2), Act::Error, Act::Error, Act::Error, Act::Error, Act::Shift(3), Act::Error, Act::Error, Act::Error, Act::Shift(4)],
        vec![Act::Goto(30), Act::Error, Act::Error, Act::Error, Act::Error, Act::Error, Act::Error, Act::Error, Act::Error, Act::Error, Act::Error, Act::Error, Act::Error, Act::Error, Act::Error, Act::Error, Act::Error, Act::Error, Act::Shift(2), Act::Error, Act::Error, Act::Error, Act::Error, Act::Shift(3), Act::Error, Act::Error, Act::Error, Act::Shift(4)],
        vec![Act::Goto(31), Act::Error, Act::Error, Act::Error, Act::Error, Act::Error, Act::Error, Act::Error, Act::Error, Act::Error, Act::Error, Act::Error, Act::Error, Act::Error, Act::Error, Act::Error, Act::Error, Act::Error, Act::Shift(2), Act::Error, Act::Error, Act::Error, Act::Error, Act::Shift(3), Act::Error, Act::Error, Act::Error, Act::Shift(4)],
        vec![Act::Goto(32), Act::Error, Act::Error, Act::Error, Act::Error, Act::Error, Act::Error, Act::Error, Act::Error, Act::Error, Act::Error, Act::Error, Act::Error, Act::Error, Act::Error, Act::Error, Act::Error, Act::Error, Act::Shift(2), Act::Error, Act::Error, Act::Error, Act::Error, Act::Shift(3), Act::Error, Act::Error, Act::Error, Act::Shift(4)],
        vec![Act::Goto(33), Act::Error, Act::Error, Act::Error, Act::Error, Act::Error, Act::Error, Act::Error, Act::Error, Act::Error, Act::Error, Act::Error, Act::Error, Act::Error, Act::Error, Act::Error, Act::Error, Act::Error, Act::Shift(2), Act::Error, Act::Error, Act::Error, Act::Error, Act::Shift(3), Act::Error, Act::Error, Act::Error, Act::Shift(4)],
        vec![Act::Goto(34), Act::Error, Act::Error, Act::Error, Act::Error, Act::Error, Act::Error, Act::Error, Act::Error, Act::Error, Act::Error, Act::Error, Act::Error, Act::Error, Act::Error, Act::Error, Act::Error, Act::Error, Act::Shift(2), Act::Error, Act::Error, Act::Error, Act::Error, Act::Shift(3), Act::Error, Act::Error, Act::Error, Act::Shift(4)],
        vec![Act::Goto(35), Act::Error, Act::Error, Act::Error, Act::Error, Act::Error, Act::Error, Act::Error, Act::Error, Act::Error, Act::Error, Act::Error, Act::Error, Act::Error, Act::Error, Act::Error, Act::Error, Act::Error, Act::Shift(2), Act::Error, Act::Error, Act::Error, Act::Error, Act::Shift(3), Act::Error, Act::Error, Act::Error, Act::Shift(4)],
        vec![Act::Goto(36), Act::Error, Act::Error, Act::Error, Act::Error, Act::Error, Act::Error, Act::Error, Act::Error, Act::Error, Act::Error, Act::Error, Act::Error, Act::Error, Act::Error, Act::Error, Act::Error, Act::Error, Act::Shift(2), Act::Error, Act::Error, Act::Error, Act::Error, Act::Shift(3), Act::Error, Act::Error, Act::Error, Act::Shift(4)],
        vec![Act::Goto(37), Act::Error, Act::Error, Act::Error, Act::Error, Act::Error, Act::Error, Act::Error, Act::Error, Act::Error, Act::Error, Act::Error, Act::Error, Act::Error, Act::Error, Act::Error, Act::Error, Act::Error, Act::Shift(2), Act::Error, Act::Error, Act::Error, Act::Error, Act::Shift(3), Act::Error, Act::Error, Act::Error, Act::Shift(4)],
        vec![Act::Goto(38), Act::Error, Act::Error, Act::Error, Act::Error, Act::Error, Act::Error, Act::Error, Act::Error, Act::Error, Act::Error, Act::Error, Act::Error, Act::Error, Act::Error, Act::Error, Act::Error, Act::Error, Act::Shift(2), Act::Error, Act::Error, Act::Error, Act::Error, Act::Shift(3), Act::Error, Act::Error, Act::Error, Act::Shift(4)],
        vec![Act::Goto(39), Act::Error, Act::Error, Act::Error, Act::Error, Act::Error, Act::Error, Act::Error, Act::Error, Act::Error, Act::Error, Act::Error, Act::Error, Act::Error, Act::Error, Act::Error, Act::Error, Act::Error, Act::Shift(2), Act::Error, Act::Error, Act::Error, Act::Error, Act::Shift(3), Act::Error, Act::Error, Act::Error, Act::Shift(4)],
        vec![Act::Goto(40), Act::Error, Act::Error, Act::Error, Act::Error, Act::Error, Act::Error, Act::Error, Act::Error, Act::Error, Act::Error, Act::Error, Act::Error, Act::Error, Act::Error, Act::Error, Act::Error, Act::Error, Act::Shift(2), Act::Error, Act::Error, Act::Error, Act::Error, Act::Shift(3), Act::Error, Act::Error, Act::Error, Act::Shift(4)],
        vec![Act::Goto(41), Act::Error, Act::Error, Act::Error, Act::Error, Act::Error, Act::Error, Act::Error, Act::Error, Act::Error, Act::Error, Act::Error, Act::Error, Act::Error, Act::Error, Act::Error, Act::Error, Act::Error, Act::Shift(2), Act::Error, Act::Error, Act::Error, Act::Error, Act::Shift(3), Act::Error, Act::Error, Act::Error, Act::Shift(4)],
        vec![Act::Goto(42), Act::Error, Act::Error, Act::Error, Act::Error, Act::Error, Act::Error, Act::Error, Act::Error, Act::Error, Act::Error, Act::Error, Act::Error, Act::Error, Act::Error, Act::Error, Act::Error, Act::Error, Act::Shift(2), Act::Error, Act::Error, Act::Error, Act::Error, Act::Shift(3), Act::Error, Act::Error, Act::Error, Act::Shift(4)],
        vec![Act::Error, Act::Error, Act::Error, Act::Reduce(18), Act::Reduce(18), Act::Reduce(18), Act::Reduce(18), Act::Reduce(18), Act::Reduce(18), Act::Reduce(18), Act::Reduce(18), Act::Reduce(18), Act::Reduce(18), Act::Reduce(18), Act::Reduce(18), Act::Reduce(18), Act::Reduce(18), Act::Reduce(18), Act::Reduce(18), Act::Reduce(18), Act::Reduce(18), Act::Reduce(18), Act::Error, Act::Error, Act::Error, Act::Error, Act::Error, Act::Error],
        vec![Act::Error, Act::Error, Act::Error, Act::Reduce(19), Act::Reduce(19), Act::Reduce(19), Act::Reduce(19), Act::Reduce(19), Act::Reduce(19), Act::Reduce(19), Act::Reduce(19), Act::Reduce(19), Act::Reduce(19), Act::Reduce(19), Act::Reduce(19), Act::Reduce(19), Act::Reduce(19), Act::Reduce(19), Act::Reduce(19), Act::Reduce(19), Act::Reduce(19), Act::Reduce(19), Act::Error, Act::Error, Act::Error, Act::Error, Act::Error, Act::Error],
        vec![Act::Error, Act::Error, Act::Error, Act::Reduce(12), Act::Reduce(12), Act::Shift(6), Act::Shift(7), Act::Shift(8), Act::Shift(9), Act::Shift(10), Act::Shift(11), Act::Shift(12), Act::Shift(13), Act::Shift(14), Act::Shift(15), Act::Shift(16), Act::Shift(17), Act::Shift(18), Act::Shift(19), Act::Shift(20), Act::Shift(21), Act::Shift(22), Act::Error, Act::Error, Act::Error, Act::Error, Act::Error, Act::Error],
        vec![Act::Error, Act::Error, Act::Error, Act::Reduce(11), Act::Reduce(11), Act::Reduce(11), Act::Shift(7), Act::Shift(8), Act::Shift(9), Act::Shift(10), Act::Shift(11), Act::Shift(12), Act::Shift(13), Act::Shift(14), Act::Shift(15), Act::Shift(16), Act::Shift(17), Act::Shift(18), Act::Shift(19), Act::Shift(20), Act::Shift(21), Act::Shift(22), Act::Error, Act::Error, Act::Error, Act::Error, Act::Error, Act::Error],
        vec![Act::Error, Act::Error, Act::Error, Act::Reduce(14), Act::Reduce(14), Act::Reduce(14), Act::Reduce(14), Act::Shift(8), Act::Shift(9), Act::Shift(10), Act::Shift(11), Act::Shift(12), Act::Shift(13), Act::Shift(14), Act::Shift(15), Act::Shift(16), Act::Shift(17), Act::Shift(18), Act::Shift(19), Act::Shift(20), Act::Shift(21), Act::Shift(22), Act::Error, Act::Error, Act::Error, Act::Error, Act::Error, Act::Error],
        vec![Act::Error, Act::Error, Act::Error, Act::Reduce(15), Act::Reduce(15), Act::Reduce(15), Act::Reduce(15), Act::Reduce(15), Act::Shift(9), Act::Shift(10), Act::Shift(11), Act::Shift(12), Act::Shift(13), Act::Shift(14), Act::Shift(15), Act::Shift(16), Act::Shift(17), Act::Shift(18), Act::Shift(19), Act::Shift(20), Act::Shift(21), Act::Shift(22), Act::Error, Act::Error, Act::Error, Act::Error, Act::Error, Act::Error],
        vec![Act::Error, Act::Error, Act::Error, Act::Reduce(13), Act::Reduce(13), Act::Reduce(13), Act::Reduce(13), Act::Reduce(13), Act::Reduce(13), Act::Shift(10), Act::Shift(11), Act::Shift(12), Act::Shift(13), Act::Shift(14), Act::Shift(15), Act::Shift(16), Act::Shift(17), Act::Shift(18), Act::Shift(19), Act::Shift(20), Act::Shift(21), Act::Shift(22), Act::Error, Act::Error, Act::Error, Act::Error, Act::Error, Act::Error],
        vec![Act::Error, Act::Error, Act::Error, Act::Reduce(5), Act::Reduce(5), Act::Reduce(5), Act::Reduce(5), Act::Reduce(5), Act::Reduce(5), Act::Error, Act::Error, Act::Shift(12), Act::Shift(13), Act::Shift(14), Act::Shift(15), Act::Shift(16), Act::Shift(17), Act::Shift(18), Act::Shift(19), Act::Shift(20), Act::Shift(21), Act::Shift(22), Act::Error, Act::Error, Act::Error, Act::Error, Act::Error, Act::Error],
        vec![Act::Error, Act::Error, Act::Error, Act::Reduce(6), Act::Reduce(6), Act::Reduce(6), Act::Reduce(6), Act::Reduce(6), Act::Reduce(6), Act::Error, Act::Error, Act::Shift(12), Act::Shift(13), Act::Shift(14), Act::Shift(15), Act::Shift(16), Act::Shift(17), Act::Shift(18), Act::Shift(19), Act::Shift(20), Act::Shift(21), Act::Shift(22), Act::Error, Act::Error, Act::Error, Act::Error, Act::Error, Act::Error],
        vec![Act::Error, Act::Error, Act::Error, Act::Reduce(9), Act::Reduce(9), Act::Reduce(9), Act::Reduce(9), Act::Reduce(9), Act::Reduce(9), Act::Reduce(9), Act::Reduce(9), Act::Error, Act::Error, Act::Error, Act::Error, Act::Shift(16), Act::Shift(17), Act::Shift(18), Act::Shift(19), Act::Shift(20), Act::Shift(21), Act::Shift(22), Act::Error, Act::Error, Act::Error, Act::Error, Act::Error, Act::Error],
        vec![Act::Error, Act::Error, Act::Error, Act::Reduce(10), Act::Reduce(10), Act::Reduce(10), Act::Reduce(10), Act::Reduce(10), Act::Reduce(10), Act::Reduce(10), Act::Reduce(10), Act::Error, Act::Error, Act::Error, Act::Error, Act::Shift(16), Act::Shift(17), Act::Shift(18), Act::Shift(19), Act::Shift(20), Act::Shift(21), Act::Shift(22), Act::Error, Act::Error, Act::Error, Act::Error, Act::Error, Act::Error],
        vec![Act::Error, Act::Error, Act::Error, Act::Reduce(7), Act::Reduce(7), Act::Reduce(7), Act::Reduce(7), Act::Reduce(7), Act::Reduce(7), Act::Reduce(7), Act::Reduce(7), Act::Error, Act::Error, Act::Error, Act::Error, Act::Shift(16), Act::Shift(17), Act::Shift(18), Act::Shift(19), Act::Shift(20), Act::Shift(21), Act::Shift(22), Act::Error, Act::Error, Act::Error, Act::Error, Act::Error, Act::Error],
        vec![Act::Error, Act::Error, Act::Error, Act::Reduce(8), Act::Reduce(8), Act::Reduce(8), Act::Reduce(8), Act::Reduce(8), Act::Reduce(8), Act::Reduce(8), Act::Reduce(8), Act::Error, Act::Error, Act::Error, Act::Error, Act::Shift(16), Act::Shift(17), Act::Shift(18), Act::Shift(19), Act::Shift(20), Act::Shift(21), Act::Shift(22), Act::Error, Act::Error, Act::Error, Act::Error, Act::Error, Act::Error],
        vec![Act::Error, Act::Error, Act::Error, Act::Reduce(16), Act::Reduce(16), Act::Reduce(16), Act::Reduce(16), Act::Reduce(16), Act::Reduce(16), Act::Reduce(16), Act::Reduce(16), Act::Reduce(16), Act::Reduce(16), Act::Reduce(16), Act::Reduce(16), Act::Reduce(16), Act::Reduce(16), Act::Shift(18), Act::Shift(19), Act::Shift(20), Act::Shift(21), Act::Shift(22), Act::Error, Act::Error, Act::Error, Act::Error, Act::Error, Act::Error],
        vec![Act::Error, Act::Error, Act::Error, Act::Reduce(17), Act::Reduce(17), Act::Reduce(17), Act::Reduce(17), Act::Reduce(17), Act::Reduce(17), Act::Reduce(17), Act::Reduce(17), Act::Reduce(17), Act::Reduce(17), Act::Reduce(17), Act::Reduce(17), Act::Reduce(17), Act::Reduce(17), Act::Shift(18), Act::Shift(19), Act::Shift(20), Act::Shift(21), Act::Shift(22), Act::Error, Act::Error, Act::Error, Act::Error, Act::Error, Act::Error],
        vec![Act::Error, Act::Error, Act::Error, Act::Reduce(0), Act::Reduce(0), Act::Reduce(0), Act::Reduce(0), Act::Reduce(0), Act::Reduce(0), Act::Reduce(0), Act::Reduce(0), Act::Reduce(0), Act::Reduce(0), Act::Reduce(0), Act::Reduce(0), Act::Reduce(0), Act::Reduce(0), Act::Reduce(0), Act::Reduce(0), Act::Shift(20), Act::Shift(21), Act::Shift(22), Act::Error, Act::Error, Act::Error, Act::Error, Act::Error, Act::Error],
        vec![Act::Error, Act::Error, Act::Error, Act::Reduce(1), Act::Reduce(1), Act::Reduce(1), Act::Reduce(1), Act::Reduce(1), Act::Reduce(1), Act::Reduce(1), Act::Reduce(1), Act::Reduce(1), Act::Reduce(1), Act::Reduce(1), Act::Reduce(1), Act::Reduce(1), Act::Reduce(1), Act::Reduce(1), Act::Reduce(1), Act::Shift(20), Act::Shift(21), Act::Shift(22), Act::Error, Act::Error, Act::Error, Act::Error, Act::Error, Act::Error],
        vec![Act::Error, Act::Error, Act::Error, Act::Reduce(2), Act::Reduce(2), Act::Reduce(2), Act::Reduce(2), Act::Reduce(2), Act::Reduce(2), Act::Reduce(2), Act::Reduce(2), Act::Reduce(2), Act::Reduce(2), Act::Reduce(2), Act::Reduce(2), Act::Reduce(2), Act::Reduce(2), Act::Reduce(2), Act::Reduce(2), Act::Reduce(2), Act::Reduce(2), Act::Reduce(2), Act::Error, Act::Error, Act::Error, Act::Error, Act::Error, Act::Error],
        vec![Act::Error, Act::Error, Act::Error, Act::Reduce(3), Act::Reduce(3), Act::Reduce(3), Act::Reduce(3), Act::Reduce(3), Act::Reduce(3), Act::Reduce(3), Act::Reduce(3), Act::Reduce(3), Act::Reduce(3), Act::Reduce(3), Act::Reduce(3), Act::Reduce(3), Act::Reduce(3), Act::Reduce(3), Act::Reduce(3), Act::Reduce(3), Act::Reduce(3), Act::Reduce(3), Act::Error, Act::Error, Act::Error, Act::Error, Act::Error, Act::Error],
        vec![Act::Error, Act::Error, Act::Error, Act::Reduce(4), Act::Reduce(4), Act::Reduce(4), Act::Reduce(4), Act::Reduce(4), Act::Reduce(4), Act::Reduce(4), Act::Reduce(4), Act::Reduce(4), Act::Reduce(4), Act::Reduce(4), Act::Reduce(4), Act::Reduce(4), Act::Reduce(4), Act::Reduce(4), Act::Reduce(4), Act::Reduce(4), Act::Reduce(4), Act::Reduce(4), Act::Error, Act::Error, Act::Error, Act::Error, Act::Error, Act::Error],
    ];
    ParseTables { prod, edge }
}

fn lex_all<'a>(input: &'a [u8], dfa: &DfaTables) -> Vec<Token<'a>> {
    let mut lexer = Lexer::new(input);
    let mut tokens = Vec::new();
    while let Some(t) = lexer.next(dfa) {
        let end = t.ty == dfa.eof;
        tokens.push(t);
        if end {
            break;
        }
    }
    tokens
}

enum Value {
    Token(usize),
    Num(i64),
}

fn num(v: Option<Value>) -> i64 {
    match v {
        Some(Value::Num(x)) => x,
        _ => panic!("expected a number"),
    }
}

fn eval(events: &[Event], tokens: &[Token]) -> i64 {
    let mut stk: Vec<Value> = Vec::new();
    for e in events {
        match *e {
            Event::Shift(i) => stk.push(Value::Token(i)),
            Event::Reduce(r) => {
                let v = match r {
                    0..=17 => {
                        let r3 = num(stk.pop());
                        stk.pop();
                        let l = num(stk.pop());
                        match r {
                            0 => l + r3,
                            1 => l - r3,
                            2 => l * r3,
                            3 => l / r3,
                            4 => l % r3,
                            5 => (l == r3) as i64,
                            6 => (l != r3) as i64,
                            7 => (l < r3) as i64,
                            8 => (l > r3) as i64,
                            9 => (l <= r3) as i64,
                            10 => (l >= r3) as i64,
                            11 => ((l != 0) && (r3 != 0)) as i64,
                            12 => ((l != 0) || (r3 != 0)) as i64,
                            13 => l & r3,
                            14 => l | r3,
                            15 => l ^ r3,
                            16 => l << r3,
                            _ => l >> r3,
                        }
                    }
                    18 => {
                        let x = num(stk.pop());
                        stk.pop();
                        -x
                    }
                    19 => {
                        let x = num(stk.pop());
                        stk.pop();
                        (x == 0) as i64
                    }
                    20 => match stk.pop() {
                        Some(Value::Token(i)) => std::str::from_utf8(tokens[i].piece).unwrap().parse().unwrap(),
                        _ => panic!("expected a token"),
                    },
                    _ => num(stk.pop()),
                };
                stk.push(Value::Num(v));
            }
        }
    }
    num(stk.pop())
}

fn calc_eval(input: &[u8]) -> Result<i64, Option<usize>> {
    let dfa = calc_dfa();
    let tokens = lex_all(input, &dfa);
    let types: Vec<u32> = tokens.iter().map(|t| t.ty).collect();
    match parse(&calc_tables(), &types, usize::MAX) {
        ParseOutcome::Accept(events) => Ok(eval(&events, &tokens)),
        ParseOutcome::Reject(at) => Err(at),
        _ => panic!("the tables cannot take this input"),
    }
}

#[test]
fn calc() {
    assert_eq!(calc_eval(b"1 + 2 * 3").unwrap(), 7);
}

#[test]
fn calc_precedence_and_unary() {
    assert_eq!(calc_eval(b"2 * 3 + 4").unwrap(), 10);
    assert_eq!(calc_eval(b"-4 + 10 % 3").unwrap(), -3);
    assert_eq!(calc_eval(b"1 << 3 == 8").unwrap(), 1);
}

#[test]
fn calc_rejects_bad_input() {
    assert_eq!(calc_eval(b"1 + * 2"), Err(Some(2)));
}

#[test]
fn calc_lexer_positions() {
    let dfa = calc_dfa();
    let tokens = lex_all(b"12 +\n 3", &dfa);
    assert_eq!(tokens.len(), 4);
    assert_eq!((tokens[0].ty, tokens[0].piece, tokens[0].line, tokens[0].col), (INTCONST, &b"12"[..], 1, 1));
    assert_eq!((tokens[1].ty, tokens[1].line, tokens[1].col), (ADD, 1, 4));
    assert_eq!((tokens[2].ty, tokens[2].piece, tokens[2].line, tokens[2].col), (INTCONST, &b"3"[..], 2, 2));
    assert_eq!(tokens[3].ty, K_EOF);
}

#[test]
fn calc_lexer_no_match() {
    let dfa = calc_dfa();
    let mut lexer = Lexer::new(b"1 $");
    assert_eq!(lexer.next(&dfa).map(|t| t.ty), Some(INTCONST));
    assert!(lexer.next(&dfa).is_none());
}

#[test]
fn calc_lexer_trailing_space_gives_eof() {
    let dfa = calc_dfa();
    let mut lexer = Lexer::new(b"7  \n ");
    let first = lexer.next(&dfa).unwrap();
    assert_eq!((first.ty, first.piece), (INTCONST, &b"7"[..]));
    let last = lexer.next(&dfa).unwrap();
    assert_eq!((last.ty, last.piece, last.line, last.col), (K_EOF, &b""[..], 2, 2));
}
