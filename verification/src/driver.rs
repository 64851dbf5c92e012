use vstd::prelude::*;
use crate::grammar::Grammar;
use crate::collections::{act_vec_items, act_vec_len, act_vec_get, prod_vec_len};
use crate::table::{TableEntry, acts_view};
use crate::lr0::dots_fit;

verus! {

/// An action of a parser's table: on a term, shift to a state, reduce by a production, accept
/// or fail; on a non-term, go to a state.
#[derive(Copy, Clone, Debug, PartialEq, Eq, Structural)]
pub enum Act {
    Shift(u32),
    Reduce(u32),
    Goto(u32),
    Acc,
    Error,
}

/// The tables of an LR parser: `prod[r]` is the token of the left-hand side of production `r`
/// and the length of its right-hand side; `edge[s][x]` is the action of state `s` on token `x`.
pub struct ParseTables {
    pub prod: Vec<(u32, u32)>,
    pub edge: Vec<Vec<Act>>,
}

/// A step of a parse: the shift of the token at an index of the input, or a reduction by a
/// production.
#[derive(Copy, Clone, Debug, PartialEq, Eq, Structural)]
pub enum Event {
    Shift(usize),
    Reduce(u32),
}

/// How a parse ends: accepted, with its steps; rejected at the token at an index (`None` when
/// the input ran out first); on an action the tables cannot take (a missing entry, or a
/// reduction that the state stack cannot hold); or out of steps.
pub enum ParseOutcome {
    Accept(Vec<Event>),
    Reject(Option<usize>),
    Stuck,
    OutOfSteps,
}

pub enum OutcomeView {
    Accept(Seq<Event>),
    Reject(Option<usize>),
    Stuck,
    OutOfSteps,
}

impl ParseOutcome {
    pub open spec fn view(&self) -> OutcomeView {
        match self {
            ParseOutcome::Accept(v) => OutcomeView::Accept(v@),
            ParseOutcome::Reject(o) => OutcomeView::Reject(*o),
            ParseOutcome::Stuck => OutcomeView::Stuck,
            ParseOutcome::OutOfSteps => OutcomeView::OutOfSteps,
        }
    }
}

/// Whether the tables have an action for state `st` on token `x`.
pub open spec fn has_entry(t: &ParseTables, st: int, x: int) -> bool {
    0 <= st < t.edge@.len() && 0 <= x < t.edge@[st]@.len()
}

/// The parse of the tokens of types `toks` from position `pos`, with the state stack `stack`
/// and the steps `events` so far, within `fuel` steps.
pub open spec fn run(t: &ParseTables, toks: Seq<u32>, stack: Seq<u32>, pos: int, events: Seq<Event>, fuel: nat) -> OutcomeView
    decreases fuel,
{
    if fuel == 0 {
        OutcomeView::OutOfSteps
    } else if pos < 0 || pos >= toks.len() {
        OutcomeView::Reject(None)
    } else if stack.len() == 0 || !has_entry(t, stack.last() as int, toks[pos] as int) {
        OutcomeView::Stuck
    } else {
        match t.edge@[stack.last() as int]@[toks[pos] as int] {
            Act::Shift(s) => if pos + 1 >= toks.len() {
                OutcomeView::Reject(None)
            } else {
                run(t, toks, stack.push(s), pos + 1, events.push(Event::Shift(pos as usize)), (fuel - 1) as nat)
            },
            Act::Reduce(r) => if r >= t.prod@.len() || t.prod@[r as int].1 >= stack.len() {
                OutcomeView::Stuck
            } else {
                let st2 = stack.take(stack.len() - t.prod@[r as int].1);
                let lhs = t.prod@[r as int].0;
                if !has_entry(t, st2.last() as int, lhs as int) {
                    OutcomeView::Stuck
                } else {
                    match t.edge@[st2.last() as int]@[lhs as int] {
                        Act::Goto(nx) => run(t, toks, st2.push(nx), pos, events.push(Event::Reduce(r)), (fuel - 1) as nat),
                        _ => OutcomeView::Stuck,
                    }
                }
            },
            Act::Acc => OutcomeView::Accept(events),
            Act::Error => OutcomeView::Reject(Some(pos as usize)),
            Act::Goto(_) => OutcomeView::Stuck,
        }
    }
}

/// Runs the LR parser of `t` over tokens of types `toks`, from state 0, for at most
/// `max_steps` shifts and reductions.
pub fn parse(t: &ParseTables, toks: &[u32], max_steps: usize) -> (r: ParseOutcome)
    ensures
        r@ == run(t, toks@, seq![0u32], 0, Seq::empty(), max_steps as nat),
{
    let mut stack: Vec<u32> = Vec::new();
    stack.push(0);
    let mut events: Vec<Event> = Vec::new();
    let mut pos: usize = 0;
    let mut fuel: usize = max_steps;
    loop
        invariant
            run(t, toks@, seq![0u32], 0, Seq::empty(), max_steps as nat) == run(t, toks@, stack@, pos as int, events@, fuel as nat),
        decreases fuel,
    {
        if fuel == 0 {
            return ParseOutcome::OutOfSteps;
        }
        if pos >= toks.len() {
            return ParseOutcome::Reject(None);
        }
        if stack.len() == 0 {
            return ParseOutcome::Stuck;
        }
        let st = stack[stack.len() - 1];
        let x = toks[pos];
        if st as usize >= t.edge.len() || x as usize >= t.edge[st as usize].len() {
            return ParseOutcome::Stuck;
        }
        match t.edge[st as usize][x as usize] {
            Act::Shift(s) => {
                if pos + 1 >= toks.len() {
                    return ParseOutcome::Reject(None);
                }
                stack.push(s);
                events.push(Event::Shift(pos));
                pos = pos + 1;
            },
            Act::Reduce(r) => {
                if r as usize >= t.prod.len() || t.prod[r as usize].1 as usize >= stack.len() {
                    return ParseOutcome::Stuck;
                }
                let (lhs, n) = t.prod[r as usize];
                let keep = stack.len() - n as usize;
                let ghost old_stack = stack@;
                stack.truncate(keep);
                assert(stack@ =~= old_stack.take(keep as int));
                let cur = stack[stack.len() - 1];
                if cur as usize >= t.edge.len() || lhs as usize >= t.edge[cur as usize].len() {
                    return ParseOutcome::Stuck;
                }
                match t.edge[cur as usize][lhs as usize] {
                    Act::Goto(nx) => {
                        stack.push(nx);
                        events.push(Event::Reduce(r));
                    },
                    _ => {
                        return ParseOutcome::Stuck;
                    },
                }
            },
            Act::Acc => {
                return ParseOutcome::Accept(events);
            },
            Act::Error => {
                return ParseOutcome::Reject(Some(pos));
            },
            Act::Goto(_) => {
                return ParseOutcome::Stuck;
            },
        }
        fuel = fuel - 1;
    }
}

/// The action that the parser takes from a table entry's actions: the first one (the chosen
/// one, once conflicts are solved), or `Error` where there is none.
pub open spec fn term_edge(acts: Seq<crate::table::Act>) -> Act {
    if acts.len() == 0 {
        Act::Error
    } else {
        match acts[0] {
            crate::table::Act::Acc => Act::Acc,
            crate::table::Act::Shift(s) => Act::Shift(s),
            crate::table::Act::Reduce(r) => Act::Reduce(r),
        }
    }
}

pub open spec fn nt_edge(goto: Option<u32>) -> Act {
    match goto {
        Some(s) => Act::Goto(s),
        None => Act::Error,
    }
}

/// The tables of the parser of `g` from its parsing table: one row per state over all tokens,
/// and one `(left-hand side token, length)` per production.
pub fn mk_parse_tables(g: &Grammar, table: &Vec<TableEntry>) -> (r: ParseTables)
    requires
        g.wf(),
        dots_fit(g),
        forall|i: int| 0 <= i < table@.len() ==> (#[trigger] table@[i]).act@.len() == g.terms@.len() && table@[i].goto@.len() == g.nt@.len(),
    ensures
        r.prod@.len() == g.prod@.len(),
        forall|p: int|
            0 <= p < g.prod@.len() ==> #[trigger] r.prod@[p] == ((g.prod@[p].lhs + g.terms@.len()) as u32, g.rhs(p).len() as u32),
        r.edge@.len() == table@.len(),
        forall|i: int|
            0 <= i < table@.len() ==> {
                &&& (#[trigger] r.edge@[i])@.len() == g.token_count()
                &&& forall|x: int| 0 <= x < g.terms@.len() ==> #[trigger] r.edge@[i]@[x] == term_edge(acts_view(table@[i])[x])
                &&& forall|x: int|
                    g.terms@.len() <= x < g.token_count() ==> #[trigger] r.edge@[i]@[x] == nt_edge(table@[i].goto@[x - g.terms@.len()])
            },
{
    let tn = g.terms.len();
    let nn = g.nt.len();
    let mut prod: Vec<(u32, u32)> = Vec::new();
    let mut p: usize = 0;
    while p < g.prod.len()
        invariant
            g.wf(),
            dots_fit(g),
            tn == g.terms@.len(),
            p <= g.prod@.len(),
            prod@.len() == p,
            forall|q: int| 0 <= q < p ==> #[trigger] prod@[q] == ((g.prod@[q].lhs + g.terms@.len()) as u32, g.rhs(q).len() as u32),
        decreases g.prod@.len() - p,
    {
        assert(g.prod@[p as int].id == p);
        assert(g.rhs(p as int).len() < u32::MAX);
        let lhs = g.prod[p].lhs as usize + tn;
        let len = prod_vec_len(&g.prod[p].rhs);
        prod.push((lhs as u32, len as u32));
        p = p + 1;
    }
    let mut edge: Vec<Vec<Act>> = Vec::new();
    let mut s: usize = 0;
    while s < table.len()
        invariant
            g.wf(),
            tn == g.terms@.len(),
            nn == g.nt@.len(),
            forall|i: int| 0 <= i < table@.len() ==> (#[trigger] table@[i]).act@.len() == g.terms@.len() && table@[i].goto@.len() == g.nt@.len(),
            s <= table@.len(),
            edge@.len() == s,
            forall|i: int|
                0 <= i < s ==> {
                    &&& (#[trigger] edge@[i])@.len() == g.token_count()
                    &&& forall|x: int| 0 <= x < g.terms@.len() ==> #[trigger] edge@[i]@[x] == term_edge(acts_view(table@[i])[x])
                    &&& forall|x: int|
                        g.terms@.len() <= x < g.token_count() ==> #[trigger] edge@[i]@[x] == nt_edge(table@[i].goto@[x - g.terms@.len()])
                },
        decreases table@.len() - s,
    {
        let e = &table[s];
        let mut row: Vec<Act> = Vec::new();
        let mut x: usize = 0;
        while x < tn
            invariant
                tn == g.terms@.len(),
                *e == table@[s as int],
                e.act@.len() == tn,
                x <= tn,
                row@.len() == x,
                forall|y: int| 0 <= y < x ==> #[trigger] row@[y] == term_edge(acts_view(table@[s as int])[y]),
            decreases tn - x,
        {
            let acts = &e.act[x];
            let a = if act_vec_len(acts) == 0 {
                Act::Error
            } else {
                match act_vec_get(acts, 0) {
                    crate::table::Act::Acc => Act::Acc,
                    crate::table::Act::Shift(v) => Act::Shift(v),
                    crate::table::Act::Reduce(v) => Act::Reduce(v),
                }
            };
            row.push(a);
            x = x + 1;
        }
        let mut y: usize = 0;
        while y < nn
            invariant
                tn == g.terms@.len(),
                nn == g.nt@.len(),
                *e == table@[s as int],
                e.goto@.len() == nn,
                y <= nn,
                row@.len() == tn + y,
                forall|z: int| 0 <= z < tn ==> #[trigger] row@[z] == term_edge(acts_view(table@[s as int])[z]),
                forall|z: int| tn <= z < tn + y ==> #[trigger] row@[z] == nt_edge(table@[s as int].goto@[z - tn]),
            decreases nn - y,
        {
            let a = match e.goto[y] {
                Some(v) => Act::Goto(v),
                None => Act::Error,
            };
            row.push(a);
            y = y + 1;
        }
        edge.push(row);
        s = s + 1;
    }
    ParseTables { prod, edge }
}

} // verus!
