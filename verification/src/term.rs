//! Flat term form of patterns, exchanged with the e-graph normaliser.
//!
//! A term is a list of nodes in which every node refers to its children by
//! their index; the last node is the root. Writing puts children before
//! their parents; reading accepts them in any order, as long as they form no
//! cycle. Patterns are written into this form before equality saturation and
//! read back from the extracted best term afterwards. A call is written as a
//! call node that refers to the symbol of its head and to its arguments, and
//! reading a one-element sequence back yields its element.

use vstd::prelude::*;
use vstd::string::StrSliceExecFns;

use crate::ast::{Op, Pattern, SpecOp, SpecPattern, patterns_model, strings_model};
use crate::error::RefrainError;

verus! {

/// A node of a term.
#[derive(Debug, Clone, PartialEq, Eq)]
pub enum TermNode {
    Note(usize, usize),
    Loop(usize, usize),
    Diff(usize, usize),
    Quotient(Vec<usize>),
    Sequence(Vec<usize>),
    Call(usize, Vec<usize>),
    Num(u32),
    Sym(String),
}

/// Model of a term node.
#[verifier::ext_equal]
pub enum SpecNode {
    Note(usize, usize),
    Loop(usize, usize),
    Diff(usize, usize),
    Quotient(Seq<usize>),
    Sequence(Seq<usize>),
    Call(usize, Seq<usize>),
    Num(u32),
    Sym(Seq<char>),
}

impl View for TermNode {
    type V = SpecNode;

    open spec fn view(&self) -> SpecNode {
        match self {
            TermNode::Note(p, d) => SpecNode::Note(*p, *d),
            TermNode::Loop(c, b) => SpecNode::Loop(*c, *b),
            TermNode::Diff(x, t) => SpecNode::Diff(*x, *t),
            TermNode::Quotient(ids) => SpecNode::Quotient(ids@),
            TermNode::Sequence(ids) => SpecNode::Sequence(ids@),
            TermNode::Call(h, ids) => SpecNode::Call(*h, ids@),
            TermNode::Num(n) => SpecNode::Num(*n),
            TermNode::Sym(s) => SpecNode::Sym(s@),
        }
    }
}

/// The models of a list of nodes.
pub open spec fn nodes_model(ns: Seq<TermNode>) -> Seq<SpecNode> {
    ns.map_values(|n: TermNode| n@)
}

/// The nodes that writing pattern `p` appends to a term of `base` nodes;
/// the root of `p` is the last of them.
pub open spec fn encode(p: SpecPattern, base: nat) -> Seq<SpecNode>
    decreases p,
{
    match p {
        SpecPattern::Op(op) => match op {
            SpecOp::Note { pitch, dur } => seq![
                SpecNode::Sym(pitch),
                SpecNode::Sym(dur),
                SpecNode::Note(base as usize, (base + 1) as usize),
            ],
            SpecOp::Loop { count, body } => {
                let b = encode(*body, base + 1);
                seq![SpecNode::Num(count)] + b + seq![
                    SpecNode::Loop(base as usize, (base + b.len()) as usize),
                ]
            },
            SpecOp::Diff { x, t } => seq![
                SpecNode::Sym(x),
                SpecNode::Sym(t),
                SpecNode::Diff(base as usize, (base + 1) as usize),
            ],
            SpecOp::Quotient { rels } => rels.map_values(|r: Seq<char>| SpecNode::Sym(r)) + seq![
                SpecNode::Quotient(Seq::new(rels.len(), |k: int| (base + k) as usize)),
            ],
            SpecOp::Sym(s) => seq![SpecNode::Sym(s)],
            SpecOp::Call { head, args } => {
                let (ns, roots) = encode_list(args, base + 1);
                seq![SpecNode::Sym(head)] + ns + seq![SpecNode::Call(base as usize, roots)]
            },
        },
        SpecPattern::Sequence(items) => {
            let (ns, roots) = encode_list(items, base);
            ns + seq![SpecNode::Sequence(roots)]
        },
    }
}

/// The nodes that writing the patterns `ps` one after the other appends to
/// a term of `base` nodes, with the roots of the patterns.
pub open spec fn encode_list(ps: Seq<SpecPattern>, base: nat) -> (Seq<SpecNode>, Seq<usize>)
    decreases ps,
{
    if ps.len() == 0 {
        (Seq::empty(), Seq::empty())
    } else {
        let (ns, roots) = encode_list(ps.drop_last(), base);
        let e = encode(ps.last(), base + ns.len());
        (ns + e, roots.push((base + ns.len() + e.len() - 1) as usize))
    }
}

pub proof fn lemma_encode_nonempty(p: SpecPattern, base: nat)
    ensures
        encode(p, base).len() >= 1,
{
}

/// Writes pattern `p` at the end of term `b`; returns the index of its root.
pub fn pattern_to_expr(p: &Pattern, b: &mut Vec<TermNode>) -> (id: usize)
    ensures
        nodes_model(final(b)@) == nodes_model(old(b)@) + encode(p@, old(b)@.len()),
        id + 1 == final(b)@.len(),
    decreases p,
{
    let ghost base = b@.len();
    let ghost old_b = nodes_model(b@);
    match p {
        Pattern::Op(Op::Note { pitch, dur }) => {
            let ps = push_node(b, TermNode::Sym(pitch.clone()));
            let ds = push_node(b, TermNode::Sym(dur.clone()));
            let id = push_node(b, TermNode::Note(ps, ds));
            assert(nodes_model(b@) =~= old_b + encode(p@, base));
            id
        },
        Pattern::Op(Op::Loop { count, body }) => {
            let n = push_node(b, TermNode::Num(*count));
            let ghost mid = nodes_model(b@);
            let body_id = pattern_to_expr(body, b);
            let id = push_node(b, TermNode::Loop(n, body_id));
            proof {
                let eb = encode(body@, base + 1);
                assert(nodes_model(b@) =~= old_b + (seq![SpecNode::Num(*count)] + eb + seq![
                    SpecNode::Loop(base as usize, (base + eb.len()) as usize),
                ]));
            }
            id
        },
        Pattern::Op(Op::Diff { x, t }) => {
            let xs = push_node(b, TermNode::Sym(x.clone()));
            let ts = push_node(b, TermNode::Sym(t.clone()));
            let id = push_node(b, TermNode::Diff(xs, ts));
            assert(nodes_model(b@) =~= old_b + encode(p@, base));
            id
        },
        Pattern::Op(Op::Quotient { rels }) => {
            let mut ids: Vec<usize> = Vec::new();
            let mut i: usize = 0;
            while i < rels.len()
                invariant
                    i <= rels@.len(),
                    b@.len() == base + i,
                    nodes_model(b@) == old_b + strings_model(rels@.take(i as int)).map_values(
                        |r: Seq<char>| SpecNode::Sym(r),
                    ),
                    ids@ == Seq::new(i as nat, |k: int| (base + k) as usize),
                decreases rels@.len() - i,
            {
                let ghost prev = nodes_model(b@);
                let id = push_node(b, TermNode::Sym(rels[i].clone()));
                ids.push(id);
                assert(strings_model(rels@.take(i + 1)).map_values(|r: Seq<char>| SpecNode::Sym(r))
                    =~= strings_model(rels@.take(i as int)).map_values(|r: Seq<char>| SpecNode::Sym(r)).push(
                    SpecNode::Sym(rels@[i as int]@),
                ));
                i = i + 1;
            }
            let ghost nids = ids@;
            let id = push_node(b, TermNode::Quotient(ids));
            assert(rels@.take(rels@.len() as int) =~= rels@);
            assert(strings_model(rels@).map_values(|r: Seq<char>| SpecNode::Sym(r)) =~= strings_model(
                rels@,
            ).map_values(|r: Seq<char>| SpecNode::Sym(r)));
            assert(nodes_model(b@) =~= old_b + encode(p@, base));
            id
        },
        Pattern::Op(Op::Sym(s)) => {
            let id = push_node(b, TermNode::Sym(s.clone()));
            assert(nodes_model(b@) =~= old_b + encode(p@, base));
            id
        },
        Pattern::Op(Op::Call { head, args }) => {
            let h = push_node(b, TermNode::Sym(head.clone()));
            let roots = push_patterns(args, b);
            let id = push_node(b, TermNode::Call(h, roots));
            assert(nodes_model(b@) =~= old_b + encode(p@, base));
            id
        },
        Pattern::Sequence(items) => {
            let roots = push_patterns(items, b);
            let id = push_node(b, TermNode::Sequence(roots));
            assert(nodes_model(b@) =~= old_b + encode(p@, base));
            id
        },
    }
}

/// Writes the patterns `ps` one after the other at the end of term `b`;
/// returns the indices of their roots.
fn push_patterns(ps: &Vec<Pattern>, b: &mut Vec<TermNode>) -> (roots: Vec<usize>)
    ensures
        nodes_model(final(b)@) == nodes_model(old(b)@) + encode_list(
            patterns_model(ps@),
            old(b)@.len(),
        ).0,
        roots@ == encode_list(patterns_model(ps@), old(b)@.len()).1,
    decreases ps@,
{
    let ghost base = b@.len();
    let ghost old_b = nodes_model(b@);
    let mut roots: Vec<usize> = Vec::new();
    let mut i: usize = 0;
    proof {
        crate::ast::lemma_patterns_model(ps@);
        assert(patterns_model(ps@.take(0)) =~= Seq::<SpecPattern>::empty());
    }
    while i < ps.len()
        invariant
            i <= ps@.len(),
            nodes_model(b@) == old_b + encode_list(patterns_model(ps@.take(i as int)), base).0,
            roots@ == encode_list(patterns_model(ps@.take(i as int)), base).1,
            b@.len() == base + encode_list(patterns_model(ps@.take(i as int)), base).0.len(),
        decreases ps@.len() - i,
    {
        let ghost pre = patterns_model(ps@.take(i as int));
        let ghost mid = nodes_model(b@);
        let r = pattern_to_expr(&ps[i], b);
        roots.push(r);
        proof {
            assert(ps@.take(i + 1).drop_last() =~= ps@.take(i as int));
            crate::ast::lemma_patterns_model(ps@.take(i + 1));
            crate::ast::lemma_patterns_model(ps@.take(i as int));
            assert(patterns_model(ps@.take(i + 1)).drop_last() =~= pre);
            assert(patterns_model(ps@.take(i + 1)).last() == ps@[i as int]@);
            lemma_encode_nonempty(ps@[i as int]@, base + encode_list(pre, base).0.len());
            let post = patterns_model(ps@.take(i + 1));
            let ns = encode_list(pre, base).0;
            let e = encode(ps@[i as int]@, base + ns.len());
            assert(nodes_model(b@).len() == b@.len());
            assert(nodes_model(b@) == old_b + ns + e);
            assert(b@.len() == base + ns.len() + e.len());
            assert(encode_list(post, base) == (ns + e, encode_list(pre, base).1.push(
                (base + ns.len() + e.len() - 1) as usize,
            )));
        }
        i = i + 1;
    }
    assert(ps@.take(ps@.len() as int) =~= ps@);
    roots
}

/// Appends a node to a term; returns its index.
fn push_node(b: &mut Vec<TermNode>, n: TermNode) -> (id: usize)
    ensures
        nodes_model(final(b)@) == nodes_model(old(b)@).push(n@),
        final(b)@.len() == old(b)@.len() + 1,
        id == old(b)@.len(),
{
    b.push(n);
    assert(nodes_model(b@) =~= nodes_model(old(b)@).push(n@));
    b.len() - 1
}

/// The character of a decimal digit.
pub open spec fn digit_char(d: nat) -> char {
    (48 + d) as char
}

/// The decimal writing of a number.
pub open spec fn decimal(n: nat) -> Seq<char>
    decreases n,
{
    if n < 10 {
        seq![digit_char(n)]
    } else {
        decimal(n / 10).push(digit_char(n % 10))
    }
}

/// The symbol at index `id` of a term.
pub open spec fn sym_at_spec(nodes: Seq<SpecNode>, id: int) -> Option<Seq<char>> {
    if 0 <= id < nodes.len() {
        match nodes[id] {
            SpecNode::Sym(s) => Some(s),
            _ => None,
        }
    } else {
        None
    }
}

/// The number at index `id` of a term.
pub open spec fn num_at_spec(nodes: Seq<SpecNode>, id: int) -> Option<u32> {
    if 0 <= id < nodes.len() {
        match nodes[id] {
            SpecNode::Num(n) => Some(n),
            _ => None,
        }
    } else {
        None
    }
}

/// The symbols at the given indices of a term, when all are symbols.
pub open spec fn syms_at_spec(nodes: Seq<SpecNode>, ids: Seq<usize>) -> Option<Seq<Seq<char>>>
    decreases ids.len(),
{
    if ids.len() == 0 {
        Some(Seq::empty())
    } else {
        match (sym_at_spec(nodes, ids[0] as int), syms_at_spec(nodes, ids.drop_first())) {
            (Some(s), Some(rest)) => Some(seq![s] + rest),
            _ => None,
        }
    }
}

/// The pattern read back from the node at index `id` of a term in which
/// every child comes before its parent (the order in which terms are
/// written).
pub open spec fn decode_ordered(nodes: Seq<SpecNode>, id: int) -> Option<SpecPattern>
    decreases id + 1, 0int,
{
    if !(0 <= id < nodes.len()) {
        None
    } else {
        match nodes[id] {
            SpecNode::Note(p, d) => match (sym_at_spec(nodes, p as int), sym_at_spec(nodes, d as int)) {
                (Some(pitch), Some(dur)) => Some(SpecPattern::Op(SpecOp::Note { pitch, dur })),
                _ => None,
            },
            SpecNode::Loop(c, b) => match num_at_spec(nodes, c as int) {
                Some(count) => if b < id {
                    match decode_ordered(nodes, b as int) {
                        Some(body) => Some(SpecPattern::Op(SpecOp::Loop { count, body: Box::new(body) })),
                        None => None,
                    }
                } else {
                    None
                },
                None => None,
            },
            SpecNode::Diff(x, t) => match (sym_at_spec(nodes, x as int), sym_at_spec(nodes, t as int)) {
                (Some(x), Some(t)) => Some(SpecPattern::Op(SpecOp::Diff { x, t })),
                _ => None,
            },
            SpecNode::Quotient(ids) => match syms_at_spec(nodes, ids) {
                Some(rels) => Some(SpecPattern::Op(SpecOp::Quotient { rels })),
                None => None,
            },
            SpecNode::Sequence(ids) => match decode_list_ordered(nodes, ids, id) {
                Some(items) => Some(
                    if items.len() == 1 {
                        items[0]
                    } else {
                        SpecPattern::Sequence(items)
                    },
                ),
                None => None,
            },
            SpecNode::Call(h, ids) => match (sym_at_spec(nodes, h as int), decode_list_ordered(nodes, ids, id)) {
                (Some(head), Some(args)) => Some(SpecPattern::Op(SpecOp::Call { head, args })),
                _ => None,
            },
            SpecNode::Sym(s) => Some(SpecPattern::Op(SpecOp::Sym(s))),
            SpecNode::Num(n) => Some(SpecPattern::Op(SpecOp::Sym(decimal(n as nat)))),
        }
    }
}

/// The patterns read back from the given indices of a term, all of which
/// must come before `bound`.
pub open spec fn decode_list_ordered(nodes: Seq<SpecNode>, ids: Seq<usize>, bound: int) -> Option<
    Seq<SpecPattern>,
>
    decreases bound, ids.len(),
{
    if ids.len() == 0 {
        Some(Seq::empty())
    } else if ids[0] < bound {
        match (decode_ordered(nodes, ids[0] as int), decode_list_ordered(nodes, ids.drop_first(), bound)) {
            (Some(p), Some(rest)) => Some(seq![p] + rest),
            _ => None,
        }
    } else {
        None
    }
}

/// The pattern read back from the node at index `id` of a term, following
/// children to a depth of at most `fuel` nodes. A child may stand before or
/// after its parent. Reading a term without a cycle from its root never
/// goes deeper than its number of nodes, so `fuel` equal to that number
/// reads every such term completely; a term whose nodes form a cycle runs
/// out of fuel and is refused.
pub open spec fn decode(nodes: Seq<SpecNode>, id: int, fuel: nat) -> Option<SpecPattern>
    decreases fuel, 0int,
{
    if fuel == 0 || !(0 <= id < nodes.len()) {
        None
    } else {
        match nodes[id] {
            SpecNode::Note(p, d) => match (sym_at_spec(nodes, p as int), sym_at_spec(nodes, d as int)) {
                (Some(pitch), Some(dur)) => Some(SpecPattern::Op(SpecOp::Note { pitch, dur })),
                _ => None,
            },
            SpecNode::Loop(c, b) => match num_at_spec(nodes, c as int) {
                Some(count) => match decode(nodes, b as int, (fuel - 1) as nat) {
                    Some(body) => Some(SpecPattern::Op(SpecOp::Loop { count, body: Box::new(body) })),
                    None => None,
                },
                None => None,
            },
            SpecNode::Diff(x, t) => match (sym_at_spec(nodes, x as int), sym_at_spec(nodes, t as int)) {
                (Some(x), Some(t)) => Some(SpecPattern::Op(SpecOp::Diff { x, t })),
                _ => None,
            },
            SpecNode::Quotient(ids) => match syms_at_spec(nodes, ids) {
                Some(rels) => Some(SpecPattern::Op(SpecOp::Quotient { rels })),
                None => None,
            },
            SpecNode::Sequence(ids) => match decode_list(nodes, ids, (fuel - 1) as nat) {
                Some(items) => Some(
                    if items.len() == 1 {
                        items[0]
                    } else {
                        SpecPattern::Sequence(items)
                    },
                ),
                None => None,
            },
            SpecNode::Call(h, ids) => match (sym_at_spec(nodes, h as int), decode_list(nodes, ids, (fuel - 1) as nat)) {
                (Some(head), Some(args)) => Some(SpecPattern::Op(SpecOp::Call { head, args })),
                _ => None,
            },
            SpecNode::Sym(s) => Some(SpecPattern::Op(SpecOp::Sym(s))),
            SpecNode::Num(n) => Some(SpecPattern::Op(SpecOp::Sym(decimal(n as nat)))),
        }
    }
}

/// The patterns read back from the given indices of a term, each to a depth
/// of at most `fuel` nodes.
pub open spec fn decode_list(nodes: Seq<SpecNode>, ids: Seq<usize>, fuel: nat) -> Option<
    Seq<SpecPattern>,
>
    decreases fuel, ids.len() + 1,
{
    if ids.len() == 0 {
        Some(Seq::empty())
    } else {
        match (decode(nodes, ids[0] as int, fuel), decode_list(nodes, ids.drop_first(), fuel)) {
            (Some(p), Some(rest)) => Some(seq![p] + rest),
            _ => None,
        }
    }
}

/// The pattern read back from a whole term: the one at its last node.
pub open spec fn decode_expr(nodes: Seq<SpecNode>) -> Option<SpecPattern> {
    if nodes.len() == 0 {
        None
    } else {
        decode(nodes, nodes.len() - 1, nodes.len())
    }
}

/// More fuel never changes a pattern that has been read back: the fuel
/// only bounds how deep reading goes.
pub proof fn lemma_decode_more_fuel(nodes: Seq<SpecNode>, id: int, fuel: nat, more: nat)
    requires
        decode(nodes, id, fuel) is Some,
        fuel <= more,
    ensures
        decode(nodes, id, more) == decode(nodes, id, fuel),
    decreases fuel, 0int,
{
    match nodes[id] {
        SpecNode::Loop(c, b) => {
            lemma_decode_more_fuel(nodes, b as int, (fuel - 1) as nat, (more - 1) as nat);
        },
        SpecNode::Sequence(ids) => {
            lemma_decode_list_more_fuel(nodes, ids, (fuel - 1) as nat, (more - 1) as nat);
        },
        SpecNode::Call(_, ids) => {
            lemma_decode_list_more_fuel(nodes, ids, (fuel - 1) as nat, (more - 1) as nat);
        },
        _ => {},
    }
}

/// The list form of `lemma_decode_more_fuel`.
pub proof fn lemma_decode_list_more_fuel(nodes: Seq<SpecNode>, ids: Seq<usize>, fuel: nat, more: nat)
    requires
        decode_list(nodes, ids, fuel) is Some,
        fuel <= more,
    ensures
        decode_list(nodes, ids, more) == decode_list(nodes, ids, fuel),
    decreases fuel, ids.len() + 1,
{
    if ids.len() > 0 {
        lemma_decode_more_fuel(nodes, ids[0] as int, fuel, more);
        lemma_decode_list_more_fuel(nodes, ids.drop_first(), fuel, more);
    }
}

/// A term whose children come before their parents reads back the same
/// with any fuel above the index read.
pub proof fn lemma_ordered_decode(nodes: Seq<SpecNode>, id: int, fuel: nat)
    requires
        decode_ordered(nodes, id) is Some,
        fuel > id,
    ensures
        decode(nodes, id, fuel) == decode_ordered(nodes, id),
    decreases id + 1, 0int,
{
    match nodes[id] {
        SpecNode::Loop(c, b) => {
            lemma_ordered_decode(nodes, b as int, (fuel - 1) as nat);
        },
        SpecNode::Sequence(ids) => {
            lemma_ordered_decode_list(nodes, ids, id, (fuel - 1) as nat);
        },
        SpecNode::Call(_, ids) => {
            lemma_ordered_decode_list(nodes, ids, id, (fuel - 1) as nat);
        },
        _ => {},
    }
}

/// The list form of `lemma_ordered_decode`.
pub proof fn lemma_ordered_decode_list(nodes: Seq<SpecNode>, ids: Seq<usize>, bound: int, fuel: nat)
    requires
        decode_list_ordered(nodes, ids, bound) is Some,
        fuel >= bound,
    ensures
        decode_list(nodes, ids, fuel) == decode_list_ordered(nodes, ids, bound),
    decreases bound, ids.len(),
{
    if ids.len() > 0 {
        lemma_ordered_decode(nodes, ids[0] as int, fuel);
        lemma_ordered_decode_list(nodes, ids.drop_first(), bound, fuel);
    }
}

fn digit_str(d: u32) -> (s: &'static str)
    requires
        d < 10,
    ensures
        s@ == seq![digit_char(d as nat)],
{
    proof {
        reveal_strlit("0");
        reveal_strlit("1");
        reveal_strlit("2");
        reveal_strlit("3");
        reveal_strlit("4");
        reveal_strlit("5");
        reveal_strlit("6");
        reveal_strlit("7");
        reveal_strlit("8");
        reveal_strlit("9");
    }
    let s = match d {
        0 => "0",
        1 => "1",
        2 => "2",
        3 => "3",
        4 => "4",
        5 => "5",
        6 => "6",
        7 => "7",
        8 => "8",
        _ => "9",
    };
    assert(s@ =~= seq![digit_char(d as nat)]);
    s
}

/// The decimal writing of a number.
pub fn u32_to_decimal(n: u32) -> (s: String)
    ensures
        s@ == decimal(n as nat),
    decreases n,
{
    if n < 10 {
        digit_str(n).to_owned()
    } else {
        let mut s = u32_to_decimal(n / 10);
        s.append(digit_str(n % 10));
        assert(s@ =~= decimal(n as nat));
        s
    }
}

fn rewrite_error(msg: &str) -> (e: RefrainError)
    ensures
        e matches RefrainError::Rewrite(m) && m@ == msg@,
{
    RefrainError::Rewrite(msg.to_owned())
}

/// The symbol at index `id` of a term.
pub fn sym_at(nodes: &Vec<TermNode>, id: usize) -> (r: Result<&String, RefrainError>)
    ensures
        match r {
            Ok(s) => sym_at_spec(nodes_model(nodes@), id as int) == Some(s@),
            Err(e) => sym_at_spec(nodes_model(nodes@), id as int) is None && e is Rewrite,
        },
{
    if id >= nodes.len() {
        return Err(rewrite_error("expected symbol, got an index out of the term"));
    }
    assert(nodes_model(nodes@)[id as int] == nodes@[id as int]@);
    match &nodes[id] {
        TermNode::Sym(s) => Ok(s),
        _ => Err(rewrite_error("expected symbol")),
    }
}

/// The number at index `id` of a term.
pub fn num_at(nodes: &Vec<TermNode>, id: usize) -> (r: Result<u32, RefrainError>)
    ensures
        match r {
            Ok(n) => num_at_spec(nodes_model(nodes@), id as int) == Some(n),
            Err(e) => num_at_spec(nodes_model(nodes@), id as int) is None && e is Rewrite,
        },
{
    if id >= nodes.len() {
        return Err(rewrite_error("expected number, got an index out of the term"));
    }
    assert(nodes_model(nodes@)[id as int] == nodes@[id as int]@);
    match &nodes[id] {
        TermNode::Num(n) => Ok(*n),
        _ => Err(rewrite_error("expected number")),
    }
}

/// Reads back the pattern at index `id` of a term, following children to a
/// depth of at most `fuel` nodes.
fn read_node(nodes: &Vec<TermNode>, id: usize, fuel: usize) -> (r: Result<Pattern, RefrainError>)
    ensures
        match r {
            Ok(p) => decode(nodes_model(nodes@), id as int, fuel as nat) == Some(p@),
            Err(e) => decode(nodes_model(nodes@), id as int, fuel as nat) is None && e is Rewrite,
        },
    decreases fuel, 0int,
{
    let ghost m = nodes_model(nodes@);
    if id >= nodes.len() {
        return Err(rewrite_error("index out of the term"));
    }
    if fuel == 0 {
        return Err(rewrite_error("the term has a cycle"));
    }
    assert(m[id as int] == nodes@[id as int]@);
    match &nodes[id] {
        TermNode::Note(p, d) => {
            let pitch = sym_at(nodes, *p)?;
            let dur = sym_at(nodes, *d)?;
            Ok(Pattern::Op(Op::Note { pitch: pitch.clone(), dur: dur.clone() }))
        },
        TermNode::Loop(c, b) => {
            let count = num_at(nodes, *c)?;
            let body = read_node(nodes, *b, fuel - 1)?;
            Ok(Pattern::Op(Op::Loop { count, body: Box::new(body) }))
        },
        TermNode::Diff(x, t) => {
            let xs = sym_at(nodes, *x)?;
            let ts = sym_at(nodes, *t)?;
            Ok(Pattern::Op(Op::Diff { x: xs.clone(), t: ts.clone() }))
        },
        TermNode::Quotient(ids) => {
            let mut rels: Vec<String> = Vec::new();
            let mut i: usize = 0;
            assert(ids@.skip(0) =~= ids@);
            while i < ids.len()
                invariant
                    i <= ids@.len(),
                    id < nodes@.len(),
                    m == nodes_model(nodes@),
                    m[id as int] == SpecNode::Quotient(ids@),
                    syms_at_spec(m, ids@) == match syms_at_spec(m, ids@.skip(i as int)) {
                        Some(rest) => Some(strings_model(rels@) + rest),
                        None => None,
                    },
                decreases ids@.len() - i,
            {
                assert(ids@.skip(i as int)[0] == ids@[i as int]);
                assert(ids@.skip(i as int).drop_first() =~= ids@.skip(i + 1));
                let s = sym_at(nodes, ids[i])?;
                let ghost old_rels = rels@;
                rels.push(s.clone());
                proof {
                    assert(strings_model(rels@) =~= strings_model(old_rels).push(s@));
                    match syms_at_spec(m, ids@.skip(i + 1)) {
                        Some(rest) => {
                            assert(strings_model(old_rels) + (seq![s@] + rest) =~= strings_model(
                                rels@,
                            ) + rest);
                        },
                        None => {},
                    }
                }
                i = i + 1;
            }
            assert(ids@.skip(i as int) =~= Seq::<usize>::empty());
            assert(strings_model(rels@) + Seq::<Seq<char>>::empty() =~= strings_model(rels@));
            Ok(Pattern::Op(Op::Quotient { rels }))
        },
        TermNode::Sequence(ids) => {
            let mut items = read_list(nodes, ids, fuel - 1)?;
            proof {
                crate::ast::lemma_patterns_model(items@);
            }
            if items.len() == 1 {
                let ghost it = items@;
                let p = items.pop().unwrap();
                assert(p == it[0]);
                Ok(p)
            } else {
                Ok(Pattern::Sequence(items))
            }
        },
        TermNode::Call(h, ids) => {
            let head = sym_at(nodes, *h)?;
            let args = read_list(nodes, ids, fuel - 1)?;
            Ok(Pattern::Op(Op::Call { head: head.clone(), args }))
        },
        TermNode::Sym(s) => Ok(Pattern::Op(Op::Sym(s.clone()))),
        TermNode::Num(n) => Ok(Pattern::Op(Op::Sym(u32_to_decimal(*n)))),
    }
}

/// Reads back the patterns at the indices `ids` of a term, each following
/// children to a depth of at most `fuel` nodes.
fn read_list(nodes: &Vec<TermNode>, ids: &Vec<usize>, fuel: usize) -> (r: Result<Vec<Pattern>, RefrainError>)
    ensures
        match r {
            Ok(ps) => decode_list(nodes_model(nodes@), ids@, fuel as nat) == Some(patterns_model(ps@)),
            Err(e) => decode_list(nodes_model(nodes@), ids@, fuel as nat) is None && e is Rewrite,
        },
    decreases fuel, 1int,
{
    let ghost m = nodes_model(nodes@);
    let mut items: Vec<Pattern> = Vec::new();
    let mut i: usize = 0;
    assert(ids@.skip(0) =~= ids@);
    assert(patterns_model(items@) =~= Seq::<SpecPattern>::empty());
    while i < ids.len()
        invariant
            i <= ids@.len(),
            m == nodes_model(nodes@),
            decode_list(m, ids@, fuel as nat) == match decode_list(m, ids@.skip(i as int), fuel as nat) {
                Some(rest) => Some(patterns_model(items@) + rest),
                None => None,
            },
        decreases ids@.len() - i,
    {
        assert(ids@.skip(i as int)[0] == ids@[i as int]);
        assert(ids@.skip(i as int).drop_first() =~= ids@.skip(i + 1));
        let p = read_node(nodes, ids[i], fuel)?;
        let ghost old_items = items@;
        items.push(p);
        proof {
            assert(items@.drop_last() =~= old_items);
            assert(patterns_model(items@) == patterns_model(old_items).push(p@));
            match decode_list(m, ids@.skip(i + 1), fuel as nat) {
                Some(rest) => {
                    assert(patterns_model(old_items) + (seq![p@] + rest) =~= patterns_model(items@) + rest);
                },
                None => {},
            }
        }
        i = i + 1;
    }
    assert(ids@.skip(i as int) =~= Seq::<usize>::empty());
    assert(patterns_model(items@) + Seq::<SpecPattern>::empty() =~= patterns_model(items@));
    Ok(items)
}

/// Reads back the pattern of a whole term: the one at its last node.
pub fn expr_to_pattern(nodes: &Vec<TermNode>) -> (r: Result<Pattern, RefrainError>)
    ensures
        match r {
            Ok(p) => decode_expr(nodes_model(nodes@)) == Some(p@),
            Err(e) => decode_expr(nodes_model(nodes@)) is None && e is Rewrite,
        },
{
    if nodes.len() == 0 {
        return Err(rewrite_error("empty term"));
    }
    node_to_pattern(nodes, nodes.len() - 1)
}

/// Reads back the pattern at index `id` of a term. Children may stand before
/// or after their parents; a term whose nodes form a cycle is refused.
pub fn node_to_pattern(nodes: &Vec<TermNode>, id: usize) -> (r: Result<Pattern, RefrainError>)
    ensures
        match r {
            Ok(p) => decode(nodes_model(nodes@), id as int, nodes@.len()) == Some(p@),
            Err(e) => decode(nodes_model(nodes@), id as int, nodes@.len()) is None && e is Rewrite,
        },
{
    read_node(nodes, id, nodes.len())
}

} // verus!
