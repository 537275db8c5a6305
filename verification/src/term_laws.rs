//! Reading back a written term: what `expr_to_pattern` gives for the term
//! that `pattern_to_expr` writes.

use vstd::prelude::*;

use crate::ast::{SpecOp, SpecPattern};
use crate::term::{
    decode, decode_expr, decode_list, decode_list_ordered, decode_ordered, encode, encode_list, lemma_encode_nonempty, sym_at_spec,
    num_at_spec, syms_at_spec, nodes_model, SpecNode, TermNode,
};
use crate::normalize::rewritten_from;

verus! {

/// A sequence read back from a term: its element when it has one, the
/// sequence otherwise.
pub open spec fn collapse(s: Seq<SpecPattern>) -> SpecPattern {
    if s.len() == 1 {
        s[0]
    } else {
        SpecPattern::Sequence(s)
    }
}

/// The canonical form of a pattern: a one-element sequence becomes its
/// element, at every depth; everything else, calls included, keeps its
/// shape.
pub open spec fn canon(p: SpecPattern) -> SpecPattern
    decreases p,
{
    match p {
        SpecPattern::Op(op) => match op {
            SpecOp::Loop { count, body } => SpecPattern::Op(
                SpecOp::Loop { count, body: Box::new(canon(*body)) },
            ),
            SpecOp::Call { head, args } => SpecPattern::Op(SpecOp::Call { head, args: canon_list(args) }),
            _ => p,
        },
        SpecPattern::Sequence(items) => collapse(canon_list(items)),
    }
}

/// The canonical forms of a list of patterns.
pub open spec fn canon_list(s: Seq<SpecPattern>) -> Seq<SpecPattern>
    decreases s,
{
    if s.len() == 0 {
        Seq::empty()
    } else {
        canon_list(s.drop_last()).push(canon(s.last()))
    }
}

/// Whether a pattern has no one-element sequence.
pub open spec fn is_plain(p: SpecPattern) -> bool
    decreases p,
{
    match p {
        SpecPattern::Op(op) => match op {
            SpecOp::Loop { body, .. } => is_plain(*body),
            SpecOp::Call { args, .. } => all_plain(args),
            _ => true,
        },
        SpecPattern::Sequence(items) => items.len() != 1 && all_plain(items),
    }
}

pub open spec fn all_plain(s: Seq<SpecPattern>) -> bool
    decreases s,
{
    s.len() == 0 || (all_plain(s.drop_last()) && is_plain(s.last()))
}

/// Every child index of node `n` lies in `[lo, hi)`.
pub open spec fn children_in(n: SpecNode, lo: int, hi: int) -> bool {
    match n {
        SpecNode::Note(a, b) => lo <= a < hi && lo <= b < hi,
        SpecNode::Loop(a, b) => lo <= a < hi && lo <= b < hi,
        SpecNode::Diff(a, b) => lo <= a < hi && lo <= b < hi,
        SpecNode::Quotient(ids) => forall|k: int| 0 <= k < ids.len() ==> lo <= #[trigger] ids[k] < hi,
        SpecNode::Sequence(ids) => forall|k: int| 0 <= k < ids.len() ==> lo <= #[trigger] ids[k] < hi,
        SpecNode::Call(h, ids) => lo <= h < hi && forall|k: int| 0 <= k < ids.len() ==> lo <= #[trigger] ids[k] < hi,
        _ => true,
    }
}

/// The nodes in `[lo, hi)` only refer to nodes in that range that come
/// before them.
pub open spec fn wf_range(nodes: Seq<SpecNode>, lo: int, hi: int) -> bool {
    &&& 0 <= lo <= hi <= nodes.len()
    &&& forall|i: int| lo <= i < hi ==> children_in(#[trigger] nodes[i], lo, i)
}

proof fn lemma_syms_frame(n1: Seq<SpecNode>, n2: Seq<SpecNode>, lo: int, hi: int, ids: Seq<usize>)
    requires
        hi <= n1.len(),
        hi <= n2.len(),
        forall|i: int| lo <= i < hi ==> n1[i] == n2[i],
        forall|k: int| 0 <= k < ids.len() ==> lo <= #[trigger] ids[k] < hi,
    ensures
        syms_at_spec(n1, ids) == syms_at_spec(n2, ids),
    decreases ids.len(),
{
    if ids.len() > 0 {
        assert(n1[ids[0] as int] == n2[ids[0] as int]);
        lemma_syms_frame(n1, n2, lo, hi, ids.drop_first());
    }
}

proof fn lemma_decode_frame(n1: Seq<SpecNode>, n2: Seq<SpecNode>, lo: int, hi: int, id: int)
    requires
        wf_range(n1, lo, hi),
        hi <= n2.len(),
        forall|i: int| lo <= i < hi ==> n1[i] == n2[i],
        lo <= id < hi,
    ensures
        decode_ordered(n1, id) == decode_ordered(n2, id),
    decreases id + 1, 0int,
{
    assert(n1[id] == n2[id]);
    assert(children_in(n1[id], lo, id));
    match n1[id] {
        SpecNode::Note(a, b) => {
            assert(n1[a as int] == n2[a as int]);
            assert(n1[b as int] == n2[b as int]);
        },
        SpecNode::Diff(a, b) => {
            assert(n1[a as int] == n2[a as int]);
            assert(n1[b as int] == n2[b as int]);
        },
        SpecNode::Loop(a, b) => {
            assert(n1[a as int] == n2[a as int]);
            lemma_decode_frame(n1, n2, lo, hi, b as int);
        },
        SpecNode::Quotient(ids) => {
            lemma_syms_frame(n1, n2, lo, hi, ids);
        },
        SpecNode::Sequence(ids) => {
            lemma_decode_list_frame(n1, n2, lo, hi, ids, id);
        },
        SpecNode::Call(h, ids) => {
            assert(n1[h as int] == n2[h as int]);
            lemma_decode_list_frame(n1, n2, lo, hi, ids, id);
        },
        _ => {},
    }
}

proof fn lemma_decode_list_frame(
    n1: Seq<SpecNode>,
    n2: Seq<SpecNode>,
    lo: int,
    hi: int,
    ids: Seq<usize>,
    bound: int,
)
    requires
        wf_range(n1, lo, hi),
        hi <= n2.len(),
        forall|i: int| lo <= i < hi ==> n1[i] == n2[i],
        bound <= hi,
        forall|k: int| 0 <= k < ids.len() ==> lo <= #[trigger] ids[k] < bound,
    ensures
        decode_list_ordered(n1, ids, bound) == decode_list_ordered(n2, ids, bound),
    decreases bound, ids.len(),
{
    if ids.len() > 0 {
        lemma_decode_frame(n1, n2, lo, hi, ids[0] as int);
        lemma_decode_list_frame(n1, n2, lo, hi, ids.drop_first(), bound);
    }
}

proof fn lemma_decode_list_bound(n: Seq<SpecNode>, ids: Seq<usize>, b1: int, b2: int)
    requires
        forall|k: int| 0 <= k < ids.len() ==> #[trigger] ids[k] < b1 && ids[k] < b2,
    ensures
        decode_list_ordered(n, ids, b1) == decode_list_ordered(n, ids, b2),
    decreases ids.len(),
{
    if ids.len() > 0 {
        lemma_decode_list_bound(n, ids.drop_first(), b1, b2);
    }
}

proof fn lemma_decode_list_push(n: Seq<SpecNode>, ids: Seq<usize>, x: usize, bound: int)
    requires
        x < bound,
    ensures
        decode_list_ordered(n, ids.push(x), bound) == match (decode_list_ordered(n, ids, bound), decode_ordered(n, x as int)) {
            (Some(a), Some(b)) => Some(a.push(b)),
            _ => None,
        },
    decreases ids.len(),
{
    if ids.len() == 0 {
        assert(ids.push(x).drop_first() =~= Seq::<usize>::empty());
        match decode_ordered(n, x as int) {
            Some(b) => {
                assert(seq![b] + Seq::<SpecPattern>::empty() =~= Seq::<SpecPattern>::empty().push(b));
            },
            None => {},
        }
    } else {
        assert(ids.push(x).drop_first() =~= ids.drop_first().push(x));
        assert(ids.push(x)[0] == ids[0]);
        lemma_decode_list_push(n, ids.drop_first(), x, bound);
        match (decode_ordered(n, ids[0] as int), decode_list_ordered(n, ids.drop_first(), bound), decode_ordered(n, x as int)) {
            (Some(p), Some(rest), Some(b)) => {
                assert(seq![p] + rest.push(b) =~= (seq![p] + rest).push(b));
            },
            _ => {},
        }
    }
}

proof fn lemma_syms_run(nodes: Seq<SpecNode>, rels: Seq<Seq<char>>, b: int, j: int)
    requires
        0 <= b,
        0 <= j <= rels.len(),
        b + rels.len() <= nodes.len(),
        b + rels.len() <= usize::MAX,
        forall|i: int| 0 <= i < rels.len() ==> #[trigger] nodes[b + i] == SpecNode::Sym(rels[i]),
    ensures
        syms_at_spec(nodes, Seq::new((rels.len() - j) as nat, |k: int| (b + j + k) as usize)) == Some(
            rels.skip(j),
        ),
    decreases rels.len() - j,
{
    let ids = Seq::new((rels.len() - j) as nat, |k: int| (b + j + k) as usize);
    if j < rels.len() {
        lemma_syms_run(nodes, rels, b, j + 1);
        assert(ids.drop_first() =~= Seq::new((rels.len() - (j + 1)) as nat, |k: int| (b + (j + 1) + k) as usize));
        assert(nodes[b + j] == SpecNode::Sym(rels[j]));
        assert(seq![rels[j]] + rels.skip(j + 1) =~= rels.skip(j));
    } else {
        assert(rels.skip(j) =~= Seq::<Seq<char>>::empty());
    }
}

proof fn lemma_wf_extend(small: Seq<SpecNode>, big: Seq<SpecNode>, lo: int, hi: int, lo2: int, hi2: int)
    requires
        wf_range(small, lo, hi),
        0 <= lo2 <= lo,
        hi <= hi2 <= big.len(),
        forall|i: int| lo <= i < hi ==> small[i] == big[i],
    ensures
        forall|i: int| lo <= i < hi ==> children_in(#[trigger] big[i], lo2, i),
{
    assert forall|i: int| lo <= i < hi implies children_in(#[trigger] big[i], lo2, i) by {
        assert(small[i] == big[i]);
        assert(children_in(small[i], lo, i));
    }
}

/// What writing `p` after `pre` and reading it back gives.
pub open spec fn round_trips(p: SpecPattern, pre: Seq<SpecNode>) -> bool {
    &&& wf_range(pre + encode(p, pre.len()), pre.len() as int, (pre.len() + encode(p, pre.len()).len()) as int)
    &&& decode_ordered(pre + encode(p, pre.len()), pre.len() + encode(p, pre.len()).len() - 1) == Some(canon(p))
}

proof fn lemma_encode_decode(p: SpecPattern, pre: Seq<SpecNode>)
    requires
        pre.len() + encode(p, pre.len()).len() <= usize::MAX,
    ensures
        round_trips(p, pre),
    decreases p, 2int,
{
    match p {
        SpecPattern::Op(op) => match op {
            SpecOp::Note { .. } => lemma_rt_note(p, pre),
            SpecOp::Diff { .. } => lemma_rt_diff(p, pre),
            SpecOp::Sym(sy) => {
                let nodes = pre + encode(p, pre.len());
                assert(nodes[pre.len() as int] == SpecNode::Sym(sy));
            },
            SpecOp::Loop { .. } => lemma_rt_loop(p, pre),
            SpecOp::Quotient { .. } => lemma_rt_quotient(p, pre),
            SpecOp::Call { .. } => lemma_rt_call(p, pre),
        },
        SpecPattern::Sequence(_) => lemma_rt_sequence(p, pre),
    }
}

proof fn lemma_rt_note(p: SpecPattern, pre: Seq<SpecNode>)
    requires
        p matches SpecPattern::Op(SpecOp::Note { .. }),
        pre.len() + encode(p, pre.len()).len() <= usize::MAX,
    ensures
        round_trips(p, pre),
{
    let b = pre.len() as int;
    let nodes = pre + encode(p, pre.len());
    if let SpecPattern::Op(SpecOp::Note { pitch, dur }) = p {
        assert(nodes[b] == SpecNode::Sym(pitch));
        assert(nodes[b + 1] == SpecNode::Sym(dur));
        assert(nodes[b + 2] == SpecNode::Note(b as usize, (b + 1) as usize));
        assert(sym_at_spec(nodes, b) == Some(pitch));
        assert(sym_at_spec(nodes, b + 1) == Some(dur));
    }
}

proof fn lemma_rt_diff(p: SpecPattern, pre: Seq<SpecNode>)
    requires
        p matches SpecPattern::Op(SpecOp::Diff { .. }),
        pre.len() + encode(p, pre.len()).len() <= usize::MAX,
    ensures
        round_trips(p, pre),
{
    let b = pre.len() as int;
    let nodes = pre + encode(p, pre.len());
    if let SpecPattern::Op(SpecOp::Diff { x, t }) = p {
        assert(nodes[b] == SpecNode::Sym(x));
        assert(nodes[b + 1] == SpecNode::Sym(t));
        assert(nodes[b + 2] == SpecNode::Diff(b as usize, (b + 1) as usize));
        assert(sym_at_spec(nodes, b) == Some(x));
        assert(sym_at_spec(nodes, b + 1) == Some(t));
    }
}

proof fn lemma_rt_loop(p: SpecPattern, pre: Seq<SpecNode>)
    requires
        p matches SpecPattern::Op(SpecOp::Loop { .. }),
        pre.len() + encode(p, pre.len()).len() <= usize::MAX,
    ensures
        round_trips(p, pre),
    decreases p, 1int,
{
    let b = pre.len() as int;
    let e = encode(p, pre.len());
    let nodes = pre + e;
    if let SpecPattern::Op(SpecOp::Loop { count, body }) = p {
        let pre1 = pre.push(SpecNode::Num(count));
        let eb = encode(*body, pre1.len());
        lemma_encode_nonempty(*body, pre1.len());
        assert(e == seq![SpecNode::Num(count)] + eb + seq![SpecNode::Loop(b as usize, (b + eb.len()) as usize)]);
        lemma_encode_decode(*body, pre1);
        let mid = pre1 + eb;
        assert(nodes =~= mid.push(SpecNode::Loop(b as usize, (b + eb.len()) as usize)));
        let id = b + 1 + eb.len();
        assert(nodes[id] == SpecNode::Loop(b as usize, (b + eb.len()) as usize));
        assert(nodes[b] == SpecNode::Num(count));
        assert(num_at_spec(nodes, b) == Some(count));
        lemma_decode_frame(mid, nodes, b + 1, id, b + eb.len());
        lemma_wf_extend(mid, nodes, b + 1, id, b, id + 1);
        assert(children_in(nodes[b], b, b));
        assert(children_in(nodes[id], b, id));
    }
}

proof fn lemma_rt_quotient(p: SpecPattern, pre: Seq<SpecNode>)
    requires
        p matches SpecPattern::Op(SpecOp::Quotient { .. }),
        pre.len() + encode(p, pre.len()).len() <= usize::MAX,
    ensures
        round_trips(p, pre),
{
    let b = pre.len() as int;
    let e = encode(p, pre.len());
    let nodes = pre + e;
    if let SpecPattern::Op(SpecOp::Quotient { rels }) = p {
        let n = rels.len() as int;
        let ids = Seq::new(rels.len(), |k: int| (b + k) as usize);
        assert(e == rels.map_values(|r: Seq<char>| SpecNode::Sym(r)) + seq![SpecNode::Quotient(ids)]);
        assert forall|i: int| 0 <= i < rels.len() implies #[trigger] nodes[b + i] == SpecNode::Sym(rels[i]) by {
            assert(nodes[b + i] == e[i]);
        }
        lemma_syms_run(nodes, rels, b, 0);
        assert(Seq::new((rels.len() - 0) as nat, |k: int| (b + 0 + k) as usize) =~= ids);
        assert(rels.skip(0) =~= rels);
        assert(nodes[b + n] == SpecNode::Quotient(ids));
        assert forall|i: int| b <= i < b + n + 1 implies children_in(#[trigger] nodes[i], b, i) by {
            if i < b + n {
                assert(nodes[i] == SpecNode::Sym(rels[i - b]));
            }
        }
    }
}

proof fn lemma_rt_call(p: SpecPattern, pre: Seq<SpecNode>)
    requires
        p matches SpecPattern::Op(SpecOp::Call { .. }),
        pre.len() + encode(p, pre.len()).len() <= usize::MAX,
    ensures
        round_trips(p, pre),
    decreases p, 1int,
{
    let b = pre.len() as int;
    let e = encode(p, pre.len());
    let nodes = pre + e;
    if let SpecPattern::Op(SpecOp::Call { head, args }) = p {
        let pre1 = pre.push(SpecNode::Sym(head));
        let (ns, roots) = encode_list(args, pre1.len());
        assert(e == seq![SpecNode::Sym(head)] + ns + seq![SpecNode::Call(b as usize, roots)]);
        lemma_encode_list_decode(args, pre1);
        let mid = pre1 + ns;
        let id = b + 1 + ns.len();
        assert(nodes =~= mid.push(SpecNode::Call(b as usize, roots)));
        assert(nodes[id] == SpecNode::Call(b as usize, roots));
        assert(nodes[b] == SpecNode::Sym(head));
        assert(sym_at_spec(nodes, b) == Some(head));
        lemma_decode_list_frame(mid, nodes, b + 1, id, roots, id);
        assert(decode_list_ordered(nodes, roots, id) == Some(canon_list(args)));
        lemma_wf_extend(mid, nodes, b + 1, id, b, id + 1);
        assert(children_in(nodes[b], b, b));
        assert(children_in(nodes[id], b, id));
    }
}

proof fn lemma_rt_sequence(p: SpecPattern, pre: Seq<SpecNode>)
    requires
        p is Sequence,
        pre.len() + encode(p, pre.len()).len() <= usize::MAX,
    ensures
        round_trips(p, pre),
    decreases p, 1int,
{
    let b = pre.len() as int;
    let e = encode(p, pre.len());
    let nodes = pre + e;
    if let SpecPattern::Sequence(items) = p {
        let (ns, roots) = encode_list(items, pre.len());
        assert(e == ns + seq![SpecNode::Sequence(roots)]);
        lemma_encode_list_decode(items, pre);
        let mid = pre + ns;
        let id = b + ns.len();
        assert(nodes =~= mid.push(SpecNode::Sequence(roots)));
        assert(nodes[id] == SpecNode::Sequence(roots));
        lemma_decode_list_frame(mid, nodes, b, id, roots, id);
        lemma_wf_extend(mid, nodes, b, id, b, id + 1);
        assert(children_in(nodes[id], b, id));
    }
}

proof fn lemma_encode_list_decode(ps: Seq<SpecPattern>, pre: Seq<SpecNode>)
    requires
        pre.len() + encode_list(ps, pre.len()).0.len() <= usize::MAX,
    ensures
        wf_range(
            pre + encode_list(ps, pre.len()).0,
            pre.len() as int,
            (pre.len() + encode_list(ps, pre.len()).0.len()) as int,
        ),
        encode_list(ps, pre.len()).1.len() == ps.len(),
        forall|k: int|
            0 <= k < ps.len() ==> pre.len() <= #[trigger] encode_list(ps, pre.len()).1[k] < pre.len()
                + encode_list(ps, pre.len()).0.len(),
        decode_list_ordered(
            pre + encode_list(ps, pre.len()).0,
            encode_list(ps, pre.len()).1,
            (pre.len() + encode_list(ps, pre.len()).0.len()) as int,
        ) == Some(canon_list(ps)),
    decreases ps, 2int,
{
    let b = pre.len() as int;
    if ps.len() == 0 {
        assert(pre + Seq::<SpecNode>::empty() =~= pre);
    } else {
        let dl = ps.drop_last();
        let (ns0, r0) = encode_list(dl, pre.len());
        let mid = pre + ns0;
        let e = encode(ps.last(), mid.len());
        let (ns, roots) = encode_list(ps, pre.len());
        assert(ns == ns0 + e);
        assert(roots == r0.push((b + ns0.len() + e.len() - 1) as usize));
        lemma_encode_list_decode(dl, pre);
        lemma_encode_decode(ps.last(), mid);
        lemma_encode_nonempty(ps.last(), mid.len());
        let nodes = pre + ns;
        assert(nodes =~= mid + e);
        let end = b + ns.len();
        let x = (end - 1) as usize;
        lemma_decode_list_push(nodes, r0, x, end);
        lemma_decode_list_bound(nodes, r0, end, b + ns0.len());
        lemma_decode_list_frame(mid, nodes, b, b + ns0.len(), r0, b + ns0.len());
        lemma_wf_extend(mid, nodes, b, b + ns0.len(), b, end);
        lemma_wf_extend(mid + e, nodes, b + ns0.len(), end, b, end);
        assert forall|k: int| 0 <= k < ps.len() implies b <= #[trigger] roots[k] < end by {
            if k < dl.len() {
                assert(roots[k] == r0[k]);
            }
        }
    }
}

/// Writing a pattern as a term and reading the term back gives the
/// pattern's canonical form: one-element sequences come back as their
/// element, and everything else, calls included, unchanged. (Terms larger than the address space are left
/// out.)
pub proof fn law_term_round_trip(p: SpecPattern)
    requires
        encode(p, 0).len() <= usize::MAX,
    ensures
        decode_expr(encode(p, 0)) == Some(canon(p)),
{
    let pre = Seq::<SpecNode>::empty();
    lemma_encode_decode(p, pre);
    assert(pre + encode(p, 0) =~= encode(p, 0));
    let nodes = encode(p, 0);
    crate::term::lemma_encode_nonempty(p, 0);
    crate::term::lemma_ordered_decode(nodes, nodes.len() - 1, nodes.len());
}

proof fn lemma_canon_plain(p: SpecPattern)
    requires
        is_plain(p),
    ensures
        canon(p) == p,
    decreases p,
{
    match p {
        SpecPattern::Op(SpecOp::Loop { body, .. }) => {
            lemma_canon_plain(*body);
        },
        SpecPattern::Op(SpecOp::Call { args, .. }) => {
            lemma_canon_list_plain(args);
        },
        SpecPattern::Sequence(items) => {
            lemma_canon_list_plain(items);
        },
        _ => {},
    }
}

proof fn lemma_canon_list_plain(s: Seq<SpecPattern>)
    requires
        all_plain(s),
    ensures
        canon_list(s) == s,
    decreases s,
{
    if s.len() > 0 {
        lemma_canon_list_plain(s.drop_last());
        lemma_canon_plain(s.last());
        assert(s.drop_last().push(s.last()) =~= s);
    }
}

/// A pattern without one-element sequences is its own canonical form, so it
/// comes back unchanged from its term.
pub proof fn law_plain_round_trip(p: SpecPattern)
    requires
        is_plain(p),
        encode(p, 0).len() <= usize::MAX,
    ensures
        decode_expr(encode(p, 0)) == Some(p),
{
    law_term_round_trip(p);
    lemma_canon_plain(p);
}

/// With a rewriter that hands every term back unchanged, normalising a
/// pattern gives its canonical form: calls and everything else keep their
/// shape, and only one-element sequences become their element.
pub proof fn law_unchanged_rewrite_keeps_calls<F: Fn(&Vec<TermNode>) -> Vec<TermNode>>(
    rewrite: F,
    p: SpecPattern,
    q: SpecPattern,
)
    requires
        forall|e: &Vec<TermNode>, o: Vec<TermNode>| #[trigger] rewrite.ensures((e,), o) ==> o@ == e@,
        rewritten_from(rewrite, p, q),
    ensures
        q == canon(p),
{
    let (input, out) = choose|input: Vec<TermNode>, out: Vec<TermNode>|
        #![trigger rewrite.ensures((&input,), out)]
        nodes_model(input@) == encode(p, 0) && rewrite.ensures((&input,), out) && decode_expr(
            nodes_model(out@),
        ) == Some(q);
    assert(out@ == input@);
    assert(encode(p, 0).len() == input@.len());
    assert(input.len() == input@.len());
    assert(input@.len() <= usize::MAX);
    law_term_round_trip(p);
}

/// A note node reads back as the note whose pitch is the symbol of its first
/// child and whose duration is the symbol of its second, wherever in the
/// term the two children stand.
pub proof fn law_read_note(nodes: Seq<SpecNode>, id: int, fuel: nat, p: usize, d: usize, pitch: Seq<char>, dur: Seq<char>)
    requires
        0 <= id < nodes.len(),
        fuel > 0,
        nodes[id] == SpecNode::Note(p, d),
        p < nodes.len(),
        d < nodes.len(),
        nodes[p as int] == SpecNode::Sym(pitch),
        nodes[d as int] == SpecNode::Sym(dur),
    ensures
        decode(nodes, id, fuel) == Some(SpecPattern::Op(SpecOp::Note { pitch, dur })),
{
}

/// A `dy/dx` node reads back with the symbol of its first child as the
/// varying quantity and that of its second as the variable, wherever the
/// children stand.
pub proof fn law_read_diff(nodes: Seq<SpecNode>, id: int, fuel: nat, a: usize, b: usize, x: Seq<char>, t: Seq<char>)
    requires
        0 <= id < nodes.len(),
        fuel > 0,
        nodes[id] == SpecNode::Diff(a, b),
        a < nodes.len(),
        b < nodes.len(),
        nodes[a as int] == SpecNode::Sym(x),
        nodes[b as int] == SpecNode::Sym(t),
    ensures
        decode(nodes, id, fuel) == Some(SpecPattern::Op(SpecOp::Diff { x, t })),
{
}

/// A loop node reads back as the loop whose count is the number at its
/// first child and whose body is what its second child reads back as,
/// whether the count stands before or after the body, and both before or
/// after the loop node.
pub proof fn law_read_loop(nodes: Seq<SpecNode>, id: int, fuel: nat, c: usize, b: usize, count: u32, body: SpecPattern)
    requires
        0 <= id < nodes.len(),
        fuel > 0,
        nodes[id] == SpecNode::Loop(c, b),
        c < nodes.len(),
        nodes[c as int] == SpecNode::Num(count),
        decode(nodes, b as int, (fuel - 1) as nat) == Some(body),
    ensures
        decode(nodes, id, fuel) == Some(SpecPattern::Op(SpecOp::Loop { count, body: Box::new(body) })),
{
}

/// The patterns that the children `ids` read back as, in order, when each
/// reads back as `ps[k]`.
proof fn lemma_read_children(nodes: Seq<SpecNode>, ids: Seq<usize>, fuel: nat, ps: Seq<SpecPattern>)
    requires
        ids.len() == ps.len(),
        forall|k: int| 0 <= k < ids.len() ==> decode(nodes, #[trigger] ids[k] as int, fuel) == Some(ps[k]),
    ensures
        decode_list(nodes, ids, fuel) == Some(ps),
    decreases ids.len(),
{
    if ids.len() > 0 {
        assert forall|k: int| 0 <= k < ids.drop_first().len() implies decode(
            nodes,
            #[trigger] ids.drop_first()[k] as int,
            fuel,
        ) == Some(ps.drop_first()[k]) by {
            assert(ids.drop_first()[k] == ids[k + 1]);
        }
        lemma_read_children(nodes, ids.drop_first(), fuel, ps.drop_first());
        assert(decode(nodes, ids[0] as int, fuel) == Some(ps[0]));
        assert(seq![ps[0]] + ps.drop_first() =~= ps);
    }
}

/// A call node reads back as the call whose head is the symbol at its head
/// child and whose arguments are what its argument children read back as,
/// in the order listed, wherever the children stand.
pub proof fn law_read_call(
    nodes: Seq<SpecNode>,
    id: int,
    fuel: nat,
    h: usize,
    ids: Seq<usize>,
    head: Seq<char>,
    args: Seq<SpecPattern>,
)
    requires
        0 <= id < nodes.len(),
        fuel > 0,
        nodes[id] == SpecNode::Call(h, ids),
        h < nodes.len(),
        nodes[h as int] == SpecNode::Sym(head),
        ids.len() == args.len(),
        forall|k: int| 0 <= k < ids.len() ==> decode(nodes, #[trigger] ids[k] as int, (fuel - 1) as nat) == Some(args[k]),
    ensures
        decode(nodes, id, fuel) == Some(SpecPattern::Op(SpecOp::Call { head, args })),
{
    lemma_read_children(nodes, ids, (fuel - 1) as nat, args);
}

/// A sequence node reads back as the sequence of what its children read
/// back as, in the order listed, or as its one element when it has one,
/// wherever the children stand.
pub proof fn law_read_sequence(nodes: Seq<SpecNode>, id: int, fuel: nat, ids: Seq<usize>, items: Seq<SpecPattern>)
    requires
        0 <= id < nodes.len(),
        fuel > 0,
        nodes[id] == SpecNode::Sequence(ids),
        ids.len() == items.len(),
        forall|k: int| 0 <= k < ids.len() ==> decode(nodes, #[trigger] ids[k] as int, (fuel - 1) as nat) == Some(items[k]),
    ensures
        decode(nodes, id, fuel) == Some(if items.len() == 1 { items[0] } else { SpecPattern::Sequence(items) }),
{
    lemma_read_children(nodes, ids, (fuel - 1) as nat, items);
}

/// A quotient node reads back as the quotient of the symbols at its
/// children, in the order listed, wherever they stand.
pub proof fn law_read_quotient(nodes: Seq<SpecNode>, id: int, fuel: nat, ids: Seq<usize>, rels: Seq<Seq<char>>)
    requires
        0 <= id < nodes.len(),
        fuel > 0,
        nodes[id] == SpecNode::Quotient(ids),
        ids.len() == rels.len(),
        forall|k: int| 0 <= k < ids.len() ==> #[trigger] ids[k] < nodes.len() && nodes[ids[k] as int] == SpecNode::Sym(rels[k]),
    ensures
        decode(nodes, id, fuel) == Some(SpecPattern::Op(SpecOp::Quotient { rels })),
{
    lemma_read_syms(nodes, ids, rels);
}

proof fn lemma_read_syms(nodes: Seq<SpecNode>, ids: Seq<usize>, rels: Seq<Seq<char>>)
    requires
        ids.len() == rels.len(),
        forall|k: int| 0 <= k < ids.len() ==> #[trigger] ids[k] < nodes.len() && nodes[ids[k] as int] == SpecNode::Sym(rels[k]),
    ensures
        syms_at_spec(nodes, ids) == Some(rels),
    decreases ids.len(),
{
    if ids.len() > 0 {
        assert forall|k: int| 0 <= k < ids.drop_first().len() implies #[trigger] ids.drop_first()[k] < nodes.len()
            && nodes[ids.drop_first()[k] as int] == SpecNode::Sym(rels.drop_first()[k]) by {
            assert(ids.drop_first()[k] == ids[k + 1]);
        }
        lemma_read_syms(nodes, ids.drop_first(), rels.drop_first());
        assert(ids[0] < nodes.len());
        assert(seq![rels[0]] + rels.drop_first() =~= rels);
    }
}

} // verus!
