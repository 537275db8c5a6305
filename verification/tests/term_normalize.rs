//! Tests of the flat term form and of normalisation through a rewriter.

use refrain::normalize::{normalize_pattern_with, normalize_with};
use refrain::term::{expr_to_pattern, node_to_pattern, num_at, pattern_to_expr, sym_at, u32_to_decimal, TermNode};
use refrain::{parse, Op, Pattern, RefrainError};

fn identity(e: &Vec<TermNode>) -> Vec<TermNode> {
    e.clone()
}

#[test]
fn note_is_written_as_three_nodes() {
    let p = Pattern::Op(Op::Note { pitch: "C4".to_string(), dur: "q".to_string() });
    let mut b = Vec::new();
    let id = pattern_to_expr(&p, &mut b);
    assert_eq!(id, 2);
    assert_eq!(
        b,
        vec![TermNode::Sym("C4".to_string()), TermNode::Sym("q".to_string()), TermNode::Note(0, 1)]
    );
    assert_eq!(expr_to_pattern(&b).unwrap(), p);
}

#[test]
fn loop_is_written_count_first() {
    let r = parse("(refrain a (territorialize (loop 3 (note C4 q))))").unwrap();
    let mut b = vec![TermNode::Num(9)];
    let id = pattern_to_expr(r.territorialize.as_ref().unwrap(), &mut b);
    assert_eq!(id, 5);
    assert_eq!(b[1], TermNode::Num(3));
    assert_eq!(b[5], TermNode::Loop(1, 4));
    assert_eq!(node_to_pattern(&b, id).unwrap(), *r.territorialize.as_ref().unwrap());
}

#[test]
fn quotient_and_sequence_round_trip() {
    let r = parse("(refrain a (territorialize (quotient ~a ~b) (dy/dx x t) s))").unwrap();
    let p = r.territorialize.unwrap();
    let mut b = Vec::new();
    pattern_to_expr(&p, &mut b);
    assert_eq!(b[2], TermNode::Quotient(vec![0, 1]));
    assert_eq!(b.last().unwrap(), &TermNode::Sequence(vec![2, 5, 6]));
    assert_eq!(expr_to_pattern(&b).unwrap(), p);
}

#[test]
fn call_is_kept_through_normalisation() {
    let r = parse("(refrain a (territorialize (arp x (y))))").unwrap();
    let mut b = Vec::new();
    let id = pattern_to_expr(r.territorialize.as_ref().unwrap(), &mut b);
    assert_eq!(b[0], TermNode::Sym("arp".to_string()));
    assert_eq!(b[id], TermNode::Call(0, vec![1, 3]));
    let n = normalize_with(&r, &identity).unwrap();
    assert_eq!(n, r);
    let r = parse("(refrain a (territorialize (rest)))").unwrap();
    let n = normalize_with(&r, &identity).unwrap();
    assert_eq!(
        n.territorialize,
        Some(Pattern::Op(Op::Call { head: "rest".to_string(), args: vec![] }))
    );
}

#[test]
fn call_arguments_are_put_in_canonical_form() {
    let p = Pattern::Op(Op::Call {
        head: "arp".to_string(),
        args: vec![Pattern::Sequence(vec![Pattern::Op(Op::Sym("x".to_string()))])],
    });
    let q = normalize_pattern_with(&p, &identity).unwrap();
    assert_eq!(
        q,
        Pattern::Op(Op::Call { head: "arp".to_string(), args: vec![Pattern::Op(Op::Sym("x".to_string()))] })
    );
    let b = vec![TermNode::Num(1), TermNode::Call(0, vec![])];
    assert!(matches!(expr_to_pattern(&b), Err(RefrainError::Rewrite(_))));
}

#[test]
fn singleton_sequence_reads_back_as_its_element() {
    let p = Pattern::Sequence(vec![Pattern::Op(Op::Sym("x".to_string()))]);
    let q = normalize_pattern_with(&p, &identity).unwrap();
    assert_eq!(q, Pattern::Op(Op::Sym("x".to_string())));
    let e = Pattern::Sequence(vec![]);
    assert_eq!(normalize_pattern_with(&e, &identity).unwrap(), e);
}

#[test]
fn number_node_reads_back_as_decimal_symbol() {
    let b = vec![TermNode::Num(1234)];
    assert_eq!(expr_to_pattern(&b).unwrap(), Pattern::Op(Op::Sym("1234".to_string())));
    assert_eq!(u32_to_decimal(0), "0");
    assert_eq!(u32_to_decimal(u32::MAX), "4294967295");
}

#[test]
fn malformed_terms_are_rewrite_errors() {
    assert!(matches!(expr_to_pattern(&vec![]), Err(RefrainError::Rewrite(_))));
    let b = vec![TermNode::Num(1), TermNode::Num(2), TermNode::Note(0, 1)];
    assert!(matches!(expr_to_pattern(&b), Err(RefrainError::Rewrite(_))));
    let b = vec![TermNode::Sym("x".to_string()), TermNode::Loop(0, 0)];
    assert!(matches!(expr_to_pattern(&b), Err(RefrainError::Rewrite(_))));
    let b = vec![TermNode::Num(2), TermNode::Loop(0, 1)];
    assert!(matches!(expr_to_pattern(&b), Err(RefrainError::Rewrite(_))));
    let b = vec![TermNode::Sequence(vec![0])];
    assert!(matches!(expr_to_pattern(&b), Err(RefrainError::Rewrite(_))));
    assert!(matches!(sym_at(&vec![TermNode::Num(1)], 0), Err(RefrainError::Rewrite(_))));
    assert!(matches!(num_at(&vec![TermNode::Num(1)], 3), Err(RefrainError::Rewrite(_))));
    assert_eq!(num_at(&vec![TermNode::Num(7)], 0).unwrap(), 7);
}

#[test]
fn normalize_keeps_name_and_stage_presence() {
    let r = parse("(refrain keep (deterritorialize (dy/dx intensity time)))").unwrap();
    let n = normalize_with(&r, &identity).unwrap();
    assert_eq!(n, r);
    let r = parse("(refrain empty)").unwrap();
    assert_eq!(normalize_with(&r, &identity).unwrap(), r);
}

#[test]
fn rewriter_result_is_read_back() {
    // A rewriter that replaces every term by the single symbol `z`.
    let to_z = |_: &Vec<TermNode>| vec![TermNode::Sym("z".to_string())];
    let r = parse("(refrain a (territorialize (loop 1 (note C4 q))) (reterritorialize q))").unwrap();
    let n = normalize_with(&r, &to_z).unwrap();
    assert_eq!(n.territorialize, Some(Pattern::Op(Op::Sym("z".to_string()))));
    assert_eq!(n.reterritorialize, Some(Pattern::Op(Op::Sym("z".to_string()))));
    assert!(n.deterritorialize.is_none());
    let broken = |_: &Vec<TermNode>| Vec::new();
    assert!(matches!(normalize_with(&r, &broken), Err(RefrainError::Rewrite(_))));
}

#[test]
fn children_may_follow_their_parent() {
    let nodes = vec![TermNode::Loop(1, 2), TermNode::Num(3), TermNode::Sym("x".to_string())];
    match node_to_pattern(&nodes, 0) {
        Ok(Pattern::Op(Op::Loop { count, body })) => {
            assert_eq!(count, 3);
            assert_eq!(*body, Pattern::Op(Op::Sym("x".to_string())));
        }
        other => panic!("expected Loop, got {:?}", other),
    }
    let seq = vec![
        TermNode::Sequence(vec![1, 2]),
        TermNode::Sym("a".to_string()),
        TermNode::Sym("b".to_string()),
    ];
    assert_eq!(
        node_to_pattern(&seq, 0).unwrap(),
        Pattern::Sequence(vec![Pattern::Op(Op::Sym("a".to_string())), Pattern::Op(Op::Sym("b".to_string()))])
    );
}

#[test]
fn a_cyclic_term_is_refused() {
    let nodes = vec![TermNode::Loop(1, 0), TermNode::Num(3)];
    assert!(matches!(node_to_pattern(&nodes, 0), Err(RefrainError::Rewrite(_))));
    let nodes2 = vec![TermNode::Sequence(vec![1]), TermNode::Sequence(vec![0])];
    assert!(matches!(node_to_pattern(&nodes2, 0), Err(RefrainError::Rewrite(_))));
}
