//! Further parser cases: edge cases of the grammar and the laws on
//! concrete values.

use refrain::{parse, Op, Pattern, RefrainError, StageKind};

#[test]
fn empty_stage_is_rejected() {
    assert!(matches!(parse("(refrain a (territorialize))"), Err(RefrainError::Parse(_))));
}

#[test]
fn duplicate_stage_is_rejected() {
    let r = parse("(refrain a (territorialize (note C4 q)) (territorialize (note D4 q)))");
    assert!(matches!(r, Err(RefrainError::Parse(_))));
}

#[test]
fn note_needs_two_atoms() {
    assert!(parse("(refrain a (territorialize (note C4)))").is_err());
    assert!(parse("(refrain a (territorialize (note C4 q e)))").is_err());
    assert!(parse("(refrain a (territorialize (note (x) q)))").is_err());
}

#[test]
fn loop_count_bounds() {
    let r = parse("(refrain a (territorialize (loop 4294967295 x)))").unwrap();
    match r.territorialize.unwrap() {
        Pattern::Op(Op::Loop { count, body }) => {
            assert_eq!(count, u32::MAX);
            assert_eq!(*body, Pattern::Op(Op::Sym("x".to_string())));
        }
        other => panic!("expected Loop, got {:?}", other),
    }
    assert!(parse("(refrain a (territorialize (loop 4294967296 x)))").is_err());
    assert!(parse("(refrain a (territorialize (loop -1 x)))").is_err());
    assert!(parse("(refrain a (territorialize (loop 007 x)))").is_ok());
}

#[test]
fn quotient_takes_atoms_only() {
    assert!(parse("(refrain a (reterritorialize (quotient ~a (b))))").is_err());
    let r = parse("(refrain a (reterritorialize (quotient)))").unwrap();
    assert_eq!(r.reterritorialize, Some(Pattern::Op(Op::Quotient { rels: vec![] })));
}

#[test]
fn trailing_text_is_rejected() {
    assert!(parse("(refrain a) b").is_err());
    assert!(parse("(refrain a))").is_err());
    assert!(parse("").is_err());
    assert!(parse("   ; only a comment").is_err());
}

#[test]
fn head_of_a_form_must_be_an_atom() {
    assert!(parse("(refrain a (territorialize ((x) y)))").is_err());
    assert!(parse("(refrain a (territorialize ()))").is_err());
    assert!(parse("((refrain) a)").is_err());
    assert!(parse("(refrain (a))").is_err());
}

#[test]
fn stages_come_out_in_order() {
    let r = parse(
        "(refrain a (reterritorialize (quotient ~r)) (territorialize x) (deterritorialize (dy/dx a b)))",
    )
    .unwrap();
    let kinds: Vec<StageKind> = r.stages().iter().map(|(k, _)| *k).collect();
    assert_eq!(
        kinds,
        vec![StageKind::Territorialize, StageKind::Deterritorialize, StageKind::Reterritorialize]
    );
    assert_eq!(r.territorialize, Some(Pattern::Op(Op::Sym("x".to_string()))));
}

#[test]
fn call_keeps_nested_arguments() {
    let r = parse("(refrain a (territorialize (arp (note C4 q) x)))").unwrap();
    assert_eq!(
        r.territorialize,
        Some(Pattern::Op(Op::Call {
            head: "arp".to_string(),
            args: vec![
                Pattern::Op(Op::Note { pitch: "C4".to_string(), dur: "q".to_string() }),
                Pattern::Op(Op::Sym("x".to_string())),
            ],
        }))
    );
}

#[test]
fn comment_prefix_is_transparent_on_examples() {
    for name in ["a", "melody-a", "x_1"] {
        let plain = format!("(refrain {})", name);
        for comment in ["", " hello", ";;; (refrain b)", "(("] {
            let with_comment = format!(";{}\n{}", comment, plain);
            assert_eq!(parse(&plain).unwrap(), parse(&with_comment).unwrap());
        }
    }
    assert!(parse("; (refrain a)").is_err());
}

#[test]
fn bare_refrain_keeps_its_name() {
    for name in ["a", "refrain", "z9_-", "#$%"] {
        let r = parse(&format!("(refrain {})", name)).unwrap();
        assert_eq!(r.name, name);
        assert!(r.stages().is_empty());
    }
}

#[test]
fn note_refrain_parses_to_its_note() {
    let r = parse("(refrain n (territorialize (note Bb3 s)))").unwrap();
    assert_eq!(r.name, "n");
    assert_eq!(
        r.territorialize,
        Some(Pattern::Op(Op::Note { pitch: "Bb3".to_string(), dur: "s".to_string() }))
    );
    assert!(r.deterritorialize.is_none() && r.reterritorialize.is_none());
}

#[test]
fn blanks_of_all_kinds_separate_tokens() {
    let r = parse("(refrain\ta\r\n(territorialize\x0C(note C4 q)))").unwrap();
    assert_eq!(r.name, "a");
}

#[test]
fn stage_keywords() {
    assert_eq!(StageKind::Territorialize.as_str(), "territorialize");
    assert_eq!(StageKind::Deterritorialize.as_str(), "deterritorialize");
    assert_eq!(StageKind::Reterritorialize.as_str(), "reterritorialize");
}

#[test]
fn non_ascii_atoms_are_kept() {
    let r = parse("(refrain π (territorialize (note ré♯ q)))").unwrap();
    assert_eq!(r.name, "π");
    assert_eq!(
        r.territorialize,
        Some(Pattern::Op(Op::Note { pitch: "ré♯".to_string(), dur: "q".to_string() }))
    );
}
