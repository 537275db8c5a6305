//! Refrain AST.
//!
//! A `Refrain` is a named time-pattern with three structural stages,
//! `territorialize`, `deterritorialize` and `reterritorialize`, each holding
//! an optional `Pattern` tree built from primitive `Op` nodes.
//!
//! Each executable type has a mathematical model (its view): strings become
//! `Seq<char>`, vectors become `Seq`s of the models of their elements.

use vstd::prelude::*;

verus! {

/// A named, three-stage time pattern.
#[derive(Debug, Clone, PartialEq)]
pub struct Refrain {
    pub name: String,
    pub territorialize: Option<Pattern>,
    pub deterritorialize: Option<Pattern>,
    pub reterritorialize: Option<Pattern>,
}

/// A pattern: a single operator or a sequence of patterns.
#[derive(Debug, PartialEq)]
pub enum Pattern {
    Op(Op),
    Sequence(Vec<Pattern>),
}

/// The primitive operators of the refrain language.
#[derive(Debug, PartialEq)]
pub enum Op {
    Note { pitch: String, dur: String },
    Loop { count: u32, body: Box<Pattern> },
    Diff { x: String, t: String },
    Quotient { rels: Vec<String> },
    Sym(String),
    Call { head: String, args: Vec<Pattern> },
}

/// The three stages of a refrain, in their order of evaluation.
#[derive(Debug, Clone, Copy, PartialEq, Eq)]
pub enum StageKind {
    Territorialize,
    Deterritorialize,
    Reterritorialize,
}

/// Model of a `Pattern`.
#[verifier::ext_equal]
pub enum SpecPattern {
    Op(SpecOp),
    Sequence(Seq<SpecPattern>),
}

/// Model of an `Op`.
#[verifier::ext_equal]
pub enum SpecOp {
    Note { pitch: Seq<char>, dur: Seq<char> },
    Loop { count: u32, body: Box<SpecPattern> },
    Diff { x: Seq<char>, t: Seq<char> },
    Quotient { rels: Seq<Seq<char>> },
    Sym(Seq<char>),
    Call { head: Seq<char>, args: Seq<SpecPattern> },
}

/// Model of a `Refrain`.
#[verifier::ext_equal]
pub struct SpecRefrain {
    pub name: Seq<char>,
    pub territorialize: Option<SpecPattern>,
    pub deterritorialize: Option<SpecPattern>,
    pub reterritorialize: Option<SpecPattern>,
}

/// The model of a pattern.
pub open spec fn pattern_model(p: Pattern) -> SpecPattern
    decreases p,
{
    match p {
        Pattern::Op(op) => SpecPattern::Op(op_model(op)),
        Pattern::Sequence(items) => SpecPattern::Sequence(patterns_model(items@)),
    }
}

/// The model of an operator.
pub open spec fn op_model(op: Op) -> SpecOp
    decreases op,
{
    match op {
        Op::Note { pitch, dur } => SpecOp::Note { pitch: pitch@, dur: dur@ },
        Op::Loop { count, body } => SpecOp::Loop { count, body: Box::new(pattern_model(*body)) },
        Op::Diff { x, t } => SpecOp::Diff { x: x@, t: t@ },
        Op::Quotient { rels } => SpecOp::Quotient { rels: strings_model(rels@) },
        Op::Sym(s) => SpecOp::Sym(s@),
        Op::Call { head, args } => SpecOp::Call { head: head@, args: patterns_model(args@) },
    }
}

/// The models of a sequence of patterns, element by element.
pub open spec fn patterns_model(s: Seq<Pattern>) -> Seq<SpecPattern>
    decreases s,
{
    if s.len() == 0 {
        Seq::empty()
    } else {
        patterns_model(s.drop_last()).push(pattern_model(s.last()))
    }
}

/// The views of a sequence of strings.
pub open spec fn strings_model(s: Seq<String>) -> Seq<Seq<char>> {
    s.map_values(|x: String| x@)
}

pub open spec fn option_pattern_model(p: Option<Pattern>) -> Option<SpecPattern> {
    match p {
        Some(q) => Some(pattern_model(q)),
        None => None,
    }
}

impl View for Pattern {
    type V = SpecPattern;

    open spec fn view(&self) -> SpecPattern {
        pattern_model(*self)
    }
}

impl View for Op {
    type V = SpecOp;

    open spec fn view(&self) -> SpecOp {
        op_model(*self)
    }
}

impl View for Refrain {
    type V = SpecRefrain;

    open spec fn view(&self) -> SpecRefrain {
        SpecRefrain {
            name: self.name@,
            territorialize: option_pattern_model(self.territorialize),
            deterritorialize: option_pattern_model(self.deterritorialize),
            reterritorialize: option_pattern_model(self.reterritorialize),
        }
    }
}

/// `patterns_model` keeps the length and maps each element.
pub proof fn lemma_patterns_model(s: Seq<Pattern>)
    ensures
        patterns_model(s).len() == s.len(),
        forall|i: int| 0 <= i < s.len() ==> #[trigger] patterns_model(s)[i] == pattern_model(s[i]),
    decreases s.len(),
{
    if s.len() > 0 {
        lemma_patterns_model(s.drop_last());
    }
}

impl StageKind {
    /// The keyword that names this stage in the refrain language.
    pub open spec fn keyword(self) -> Seq<char> {
        match self {
            StageKind::Territorialize => seq!['t', 'e', 'r', 'r', 'i', 't', 'o', 'r', 'i', 'a', 'l', 'i', 'z', 'e'],
            StageKind::Deterritorialize => seq!['d', 'e', 't', 'e', 'r', 'r', 'i', 't', 'o', 'r', 'i', 'a', 'l', 'i', 'z', 'e'],
            StageKind::Reterritorialize => seq!['r', 'e', 't', 'e', 'r', 'r', 'i', 't', 'o', 'r', 'i', 'a', 'l', 'i', 'z', 'e'],
        }
    }

    /// The keyword of the stage, as written in the refrain language.
    pub fn as_str(self) -> (s: &'static str)
        ensures
            s@ == self.keyword(),
    {
        match self {
            StageKind::Territorialize => {
                let s = "territorialize";
                proof {
                    reveal_strlit("territorialize");
                }
                s
            },
            StageKind::Deterritorialize => {
                let s = "deterritorialize";
                proof {
                    reveal_strlit("deterritorialize");
                }
                s
            },
            StageKind::Reterritorialize => {
                let s = "reterritorialize";
                proof {
                    reveal_strlit("reterritorialize");
                }
                s
            },
        }
    }
}

impl SpecRefrain {
    /// The refrain with the given name and no stage.
    pub open spec fn named(name: Seq<char>) -> SpecRefrain {
        SpecRefrain { name, territorialize: None, deterritorialize: None, reterritorialize: None }
    }

    /// The pattern of the given stage, if the refrain has that stage.
    pub open spec fn stage(self, kind: StageKind) -> Option<SpecPattern> {
        match kind {
            StageKind::Territorialize => self.territorialize,
            StageKind::Deterritorialize => self.deterritorialize,
            StageKind::Reterritorialize => self.reterritorialize,
        }
    }

    /// The refrain with the given stage set to `p`, the others unchanged.
    pub open spec fn with_stage(self, kind: StageKind, p: SpecPattern) -> SpecRefrain {
        match kind {
            StageKind::Territorialize => SpecRefrain { territorialize: Some(p), ..self },
            StageKind::Deterritorialize => SpecRefrain { deterritorialize: Some(p), ..self },
            StageKind::Reterritorialize => SpecRefrain { reterritorialize: Some(p), ..self },
        }
    }

    /// The present stages, in evaluation order.
    pub open spec fn present_stages(self) -> Seq<(StageKind, SpecPattern)> {
        let t = match self.territorialize {
            Some(p) => seq![(StageKind::Territorialize, p)],
            None => Seq::empty(),
        };
        let d = match self.deterritorialize {
            Some(p) => seq![(StageKind::Deterritorialize, p)],
            None => Seq::empty(),
        };
        let r = match self.reterritorialize {
            Some(p) => seq![(StageKind::Reterritorialize, p)],
            None => Seq::empty(),
        };
        t + d + r
    }
}

impl Refrain {
    /// A refrain with the given name and no stage.
    pub fn new(name: &str) -> (r: Refrain)
        ensures
            r@ == SpecRefrain::named(name@),
    {
        Refrain {
            name: name.to_owned(),
            territorialize: None,
            deterritorialize: None,
            reterritorialize: None,
        }
    }

    /// The present stages with their patterns, in evaluation order
    /// (territorialize, deterritorialize, reterritorialize).
    pub fn stages(&self) -> (v: Vec<(StageKind, &Pattern)>)
        ensures
            v@.len() == self@.present_stages().len(),
            forall|i: int|
                0 <= i < v@.len() ==> (#[trigger] v@[i]).0 == self@.present_stages()[i].0
                    && v@[i].1@ == self@.present_stages()[i].1,
    {
        let mut v: Vec<(StageKind, &Pattern)> = Vec::new();
        if let Some(p) = &self.territorialize {
            v.push((StageKind::Territorialize, p));
        }
        if let Some(p) = &self.deterritorialize {
            v.push((StageKind::Deterritorialize, p));
        }
        if let Some(p) = &self.reterritorialize {
            v.push((StageKind::Reterritorialize, p));
        }
        v
    }
}

/// A copy of a pattern.
fn clone_pattern(p: &Pattern) -> (r: Pattern)
    ensures
        r@ == p@,
    decreases p,
{
    match p {
        Pattern::Op(op) => Pattern::Op(clone_op(op)),
        Pattern::Sequence(items) => Pattern::Sequence(clone_patterns(items)),
    }
}

/// A copy of an operator.
fn clone_op(op: &Op) -> (r: Op)
    ensures
        r@ == op@,
    decreases op,
{
    match op {
        Op::Note { pitch, dur } => Op::Note { pitch: pitch.clone(), dur: dur.clone() },
        Op::Loop { count, body } => Op::Loop { count: *count, body: Box::new(clone_pattern(body)) },
        Op::Diff { x, t } => Op::Diff { x: x.clone(), t: t.clone() },
        Op::Quotient { rels } => {
            let mut out: Vec<String> = Vec::new();
            let mut i: usize = 0;
            while i < rels.len()
                invariant
                    i <= rels@.len(),
                    strings_model(out@) == strings_model(rels@.take(i as int)),
                decreases rels@.len() - i,
            {
                out.push(rels[i].clone());
                assert(strings_model(rels@.take(i + 1)) =~= strings_model(rels@.take(i as int)).push(
                    rels@[i as int]@,
                ));
                assert(strings_model(out@) =~= strings_model(rels@.take(i + 1)));
                i = i + 1;
            }
            assert(rels@.take(rels@.len() as int) =~= rels@);
            Op::Quotient { rels: out }
        },
        Op::Sym(s) => Op::Sym(s.clone()),
        Op::Call { head, args } => Op::Call { head: head.clone(), args: clone_patterns(args) },
    }
}

/// Copies of a list of patterns.
fn clone_patterns(ps: &Vec<Pattern>) -> (r: Vec<Pattern>)
    ensures
        patterns_model(r@) == patterns_model(ps@),
    decreases ps@,
{
    let mut out: Vec<Pattern> = Vec::new();
    let mut i: usize = 0;
    assert(patterns_model(ps@.take(0)) =~= patterns_model(out@));
    while i < ps.len()
        invariant
            i <= ps@.len(),
            patterns_model(out@) == patterns_model(ps@.take(i as int)),
        decreases ps@.len() - i,
    {
        let q = clone_pattern(&ps[i]);
        let ghost prev = out@;
        out.push(q);
        proof {
            assert(out@.drop_last() =~= prev);
            assert(ps@.take(i + 1).drop_last() =~= ps@.take(i as int));
        }
        i = i + 1;
    }
    assert(ps@.take(ps@.len() as int) =~= ps@);
    out
}

impl Clone for Pattern {
    fn clone(&self) -> (r: Pattern)
        ensures
            r@ == self@,
    {
        clone_pattern(self)
    }
}

impl Clone for Op {
    fn clone(&self) -> (r: Op)
        ensures
            r@ == self@,
    {
        clone_op(self)
    }
}

} // verus!
