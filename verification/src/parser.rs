//! Parser of the refrain language.
//!
//! ```text
//! refrain    ::= "(" "refrain" ATOM stage* ")"
//! stage      ::= "(" stage-kind pattern+ ")"
//! stage-kind ::= "territorialize" | "deterritorialize" | "reterritorialize"
//! pattern    ::= ATOM | "(" head pattern* ")"
//! ```
//!
//! A stage with one pattern holds that pattern; a stage with several holds
//! their sequence. `note`, `loop` and `dy/dx` take exactly two arguments
//! (atoms, except the body of a loop), `loop` takes a decimal count that fits
//! in 32 bits, `quotient` takes atoms only, and any other head is kept as a
//! call. Each stage kind occurs at most once.

use vstd::prelude::*;

use crate::ast::{Op, Pattern, Refrain, SpecOp, SpecPattern, SpecRefrain, StageKind};
use crate::error::RefrainError;
use crate::lexer::{chars_of, tokenize, tokenize_str, tokens_model};
use crate::sexp::{
    lemma_sexps_model, read_sexp, read_sexp_at, sexps_model, SExp, SpecSExp,
};

verus! {

pub open spec fn kw_refrain() -> Seq<char> {
    seq!['r', 'e', 'f', 'r', 'a', 'i', 'n']
}

pub open spec fn kw_note() -> Seq<char> {
    seq!['n', 'o', 't', 'e']
}

pub open spec fn kw_loop() -> Seq<char> {
    seq!['l', 'o', 'o', 'p']
}

pub open spec fn kw_diff() -> Seq<char> {
    seq!['d', 'y', '/', 'd', 'x']
}

pub open spec fn kw_quotient() -> Seq<char> {
    seq!['q', 'u', 'o', 't', 'i', 'e', 'n', 't']
}

/// The stage kind named by an atom.
pub open spec fn stage_kind_of(a: Seq<char>) -> Option<StageKind> {
    if a == StageKind::Territorialize.keyword() {
        Some(StageKind::Territorialize)
    } else if a == StageKind::Deterritorialize.keyword() {
        Some(StageKind::Deterritorialize)
    } else if a == StageKind::Reterritorialize.keyword() {
        Some(StageKind::Reterritorialize)
    } else {
        None
    }
}

pub open spec fn is_digit(c: char) -> bool {
    '0' <= c <= '9'
}

/// The value of a string of decimal digits.
pub open spec fn digits_value(s: Seq<char>) -> nat
    decreases s.len(),
{
    if s.len() == 0 {
        0
    } else {
        digits_value(s.drop_last()) * 10 + ((s.last() as u32) - ('0' as u32)) as nat
    }
}

/// The loop count written by an atom: a non-empty string of decimal digits
/// whose value fits in 32 bits.
pub open spec fn count_of(s: Seq<char>) -> Option<u32> {
    if s.len() > 0 && (forall|i: int| 0 <= i < s.len() ==> #[trigger] is_digit(s[i]))
        && digits_value(s) <= u32::MAX {
        Some(digits_value(s) as u32)
    } else {
        None
    }
}

/// The atoms of a list of S-expressions, when they are all atoms.
pub open spec fn atoms_of(es: Seq<SpecSExp>) -> Option<Seq<Seq<char>>>
    decreases es.len(),
{
    if es.len() == 0 {
        Some(Seq::empty())
    } else {
        match (es[0], atoms_of(es.drop_first())) {
            (SpecSExp::Atom(a), Some(rest)) => Some(seq![a] + rest),
            _ => None,
        }
    }
}

/// The pattern written by an S-expression.
pub open spec fn pattern_of(e: SpecSExp) -> Option<SpecPattern>
    decreases e,
{
    match e {
        SpecSExp::Atom(a) => Some(SpecPattern::Op(SpecOp::Sym(a))),
        SpecSExp::List(items) => {
            if items.len() == 0 {
                None
            } else {
                match items[0] {
                    SpecSExp::List(_) => None,
                    SpecSExp::Atom(h) => {
                        if h == kw_note() {
                            if items.len() == 3 {
                                match (items[1], items[2]) {
                                    (SpecSExp::Atom(p), SpecSExp::Atom(d)) => Some(
                                        SpecPattern::Op(SpecOp::Note { pitch: p, dur: d }),
                                    ),
                                    _ => None,
                                }
                            } else {
                                None
                            }
                        } else if h == kw_loop() {
                            if items.len() == 3 {
                                match items[1] {
                                    SpecSExp::Atom(c) => match (count_of(c), pattern_of(items[2])) {
                                        (Some(n), Some(b)) => Some(
                                            SpecPattern::Op(SpecOp::Loop { count: n, body: Box::new(b) }),
                                        ),
                                        _ => None,
                                    },
                                    _ => None,
                                }
                            } else {
                                None
                            }
                        } else if h == kw_diff() {
                            if items.len() == 3 {
                                match (items[1], items[2]) {
                                    (SpecSExp::Atom(x), SpecSExp::Atom(t)) => Some(
                                        SpecPattern::Op(SpecOp::Diff { x, t }),
                                    ),
                                    _ => None,
                                }
                            } else {
                                None
                            }
                        } else if h == kw_quotient() {
                            match atoms_of(items.drop_first()) {
                                Some(rels) => Some(SpecPattern::Op(SpecOp::Quotient { rels })),
                                None => None,
                            }
                        } else {
                            match patterns_of(items.drop_first()) {
                                Some(args) => Some(SpecPattern::Op(SpecOp::Call { head: h, args })),
                                None => None,
                            }
                        }
                    },
                }
            }
        },
    }
}

/// The patterns written by a list of S-expressions, when they all write one.
pub open spec fn patterns_of(es: Seq<SpecSExp>) -> Option<Seq<SpecPattern>>
    decreases es,
{
    if es.len() == 0 {
        Some(Seq::empty())
    } else {
        match (pattern_of(es[0]), patterns_of(es.drop_first())) {
            (Some(p), Some(rest)) => Some(seq![p] + rest),
            _ => None,
        }
    }
}

/// The pattern of a stage body: the pattern itself when there is one, their
/// sequence otherwise.
pub open spec fn stage_body(ps: Seq<SpecPattern>) -> SpecPattern {
    if ps.len() == 1 {
        ps[0]
    } else {
        SpecPattern::Sequence(ps)
    }
}

/// The stage written by an S-expression.
pub open spec fn stage_of(e: SpecSExp) -> Option<(StageKind, SpecPattern)> {
    match e {
        SpecSExp::List(items) => {
            if items.len() >= 2 {
                match items[0] {
                    SpecSExp::Atom(k) => match (stage_kind_of(k), patterns_of(items.drop_first())) {
                        (Some(kind), Some(ps)) => Some((kind, stage_body(ps))),
                        _ => None,
                    },
                    _ => None,
                }
            } else {
                None
            }
        },
        _ => None,
    }
}

/// Adds the stages written by `stages` to `r`, refusing a stage kind that
/// is already present.
pub open spec fn add_stages(r: SpecRefrain, stages: Seq<SpecSExp>) -> Option<SpecRefrain>
    decreases stages.len(),
{
    if stages.len() == 0 {
        Some(r)
    } else {
        match stage_of(stages[0]) {
            Some((kind, p)) => if r.stage(kind) is Some {
                None
            } else {
                add_stages(r.with_stage(kind, p), stages.drop_first())
            },
            None => None,
        }
    }
}

/// The refrain written by an S-expression.
pub open spec fn refrain_of(e: SpecSExp) -> Option<SpecRefrain> {
    match e {
        SpecSExp::List(items) => {
            if items.len() >= 2 && items[0] == SpecSExp::Atom(kw_refrain()) {
                match items[1] {
                    SpecSExp::Atom(name) => add_stages(SpecRefrain::named(name), items.skip(2)),
                    _ => None,
                }
            } else {
                None
            }
        },
        _ => None,
    }
}

/// The refrain written by a source text, if the text is a well-formed refrain:
/// its tokens hold exactly one S-expression, and that S-expression writes a
/// refrain.
pub open spec fn spec_parse(src: Seq<char>) -> Option<SpecRefrain> {
    let toks = tokenize(src);
    match read_sexp(toks, 0) {
        Some((e, p)) => if p == toks.len() {
            refrain_of(e)
        } else {
            None
        },
        None => None,
    }
}

fn parse_error(msg: &str) -> (e: RefrainError)
    ensures
        e matches RefrainError::Parse(m) && m@ == msg@,
{
    RefrainError::Parse(msg.to_owned())
}

/// Whether an atom is the given keyword.
fn eq_keyword(a: &String, kw: &str) -> (b: bool)
    ensures
        b == (a@ == kw@),
{
    let k = kw.to_owned();
    *a == k
}

/// Lower bound of the value of a digit string by the value of a prefix.
proof fn lemma_digits_value_prefix(s: Seq<char>, i: int)
    requires
        0 <= i <= s.len(),
        forall|k: int| 0 <= k < s.len() ==> #[trigger] is_digit(s[k]),
    ensures
        digits_value(s.take(i)) <= digits_value(s),
    decreases s.len(),
{
    if i < s.len() {
        assert(s.drop_last().take(i) =~= s.take(i));
        assert forall|k: int| 0 <= k < s.drop_last().len() implies #[trigger] is_digit(
            s.drop_last()[k],
        ) by {
            assert(is_digit(s[k]));
        }
        lemma_digits_value_prefix(s.drop_last(), i);
        assert(digits_value(s.drop_last()) <= digits_value(s)) by (nonlinear_arith)
            requires
                digits_value(s) == digits_value(s.drop_last()) * 10 + ((s.last() as u32) - ('0' as u32)) as nat,
        ;
    } else {
        assert(s.take(i) =~= s);
    }
}

/// The loop count written by an atom.
fn count_from(a: &String) -> (r: Option<u32>)
    ensures
        r == count_of(a@),
{
    let chars = chars_of(a.as_str());
    let n = chars.len();
    if n == 0 {
        return None;
    }
    let ghost s = a@;
    let mut acc: u64 = 0;
    let mut i: usize = 0;
    while i < n
        invariant
            n == s.len(),
            chars@ == s,
            0 <= i <= n,
            s == a@,
            acc == digits_value(s.take(i as int)),
            acc <= u32::MAX,
            forall|k: int| 0 <= k < i ==> #[trigger] is_digit(s[k]),
        decreases n - i,
    {
        let c = chars[i];
        if !('0' <= c && c <= '9') {
            assert(!is_digit(s[i as int]));
            return None;
        }
        let d = (c as u32 - '0' as u32) as u64;
        assert(s.take(i + 1).drop_last() =~= s.take(i as int));
        assert(acc * 10 + d <= u32::MAX * 10 + 9) by (nonlinear_arith)
            requires
                acc <= u32::MAX,
                d <= 9,
        ;
        let next = acc * 10 + d;
        assert(next == digits_value(s.take(i + 1)));
        if next > u32::MAX as u64 {
            proof {
                if forall|k: int| 0 <= k < s.len() ==> #[trigger] is_digit(s[k]) {
                    lemma_digits_value_prefix(s, i + 1);
                    assert(digits_value(s) > u32::MAX);
                }
            }
            return None;
        }
        acc = next;
        i = i + 1;
    }
    assert(s.take(n as int) =~= s);
    Some(acc as u32)
}

/// The atoms of `items[from..]`, when they are all atoms.
fn atoms_from(items: &Vec<SExp>, from: usize) -> (r: Option<Vec<String>>)
    requires
        from <= items@.len(),
    ensures
        match r {
            Some(v) => atoms_of(sexps_model(items@).skip(from as int)) == Some(
                crate::ast::strings_model(v@),
            ),
            None => atoms_of(sexps_model(items@).skip(from as int)) is None,
        },
{
    let ghost m = sexps_model(items@);
    proof {
        lemma_sexps_model(items@);
    }
    let mut out: Vec<String> = Vec::new();
    let mut i = from;
    assert(crate::ast::strings_model(out@) =~= Seq::<Seq<char>>::empty());
    while i < items.len()
        invariant
            from <= i <= items@.len(),
            m == sexps_model(items@),
            m.len() == items@.len(),
            forall|k: int| 0 <= k < items@.len() ==> #[trigger] m[k] == items@[k]@,
            atoms_of(m.skip(from as int)) == match atoms_of(m.skip(i as int)) {
                Some(rest) => Some(crate::ast::strings_model(out@) + rest),
                None => None,
            },
        decreases items@.len() - i,
    {
        assert(m.skip(i as int)[0] == m[i as int]);
        assert(m.skip(i as int).drop_first() =~= m.skip(i + 1));
        match &items[i] {
            SExp::Atom(a) => {
                let ghost old_out = out@;
                out.push(a.clone());
                assert(crate::ast::strings_model(out@) =~= crate::ast::strings_model(old_out) + seq![a@]);
                proof {
                    match atoms_of(m.skip(i + 1)) {
                        Some(rest) => {
                            assert(crate::ast::strings_model(old_out) + (seq![a@] + rest) =~= crate::ast::strings_model(out@) + rest);
                        },
                        None => {},
                    }
                }
            },
            SExp::List(_) => {
                return None;
            },
        }
        i = i + 1;
    }
    assert(m.skip(i as int) =~= Seq::<SpecSExp>::empty());
    assert(crate::ast::strings_model(out@) + Seq::<Seq<char>>::empty() =~= crate::ast::strings_model(out@));
    Some(out)
}

/// The pattern written by an S-expression.
fn pattern_from(e: &SExp) -> (r: Result<Pattern, RefrainError>)
    ensures
        match r {
            Ok(p) => pattern_of(e@) == Some(p@),
            Err(err) => pattern_of(e@) is None && err is Parse,
        },
    decreases e,
{
    match e {
        SExp::Atom(a) => Ok(Pattern::Op(Op::Sym(a.clone()))),
        SExp::List(items) => {
            let ghost m = sexps_model(items@);
            proof {
                lemma_sexps_model(items@);
            }
            assert(e@ == SpecSExp::List(m));
            if items.len() == 0 {
                return Err(parse_error("empty list"));
            }
            match &items[0] {
                SExp::List(_) => Err(parse_error("operator head must be an atom")),
                SExp::Atom(h) => {
                    assert(m[0] == items@[0]@);
                    assert(m[0] == SpecSExp::Atom(h@));
                    proof {
                        reveal_strlit("note");
                        reveal_strlit("loop");
                        reveal_strlit("dy/dx");
                        reveal_strlit("quotient");
                        assert("note"@ =~= kw_note());
                        assert("loop"@ =~= kw_loop());
                        assert("dy/dx"@ =~= kw_diff());
                        assert("quotient"@ =~= kw_quotient());
                    }
                    if eq_keyword(h, "note") {
                        assert(h@ =~= kw_note());
                        if items.len() != 3 {
                            return Err(parse_error("note takes a pitch and a duration"));
                        }
                        match (&items[1], &items[2]) {
                            (SExp::Atom(p), SExp::Atom(d)) => Ok(
                                Pattern::Op(Op::Note { pitch: p.clone(), dur: d.clone() }),
                            ),
                            _ => Err(parse_error("note takes a pitch and a duration")),
                        }
                    } else if eq_keyword(h, "loop") {
                        assert(h@ =~= kw_loop());
                        if items.len() != 3 {
                            return Err(parse_error("loop takes a count and a body"));
                        }
                        match &items[1] {
                            SExp::Atom(c) => {
                                let count = count_from(c);
                                match count {
                                    None => Err(parse_error("loop count must be a 32-bit decimal")),
                                    Some(n) => {
                                        let body = pattern_from(&items[2]);
                                        match body {
                                            Ok(b) => Ok(
                                                Pattern::Op(Op::Loop { count: n, body: Box::new(b) }),
                                            ),
                                            Err(err) => Err(err),
                                        }
                                    },
                                }
                            },
                            SExp::List(_) => Err(parse_error("loop count must be a 32-bit decimal")),
                        }
                    } else if eq_keyword(h, "dy/dx") {
                        assert(h@ =~= kw_diff());
                        if items.len() != 3 {
                            return Err(parse_error("dy/dx takes two atoms"));
                        }
                        match (&items[1], &items[2]) {
                            (SExp::Atom(x), SExp::Atom(t)) => Ok(
                                Pattern::Op(Op::Diff { x: x.clone(), t: t.clone() }),
                            ),
                            _ => Err(parse_error("dy/dx takes two atoms")),
                        }
                    } else if eq_keyword(h, "quotient") {
                        assert(h@ =~= kw_quotient());
                        assert(m.drop_first() =~= m.skip(1));
                        match atoms_from(items, 1) {
                            Some(rels) => Ok(Pattern::Op(Op::Quotient { rels })),
                            None => Err(parse_error("quotient takes atoms only")),
                        }
                    } else {
                        assert(m.drop_first() =~= m.skip(1));
                        match patterns_from(items, 1) {
                            Ok(args) => Ok(Pattern::Op(Op::Call { head: h.clone(), args })),
                            Err(err) => Err(err),
                        }
                    }
                },
            }
        },
    }
}

/// The patterns written by `items[from..]`.
fn patterns_from(items: &Vec<SExp>, from: usize) -> (r: Result<Vec<Pattern>, RefrainError>)
    requires
        from <= items@.len(),
    ensures
        match r {
            Ok(v) => patterns_of(sexps_model(items@).skip(from as int)) == Some(
                crate::ast::patterns_model(v@),
            ),
            Err(err) => patterns_of(sexps_model(items@).skip(from as int)) is None && err is Parse,
        },
    decreases items@,
{
    let ghost m = sexps_model(items@);
    proof {
        lemma_sexps_model(items@);
    }
    let mut out: Vec<Pattern> = Vec::new();
    let mut i = from;
    assert(crate::ast::patterns_model(out@) =~= Seq::<SpecPattern>::empty());
    while i < items.len()
        invariant
            from <= i <= items@.len(),
            m == sexps_model(items@),
            m.len() == items@.len(),
            forall|k: int| 0 <= k < items@.len() ==> #[trigger] m[k] == items@[k]@,
            patterns_of(m.skip(from as int)) == match patterns_of(m.skip(i as int)) {
                Some(rest) => Some(crate::ast::patterns_model(out@) + rest),
                None => None,
            },
        decreases items@.len() - i,
    {
        assert(m.skip(i as int)[0] == m[i as int]);
        assert(m.skip(i as int).drop_first() =~= m.skip(i + 1));
        let p = pattern_from(&items[i]);
        match p {
            Ok(p) => {
                let ghost old_out = out@;
                out.push(p);
                assert(out@.drop_last() =~= old_out);
                assert(crate::ast::patterns_model(out@) == crate::ast::patterns_model(old_out).push(p@));
                proof {
                    match patterns_of(m.skip(i + 1)) {
                        Some(rest) => {
                            assert(crate::ast::patterns_model(old_out) + (seq![p@] + rest) =~= crate::ast::patterns_model(out@) + rest);
                        },
                        None => {},
                    }
                }
            },
            Err(err) => {
                return Err(err);
            },
        }
        i = i + 1;
    }
    assert(m.skip(i as int) =~= Seq::<SpecSExp>::empty());
    assert(crate::ast::patterns_model(out@) + Seq::<SpecPattern>::empty() =~= crate::ast::patterns_model(out@));
    Ok(out)
}

/// The stage kind named by an atom.
fn stage_kind_from(k: &String) -> (r: Option<StageKind>)
    ensures
        r == stage_kind_of(k@),
{
    proof {
        reveal_strlit("territorialize");
        reveal_strlit("deterritorialize");
        reveal_strlit("reterritorialize");
        assert("territorialize"@ =~= StageKind::Territorialize.keyword());
        assert("deterritorialize"@ =~= StageKind::Deterritorialize.keyword());
        assert("reterritorialize"@ =~= StageKind::Reterritorialize.keyword());
    }
    if eq_keyword(k, "territorialize") {
        Some(StageKind::Territorialize)
    } else if eq_keyword(k, "deterritorialize") {
        Some(StageKind::Deterritorialize)
    } else if eq_keyword(k, "reterritorialize") {
        Some(StageKind::Reterritorialize)
    } else {
        None
    }
}

/// The stage written by an S-expression.
fn stage_from(e: &SExp) -> (r: Result<(StageKind, Pattern), RefrainError>)
    ensures
        match r {
            Ok((kind, p)) => stage_of(e@) == Some((kind, p@)),
            Err(err) => stage_of(e@) is None && err is Parse,
        },
{
    match e {
        SExp::Atom(_) => Err(parse_error("a stage is a list")),
        SExp::List(items) => {
            let ghost m = sexps_model(items@);
            proof {
                lemma_sexps_model(items@);
            }
            assert(e@ == SpecSExp::List(m));
            if items.len() < 2 {
                return Err(parse_error("a stage holds at least one pattern"));
            }
            match &items[0] {
                SExp::List(_) => Err(parse_error("a stage starts with its kind")),
                SExp::Atom(k) => {
                    assert(m[0] == items@[0]@);
                    let kind = stage_kind_from(k);
                    match kind {
                        None => Err(parse_error("unknown stage kind")),
                        Some(kind) => {
                            assert(m.drop_first() =~= m.skip(1));
                            match patterns_from(items, 1) {
                                Err(err) => Err(err),
                                Ok(mut ps) => {
                                    proof {
                                        crate::ast::lemma_patterns_model(ps@);
                                    }
                                    if ps.len() == 1 {
                                        let ghost ps0 = ps@;
                                        let p = ps.pop().unwrap();
                                        assert(p == ps0[0]);
                                        Ok((kind, p))
                                    } else {
                                        Ok((kind, Pattern::Sequence(ps)))
                                    }
                                },
                            }
                        },
                    }
                },
            }
        },
    }
}

/// The refrain written by an S-expression.
fn refrain_from(e: &SExp) -> (r: Result<Refrain, RefrainError>)
    ensures
        match r {
            Ok(x) => refrain_of(e@) == Some(x@),
            Err(err) => refrain_of(e@) is None && err is Parse,
        },
{
    match e {
        SExp::Atom(_) => Err(parse_error("a refrain is a list")),
        SExp::List(items) => {
            let ghost m = sexps_model(items@);
            proof {
                lemma_sexps_model(items@);
                reveal_strlit("refrain");
                assert("refrain"@ =~= kw_refrain());
            }
            assert(e@ == SpecSExp::List(m));
            if items.len() < 2 {
                return Err(parse_error("a refrain needs a name"));
            }
            assert(m[0] == items@[0]@);
            assert(m[1] == items@[1]@);
            let is_refrain = match &items[0] {
                SExp::Atom(a) => eq_keyword(a, "refrain"),
                SExp::List(_) => false,
            };
            if !is_refrain {
                return Err(parse_error("expected `refrain`"));
            }
            match &items[1] {
                SExp::List(_) => Err(parse_error("the name of a refrain is an atom")),
                SExp::Atom(name) => {
                    let mut r = Refrain {
                        name: name.clone(),
                        territorialize: None,
                        deterritorialize: None,
                        reterritorialize: None,
                    };
                    let mut i: usize = 2;
                    while i < items.len()
                        invariant
                            2 <= i <= items@.len(),
                            m == sexps_model(items@),
                            m.len() == items@.len(),
                            forall|k: int| 0 <= k < items@.len() ==> #[trigger] m[k] == items@[k]@,
                            refrain_of(e@) == add_stages(SpecRefrain::named(name@), m.skip(2)),
                            add_stages(SpecRefrain::named(name@), m.skip(2)) == add_stages(
                                r@,
                                m.skip(i as int),
                            ),
                        decreases items@.len() - i,
                    {
                        assert(m.skip(i as int)[0] == m[i as int]);
                        assert(m.skip(i as int).drop_first() =~= m.skip(i + 1));
                        let st = stage_from(&items[i]);
                        match st {
                            Err(err) => {
                                return Err(err);
                            },
                            Ok((kind, p)) => {
                                match kind {
                                    StageKind::Territorialize => {
                                        if r.territorialize.is_some() {
                                            return Err(parse_error("duplicate stage"));
                                        }
                                        r.territorialize = Some(p);
                                    },
                                    StageKind::Deterritorialize => {
                                        if r.deterritorialize.is_some() {
                                            return Err(parse_error("duplicate stage"));
                                        }
                                        r.deterritorialize = Some(p);
                                    },
                                    StageKind::Reterritorialize => {
                                        if r.reterritorialize.is_some() {
                                            return Err(parse_error("duplicate stage"));
                                        }
                                        r.reterritorialize = Some(p);
                                    },
                                }
                            },
                        }
                        i = i + 1;
                    }
                    assert(m.skip(i as int) =~= Seq::<SpecSExp>::empty());
                    Ok(r)
                },
            }
        },
    }
}

/// Parses a source text into a refrain.
///
/// Returns `RefrainError::Parse` exactly when the text is not a well-formed
/// refrain (see `spec_parse`).
pub fn parse(src: &str) -> (res: Result<Refrain, RefrainError>)
    ensures
        match res {
            Ok(r) => spec_parse(src@) == Some(r@),
            Err(e) => spec_parse(src@) is None && e is Parse,
        },
{
    let toks = tokenize_str(src);
    match read_sexp_at(&toks, 0) {
        None => Err(parse_error("expected one S-expression")),
        Some((e, p)) => {
            if p != toks.len() {
                return Err(parse_error("unexpected text after the refrain"));
            }
            refrain_from(&e)
        },
    }
}

} // verus!
