//! S-expressions read from a token sequence.

use vstd::prelude::*;

use crate::lexer::{SpecToken, Token, tokens_model};

verus! {

/// Model of an S-expression.
#[verifier::ext_equal]
pub enum SpecSExp {
    Atom(Seq<char>),
    List(Seq<SpecSExp>),
}

/// Reads one S-expression from `toks` starting at `pos`; returns it and
/// the position just after it.
pub open spec fn read_sexp(toks: Seq<SpecToken>, pos: int) -> Option<(SpecSExp, int)>
    decreases toks.len() - pos, 0int,
{
    if pos < 0 || pos >= toks.len() {
        None
    } else {
        match toks[pos] {
            SpecToken::Atom(a) => Some((SpecSExp::Atom(a), pos + 1)),
            SpecToken::Close => None,
            SpecToken::Open => match read_items(toks, pos + 1) {
                Some((items, p)) => Some((SpecSExp::List(items), p)),
                None => None,
            },
        }
    }
}

/// Reads the S-expressions of a list up to and including its closing
/// parenthesis, starting at `pos`; returns them and the position just
/// after the closing parenthesis.
pub open spec fn read_items(toks: Seq<SpecToken>, pos: int) -> Option<(Seq<SpecSExp>, int)>
    decreases toks.len() - pos, 1int,
{
    if pos < 0 || pos >= toks.len() {
        None
    } else if toks[pos] is Close {
        Some((Seq::empty(), pos + 1))
    } else {
        match read_sexp(toks, pos) {
            Some((e, p)) => if pos < p <= toks.len() {
                match read_items(toks, p) {
                    Some((rest, q)) => Some((seq![e] + rest, q)),
                    None => None,
                }
            } else {
                None
            },
            None => None,
        }
    }
}

/// An S-expression.
pub enum SExp {
    Atom(String),
    List(Vec<SExp>),
}

pub open spec fn sexp_model(e: SExp) -> SpecSExp
    decreases e,
{
    match e {
        SExp::Atom(a) => SpecSExp::Atom(a@),
        SExp::List(items) => SpecSExp::List(sexps_model(items@)),
    }
}

pub open spec fn sexps_model(s: Seq<SExp>) -> Seq<SpecSExp>
    decreases s,
{
    if s.len() == 0 {
        Seq::empty()
    } else {
        sexps_model(s.drop_last()).push(sexp_model(s.last()))
    }
}

impl View for SExp {
    type V = SpecSExp;

    open spec fn view(&self) -> SpecSExp {
        sexp_model(*self)
    }
}

pub proof fn lemma_sexps_model(s: Seq<SExp>)
    ensures
        sexps_model(s).len() == s.len(),
        forall|i: int| 0 <= i < s.len() ==> #[trigger] sexps_model(s)[i] == sexp_model(s[i]),
    decreases s.len(),
{
    if s.len() > 0 {
        lemma_sexps_model(s.drop_last());
    }
}

/// Reads one S-expression from `toks` at `pos`.
pub fn read_sexp_at(toks: &Vec<Token>, pos: usize) -> (r: Option<(SExp, usize)>)
    ensures
        match r {
            Some((e, p)) => read_sexp(tokens_model(toks@), pos as int) == Some((e@, p as int)),
            None => read_sexp(tokens_model(toks@), pos as int) is None,
        },
    decreases toks@.len() - pos, 0int,
{
    let ghost tm = tokens_model(toks@);
    if pos >= toks.len() {
        return None;
    }
    assert(tm[pos as int] == toks@[pos as int]@);
    match &toks[pos] {
        Token::Atom(a) => Some((SExp::Atom(a.clone()), pos + 1)),
        Token::Close => None,
        Token::Open => match read_items_at(toks, pos + 1) {
            Some((items, p)) => Some((SExp::List(items), p)),
            None => None,
        },
    }
}

/// Reads the S-expressions of a list up to and including its closing
/// parenthesis, from `toks` at `pos`.
pub fn read_items_at(toks: &Vec<Token>, pos: usize) -> (r: Option<(Vec<SExp>, usize)>)
    ensures
        match r {
            Some((items, p)) => read_items(tokens_model(toks@), pos as int) == Some(
                (sexps_model(items@), p as int),
            ),
            None => read_items(tokens_model(toks@), pos as int) is None,
        },
    decreases toks@.len() - pos, 1int,
{
    let ghost tm = tokens_model(toks@);
    let mut items: Vec<SExp> = Vec::new();
    let mut p: usize = pos;
    loop
        invariant
            pos <= p,
            tm == tokens_model(toks@),
            read_items(tm, pos as int) == match read_items(tm, p as int) {
                Some((rest, q)) => Some((sexps_model(items@) + rest, q)),
                None => None,
            },
        decreases toks@.len() - p,
    {
        if p >= toks.len() {
            return None;
        }
        assert(tm[p as int] == toks@[p as int]@);
        if let Token::Close = &toks[p] {
            assert(sexps_model(items@) + Seq::<SpecSExp>::empty() =~= sexps_model(items@));
            return Some((items, p + 1));
        }
        match read_sexp_at(toks, p) {
            None => {
                return None;
            },
            Some((e, q)) => {
                if q <= p || q > toks.len() {
                    return None;
                }
                let ghost old_items = items@;
                items.push(e);
                proof {
                    assert(items@.drop_last() =~= old_items);
                    assert(sexps_model(items@) == sexps_model(old_items).push(e@));
                    match read_items(tm, q as int) {
                        Some((rest, r)) => {
                            assert(sexps_model(old_items) + (seq![e@] + rest) =~= sexps_model(
                                items@,
                            ) + rest);
                        },
                        None => {},
                    }
                }
                p = q;
            },
        }
    }
}

} // verus!
