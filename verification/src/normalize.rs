//! Normalisation of refrains through a term rewriter.
//!
//! Each stage pattern is written into the flat term form, handed to a
//! rewriter (the e-graph saturation and extraction), and read back from the
//! term the rewriter returns. Which term the rewriter returns is its own
//! business; these functions say what they do with whatever comes back.

use vstd::prelude::*;

use crate::ast::{Pattern, Refrain};
use crate::error::RefrainError;
use crate::term::{decode_expr, encode, expr_to_pattern, nodes_model, pattern_to_expr, TermNode};

verus! {

/// `q` is what reading back some term that `rewrite` may return for the
/// term of `p` gives.
pub open spec fn rewritten_from<F: Fn(&Vec<TermNode>) -> Vec<TermNode>>(
    rewrite: F,
    p: crate::ast::SpecPattern,
    q: crate::ast::SpecPattern,
) -> bool {
    exists|input: Vec<TermNode>, out: Vec<TermNode>|
        #![trigger rewrite.ensures((&input,), out)]
        nodes_model(input@) == encode(p, 0) && rewrite.ensures((&input,), out) && decode_expr(
            nodes_model(out@),
        ) == Some(q)
}

/// Some term that `rewrite` may return for the term of `p` cannot be read
/// back.
pub open spec fn rewrite_unreadable<F: Fn(&Vec<TermNode>) -> Vec<TermNode>>(
    rewrite: F,
    p: crate::ast::SpecPattern,
) -> bool {
    exists|input: Vec<TermNode>, out: Vec<TermNode>|
        #![trigger rewrite.ensures((&input,), out)]
        nodes_model(input@) == encode(p, 0) && rewrite.ensures((&input,), out) && decode_expr(
            nodes_model(out@),
        ) is None
}

/// Normalises one pattern: writes it as a term, rewrites the term, and
/// reads the result back.
pub fn normalize_pattern_with<F: Fn(&Vec<TermNode>) -> Vec<TermNode>>(p: &Pattern, rewrite: &F) -> (r:
    Result<Pattern, RefrainError>)
    requires
        forall|e: &Vec<TermNode>| #[trigger] rewrite.requires((e,)),
    ensures
        match r {
            Ok(q) => rewritten_from(*rewrite, p@, q@),
            Err(e) => e is Rewrite && rewrite_unreadable(*rewrite, p@),
        },
{
    let mut expr: Vec<TermNode> = Vec::new();
    let _ = pattern_to_expr(p, &mut expr);
    assert(nodes_model(expr@) =~= encode(p@, 0));
    let best = rewrite(&expr);
    let r = expr_to_pattern(&best);
    match r {
        Ok(q) => {
            assert(rewrite.ensures((&expr,), best));
            Ok(q)
        },
        Err(e) => {
            assert(rewrite.ensures((&expr,), best));
            Err(e)
        },
    }
}

/// Normalises each present stage of a refrain; the name is kept and no
/// stage appears or disappears.
pub fn normalize_with<F: Fn(&Vec<TermNode>) -> Vec<TermNode>>(r: &Refrain, rewrite: &F) -> (res:
    Result<Refrain, RefrainError>)
    requires
        forall|e: &Vec<TermNode>| #[trigger] rewrite.requires((e,)),
    ensures
        match res {
            Ok(out) => {
                &&& out.name@ == r.name@
                &&& out.territorialize is Some <==> r.territorialize is Some
                &&& out.deterritorialize is Some <==> r.deterritorialize is Some
                &&& out.reterritorialize is Some <==> r.reterritorialize is Some
                &&& r.territorialize matches Some(p) ==> rewritten_from(
                    *rewrite,
                    p@,
                    out.territorialize->0@,
                )
                &&& r.deterritorialize matches Some(p) ==> rewritten_from(
                    *rewrite,
                    p@,
                    out.deterritorialize->0@,
                )
                &&& r.reterritorialize matches Some(p) ==> rewritten_from(
                    *rewrite,
                    p@,
                    out.reterritorialize->0@,
                )
            },
            Err(e) => {
                &&& e is Rewrite
                &&& {
                    ||| r.territorialize matches Some(p) && rewrite_unreadable(*rewrite, p@)
                    ||| r.deterritorialize matches Some(p) && rewrite_unreadable(*rewrite, p@)
                    ||| r.reterritorialize matches Some(p) && rewrite_unreadable(*rewrite, p@)
                }
            },
        },
{
    let t = match &r.territorialize {
        Some(p) => Some(normalize_pattern_with(p, rewrite)?),
        None => None,
    };
    let d = match &r.deterritorialize {
        Some(p) => Some(normalize_pattern_with(p, rewrite)?),
        None => None,
    };
    let rt = match &r.reterritorialize {
        Some(p) => Some(normalize_pattern_with(p, rewrite)?),
        None => None,
    };
    Ok(Refrain { name: r.name.clone(), territorialize: t, deterritorialize: d, reterritorialize: rt })
}

} // verus!
