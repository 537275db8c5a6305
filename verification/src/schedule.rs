//! Pattern to event schedule.
//!
//! A pattern compiles into a flat list of happenings (haps), each with a
//! start and an end time and a payload. The order of the haps and their
//! payloads are decided here; the time values are computed by arithmetic
//! that the caller supplies (the adapters use floating-point cycles): the
//! duration of a note from its duration symbol, addition, subtraction and
//! the zero of the time domain.
//!
//! A note lasts its duration; a loop repeats its body, each repetition
//! starting where the previous one ended; a sequence plays its items one
//! after the other; a call plays its arguments one after the other and then
//! adds a hap spanning all of them; `dy/dx`, `quotient` and symbols are
//! instantaneous marks.

use vstd::prelude::*;
use vstd::string::StringExecFns;

use crate::ast::{patterns_model, strings_model, Op, Pattern, Refrain, SpecOp, SpecPattern, StageKind};

verus! {

/// One scheduled happening: a payload over the interval `[start, end)`.
pub struct Hap<T> {
    pub start: T,
    pub end: T,
    /// Pitch name of a note.
    pub pitch: Option<String>,
    /// Payload, e.g. `note:C4:q` or `diff:x:t`.
    pub value: String,
}

/// The pitch and payload of a hap, its times left out.
pub type SpecEvent = (Option<Seq<char>>, Seq<char>);

pub open spec fn event_of<T>(h: Hap<T>) -> SpecEvent {
    (
        match h.pitch {
            Some(p) => Some(p@),
            None => None,
        },
        h.value@,
    )
}

/// The pitches and payloads of a list of haps, in order.
pub open spec fn events_of<T>(hs: Seq<Hap<T>>) -> Seq<SpecEvent> {
    hs.map_values(|h: Hap<T>| event_of(h))
}

/// The strings of `rels` joined by `sep`.
pub open spec fn join(rels: Seq<Seq<char>>, sep: Seq<char>) -> Seq<char>
    decreases rels.len(),
{
    if rels.len() == 0 {
        Seq::empty()
    } else if rels.len() == 1 {
        rels[0]
    } else {
        join(rels.drop_last(), sep) + sep + rels.last()
    }
}

/// `s` repeated `n` times.
pub open spec fn repeat(s: Seq<SpecEvent>, n: nat) -> Seq<SpecEvent>
    decreases n,
{
    if n == 0 {
        Seq::empty()
    } else {
        repeat(s, (n - 1) as nat) + s
    }
}

/// The pitches and payloads of the haps of a pattern, in schedule order.
pub open spec fn events(p: SpecPattern) -> Seq<SpecEvent>
    decreases p,
{
    match p {
        SpecPattern::Op(op) => match op {
            SpecOp::Note { pitch, dur } => seq![(Some(pitch), "note:"@ + pitch + ":"@ + dur)],
            SpecOp::Loop { count, body } => repeat(events(*body), count as nat),
            SpecOp::Diff { x, t } => seq![(None, "diff:"@ + x + ":"@ + t)],
            SpecOp::Quotient { rels } => seq![(None, "quotient:"@ + join(rels, ","@))],
            SpecOp::Sym(s) => seq![(None, "sym:"@ + s)],
            SpecOp::Call { head, args } => events_list(args) + seq![(None, "call:"@ + head)],
        },
        SpecPattern::Sequence(items) => events_list(items),
    }
}

/// The events of a list of patterns played one after the other.
pub open spec fn events_list(ps: Seq<SpecPattern>) -> Seq<SpecEvent>
    decreases ps,
{
    if ps.len() == 0 {
        Seq::empty()
    } else {
        events_list(ps.drop_last()) + events(ps.last())
    }
}

/// The events of all present stages of a refrain, in stage order.
pub open spec fn refrain_events(stages: Seq<(StageKind, SpecPattern)>) -> Seq<SpecEvent>
    decreases stages.len(),
{
    if stages.len() == 0 {
        Seq::empty()
    } else {
        refrain_events(stages.drop_last()) + events(stages.last().1)
    }
}


/// `d` is a length that `dur_of` gives for the duration symbol `dur`.
pub open spec fn lasts<T, D: Fn(&String) -> T>(dur_of: D, dur: Seq<char>, d: T) -> bool {
    exists|s: String| s@ == dur && #[trigger] dur_of.ensures((&s,), d)
}

/// The times of the haps `hs` are those of pattern `p` scheduled from `t0`,
/// and `span` is the time it takes, where `zero`, `dur_of`, `plus` and
/// `minus` are the caller's time arithmetic: a note starts at `t0`, lasts
/// the length that `dur_of` gives for its duration symbol and ends at what
/// `plus` gives for `t0` and that length; a mark starts and ends at `t0`
/// and takes `zero`; a loop plays its repetitions back to back from `t0`; a
/// sequence plays its items back to back from `t0`; a call plays its
/// arguments back to back from `t0` and then adds a hap from `t0` to where
/// they end. The span of a loop, a sequence or a call is what `minus` gives
/// for where it ends and `t0`.
pub open spec fn timed<T, D: Fn(&String) -> T, P: Fn(T, T) -> T, M: Fn(T, T) -> T>(
    p: SpecPattern,
    t0: T,
    hs: Seq<Hap<T>>,
    span: T,
    zero: T,
    dur_of: D,
    plus: P,
    minus: M,
) -> bool
    decreases p, 0nat,
{
    match p {
        SpecPattern::Op(op) => match op {
            SpecOp::Note { dur, .. } => {
                &&& hs.len() == 1
                &&& hs[0].start == t0
                &&& lasts(dur_of, dur, span)
                &&& plus.ensures((t0, span), hs[0].end)
            },
            SpecOp::Loop { count, body } => exists|end: T|
                #![trigger minus.ensures((end, t0), span)]
                repeated(*body, count as nat, t0, hs, end, zero, dur_of, plus, minus) && minus.ensures(
                    (end, t0),
                    span,
                ),
            SpecOp::Call { args, .. } => {
                &&& hs.len() >= 1
                &&& hs.last().start == t0
                &&& in_turn(args, t0, hs.drop_last(), hs.last().end, zero, dur_of, plus, minus)
                &&& minus.ensures((hs.last().end, t0), span)
            },
            _ => {
                &&& hs.len() == 1
                &&& hs[0].start == t0
                &&& hs[0].end == t0
                &&& span == zero
            },
        },
        SpecPattern::Sequence(items) => exists|end: T|
            #![trigger minus.ensures((end, t0), span)]
            in_turn(items, t0, hs, end, zero, dur_of, plus, minus) && minus.ensures((end, t0), span),
    }
}

/// The haps `hs` are `n` repetitions of `body` played back to back from
/// `t0`, the last ending at `end`: each repetition starts where `plus` put
/// the end of the previous one.
pub open spec fn repeated<T, D: Fn(&String) -> T, P: Fn(T, T) -> T, M: Fn(T, T) -> T>(
    body: SpecPattern,
    n: nat,
    t0: T,
    hs: Seq<Hap<T>>,
    end: T,
    zero: T,
    dur_of: D,
    plus: P,
    minus: M,
) -> bool
    decreases body, n,
{
    if n == 0 {
        hs.len() == 0 && end == t0
    } else {
        exists|k: int, mid: T, d: T|
            #![trigger hs.take(k), plus.ensures((mid, d), end)]
            0 <= k <= hs.len() && repeated(body, (n - 1) as nat, t0, hs.take(k), mid, zero, dur_of, plus, minus)
                && timed(body, mid, hs.skip(k), d, zero, dur_of, plus, minus) && plus.ensures((mid, d), end)
    }
}

/// The haps `hs` are those of `items` played back to back from `t0`, the
/// last ending at `end`: each item starts where `plus` put the end of the
/// previous one.
pub open spec fn in_turn<T, D: Fn(&String) -> T, P: Fn(T, T) -> T, M: Fn(T, T) -> T>(
    items: Seq<SpecPattern>,
    t0: T,
    hs: Seq<Hap<T>>,
    end: T,
    zero: T,
    dur_of: D,
    plus: P,
    minus: M,
) -> bool
    decreases items, 0nat,
{
    if items.len() == 0 {
        hs.len() == 0 && end == t0
    } else {
        exists|k: int, mid: T, d: T|
            #![trigger hs.take(k), plus.ensures((mid, d), end)]
            0 <= k <= hs.len() && in_turn(items.drop_last(), t0, hs.take(k), mid, zero, dur_of, plus, minus)
                && timed(items.last(), mid, hs.skip(k), d, zero, dur_of, plus, minus) && plus.ensures((mid, d), end)
    }
}

/// `join` of one more string: the separator goes between the old join and
/// the new string, unless it is the first.
proof fn lemma_join_push(rels: Seq<Seq<char>>, r: Seq<char>, sep: Seq<char>)
    ensures
        join(rels.push(r), sep) == if rels.len() == 0 { r } else { join(rels, sep) + sep + r },
{
    assert(rels.push(r).drop_last() =~= rels);
}

/// An instantaneous mark at `t0`.
fn mark<T: Copy>(t0: T, value: String) -> (h: Hap<T>)
    ensures
        h.start == t0,
        h.end == t0,
        event_of(h) == (None::<Seq<char>>, value@),
{
    Hap { start: t0, end: t0, pitch: None, value }
}

/// Appending one hap keeps what was there and adds just that hap.
proof fn lemma_push_one<T>(prev: Seq<Hap<T>>, h: Hap<T>)
    ensures
        prev.push(h).take(prev.len() as int) == prev,
        prev.push(h).skip(prev.len() as int) == seq![h],
{
    assert(prev.push(h).take(prev.len() as int) =~= prev);
    assert(prev.push(h).skip(prev.len() as int) =~= seq![h]);
}

/// A part appended after an earlier append splits into what came before it
/// and itself.
proof fn lemma_split<T>(all: Seq<Hap<T>>, prev: Seq<Hap<T>>, base: int)
    requires
        0 <= base <= prev.len() <= all.len(),
        all.take(prev.len() as int) == prev,
    ensures
        all.skip(base).take(prev.len() - base) == prev.skip(base),
        all.skip(base).skip(prev.len() - base) == all.skip(prev.len() as int),
        all.take(base) == prev.take(base),
{
    assert(all.skip(base).take(prev.len() - base) =~= prev.skip(base));
    assert(all.skip(base).skip(prev.len() - base) =~= all.skip(prev.len() as int));
    assert(all.take(base) =~= prev.take(base));
}

/// Schedules pattern `p` from time `t0`, appending its haps to `out`;
/// returns the time it spans. `dur_of` gives the length of a note from its
/// duration symbol, `plus` and `minus` add and subtract times, `zero` is
/// the length of an instantaneous mark.
#[verifier::loop_isolation(false)]
fn schedule_into<T: Copy, D: Fn(&String) -> T, P: Fn(T, T) -> T, M: Fn(T, T) -> T>(
    p: &Pattern,
    t0: T,
    zero: T,
    dur_of: &D,
    plus: &P,
    minus: &M,
    out: &mut Vec<Hap<T>>,
) -> (span: T)
    requires
        forall|s: &String| dur_of.requires((s,)),
        forall|a: T, b: T| plus.requires((a, b)),
        forall|a: T, b: T| minus.requires((a, b)),
    ensures
        events_of(final(out)@) == events_of(old(out)@) + events(p@),
        old(out)@.len() <= final(out)@.len(),
        final(out)@.take(old(out)@.len() as int) == old(out)@,
        timed(p@, t0, final(out)@.skip(old(out)@.len() as int), span, zero, *dur_of, *plus, *minus),
    decreases p,
{
    let ghost before = events_of(out@);
    let ghost init = out@;
    let ghost base = init.len() as int;
    match p {
        Pattern::Op(Op::Note { pitch, dur }) => {
            let d = dur_of(dur);
            let mut v = String::new();
            v.append("note:");
            v.append(pitch.as_str());
            v.append(":");
            v.append(dur.as_str());
            let e = plus(t0, d);
            let h = Hap { start: t0, end: e, pitch: Some(pitch.clone()), value: v };
            out.push(h);
            proof {
                lemma_push_one(init, h);
                assert(lasts(*dur_of, dur@, d));
            }
            assert(events_of(out@) =~= before + events(p@));
            d
        },
        Pattern::Op(Op::Loop { count, body }) => {
            let mut t = t0;
            let mut k: u32 = 0;
            assert(out@.skip(base) =~= Seq::<Hap<T>>::empty());
            assert(out@.take(base) =~= init);
            while k < *count
                invariant
                    k <= *count,
                    events_of(out@) == before + repeat(events(body@), k as nat),
                    base <= out@.len(),
                    out@.take(base) == init,
                    repeated(body@, k as nat, t0, out@.skip(base), t, zero, *dur_of, *plus, *minus),
                decreases *count - k,
            {
                let ghost prev = out@;
                let ghost tprev = t;
                let d = schedule_into(body, t, zero, dur_of, plus, minus, out);
                t = plus(t, d);
                proof {
                    lemma_split(out@, prev, base);
                    let hs = out@.skip(base);
                    let j = prev.len() - base;
                    let n1 = (k + 1) as nat;
                    assert((n1 - 1) as nat == k as nat);
                    assert(0 <= j <= hs.len());
                    assert(repeated(body@, (n1 - 1) as nat, t0, hs.take(j), tprev, zero, *dur_of, *plus, *minus));
                    assert(timed(body@, tprev, hs.skip(j), d, zero, *dur_of, *plus, *minus));
                    assert(plus.ensures((tprev, d), t));
                    assert(repeated(body@, n1, t0, hs, t, zero, *dur_of, *plus, *minus));
                }
                assert(repeat(events(body@), (k + 1) as nat) == repeat(events(body@), k as nat) + events(body@));
                assert(events_of(out@) =~= before + repeat(events(body@), (k + 1) as nat));
                k = k + 1;
            }
            let span = minus(t, t0);
            assert(timed(p@, t0, out@.skip(base), span, zero, *dur_of, *plus, *minus));
            span
        },
        Pattern::Op(Op::Diff { x, t }) => {
            let mut v = String::new();
            v.append("diff:");
            v.append(x.as_str());
            v.append(":");
            v.append(t.as_str());
            let h = mark(t0, v);
            out.push(h);
            proof {
                lemma_push_one(init, h);
            }
            assert(events_of(out@) =~= before + events(p@));
            zero
        },
        Pattern::Op(Op::Quotient { rels }) => {
            let mut v = String::new();
            v.append("quotient:");
            let mut i: usize = 0;
            while i < rels.len()
                invariant
                    i <= rels@.len(),
                    v@ == "quotient:"@ + join(strings_model(rels@.take(i as int)), ","@),
                decreases rels@.len() - i,
            {
                proof {
                    lemma_join_push(strings_model(rels@.take(i as int)), rels@[i as int]@, ","@);
                    assert(strings_model(rels@.take(i + 1)) =~= strings_model(rels@.take(i as int)).push(
                        rels@[i as int]@,
                    ));
                }
                if i > 0 {
                    v.append(",");
                }
                v.append(rels[i].as_str());
                i = i + 1;
            }
            assert(rels@.take(rels@.len() as int) =~= rels@);
            let h = mark(t0, v);
            out.push(h);
            proof {
                lemma_push_one(init, h);
            }
            assert(events_of(out@) =~= before + events(p@));
            zero
        },
        Pattern::Op(Op::Sym(s)) => {
            let mut v = String::new();
            v.append("sym:");
            v.append(s.as_str());
            let h = mark(t0, v);
            out.push(h);
            proof {
                lemma_push_one(init, h);
            }
            assert(events_of(out@) =~= before + events(p@));
            zero
        },
        Pattern::Op(Op::Call { head, args }) => {
            let t = schedule_list(args, t0, zero, dur_of, plus, minus, out);
            let mut v = String::new();
            v.append("call:");
            v.append(head.as_str());
            let ghost mid = out@;
            let h = Hap { start: t0, end: t, pitch: None, value: v };
            out.push(h);
            assert(out@ =~= mid.push(out@.last()));
            assert(events_of(out@) =~= events_of(mid).push((None::<Seq<char>>, "call:"@ + head@)));
            assert(events(p@) == events_list(patterns_model(args@)) + seq![(None::<Seq<char>>, "call:"@ + head@)]);
            assert(events_of(out@) =~= before + events(p@));
            let span = minus(t, t0);
            proof {
                let hs = out@.skip(base);
                assert(hs.drop_last() =~= mid.skip(base));
                assert(hs.last() == h);
                assert(out@.take(base) =~= mid.take(base));
            }
            span
        },
        Pattern::Sequence(items) => {
            let t = schedule_list(items, t0, zero, dur_of, plus, minus, out);
            let span = minus(t, t0);
            assert(timed(p@, t0, out@.skip(base), span, zero, *dur_of, *plus, *minus));
            span
        },
    }
}

/// Schedules the patterns `ps` one after the other from time `t0`,
/// appending their haps to `out`; returns the time at which the last ends.
fn schedule_list<T: Copy, D: Fn(&String) -> T, P: Fn(T, T) -> T, M: Fn(T, T) -> T>(
    ps: &Vec<Pattern>,
    t0: T,
    zero: T,
    dur_of: &D,
    plus: &P,
    minus: &M,
    out: &mut Vec<Hap<T>>,
) -> (end: T)
    requires
        forall|s: &String| dur_of.requires((s,)),
        forall|a: T, b: T| plus.requires((a, b)),
        forall|a: T, b: T| minus.requires((a, b)),
    ensures
        events_of(final(out)@) == events_of(old(out)@) + events_list(patterns_model(ps@)),
        old(out)@.len() <= final(out)@.len(),
        final(out)@.take(old(out)@.len() as int) == old(out)@,
        in_turn(
            patterns_model(ps@),
            t0,
            final(out)@.skip(old(out)@.len() as int),
            end,
            zero,
            *dur_of,
            *plus,
            *minus,
        ),
    decreases ps@,
{
    let ghost before = events_of(out@);
    let ghost init = out@;
    let ghost base = init.len() as int;
    let mut t = t0;
    let mut i: usize = 0;
    proof {
        assert(patterns_model(ps@.take(0)) =~= Seq::<SpecPattern>::empty());
        assert(out@.skip(base) =~= Seq::<Hap<T>>::empty());
        assert(out@.take(base) =~= init);
    }
    while i < ps.len()
        invariant
            i <= ps@.len(),
            events_of(out@) == before + events_list(patterns_model(ps@.take(i as int))),
            base == init.len(),
            base <= out@.len(),
            out@.take(base) == init,
            in_turn(patterns_model(ps@.take(i as int)), t0, out@.skip(base), t, zero, *dur_of, *plus, *minus),
            forall|s: &String| dur_of.requires((s,)),
            forall|a: T, b: T| plus.requires((a, b)),
            forall|a: T, b: T| minus.requires((a, b)),
        decreases ps@.len() - i,
    {
        let ghost prev = out@;
        let ghost tprev = t;
        let d = schedule_into(&ps[i], t, zero, dur_of, plus, minus, out);
        t = plus(t, d);
        proof {
            assert(ps@.take(i + 1).drop_last() =~= ps@.take(i as int));
            assert(patterns_model(ps@.take(i + 1)) == patterns_model(ps@.take(i as int)).push(ps@[i as int]@));
            let items = patterns_model(ps@.take(i + 1));
            assert(items.drop_last() =~= patterns_model(ps@.take(i as int)));
            assert(items.last() == ps@[i as int]@);
            lemma_split(out@, prev, base);
            let hs = out@.skip(base);
            let j = prev.len() - base;
            assert(0 <= j <= hs.len());
            assert(in_turn(items.drop_last(), t0, hs.take(j), tprev, zero, *dur_of, *plus, *minus));
            assert(timed(items.last(), tprev, hs.skip(j), d, zero, *dur_of, *plus, *minus));
            assert(plus.ensures((tprev, d), t));
            assert(in_turn(items, t0, hs, t, zero, *dur_of, *plus, *minus));
        }
        i = i + 1;
    }
    assert(ps@.take(ps@.len() as int) =~= ps@);
    t
}

/// Compiles `pattern` into its haps, starting at time `t0`; returns the haps
/// and the time the pattern spans. The time arithmetic is the caller's:
/// `dur_of` maps a note's duration symbol to a length, `plus` and `minus`
/// add and subtract times, and `zero` is the length of a mark.
pub fn schedule<T: Copy, D: Fn(&String) -> T, P: Fn(T, T) -> T, M: Fn(T, T) -> T>(
    pattern: &Pattern,
    t0: T,
    zero: T,
    dur_of: &D,
    plus: &P,
    minus: &M,
) -> (r: (Vec<Hap<T>>, T))
    requires
        forall|s: &String| dur_of.requires((s,)),
        forall|a: T, b: T| plus.requires((a, b)),
        forall|a: T, b: T| minus.requires((a, b)),
    ensures
        events_of(r.0@) == events(pattern@),
        timed(pattern@, t0, r.0@, r.1, zero, *dur_of, *plus, *minus),
{
    let mut out: Vec<Hap<T>> = Vec::new();
    let span = schedule_into(pattern, t0, zero, dur_of, plus, minus, &mut out);
    assert(events_of(Seq::<Hap<T>>::empty()) =~= Seq::<SpecEvent>::empty());
    assert(out@.skip(0) =~= out@);
    (out, span)
}

/// The patterns of the stages `st`, in order.
pub open spec fn stage_patterns(st: Seq<(StageKind, SpecPattern)>) -> Seq<SpecPattern> {
    st.map_values(|x: (StageKind, SpecPattern)| x.1)
}

/// The haps of all present stages of `refrain`, in stage order, each stage
/// starting where the previous one ended, the first at `zero`.
pub fn collect_haps<T: Copy, D: Fn(&String) -> T, P: Fn(T, T) -> T, M: Fn(T, T) -> T>(
    refrain: &Refrain,
    zero: T,
    dur_of: &D,
    plus: &P,
    minus: &M,
) -> (haps: Vec<Hap<T>>)
    requires
        forall|s: &String| dur_of.requires((s,)),
        forall|a: T, b: T| plus.requires((a, b)),
        forall|a: T, b: T| minus.requires((a, b)),
    ensures
        events_of(haps@) == refrain_events(refrain@.present_stages()),
        exists|end: T|
            in_turn(
                stage_patterns(refrain@.present_stages()),
                zero,
                haps@,
                end,
                zero,
                *dur_of,
                *plus,
                *minus,
            ),
{
    let stages = refrain.stages();
    let ghost st = refrain@.present_stages();
    let mut all: Vec<Hap<T>> = Vec::new();
    let mut t = zero;
    let mut i: usize = 0;
    assert(events_of(all@) =~= refrain_events(st.take(0)));
    assert(stage_patterns(st.take(0)) =~= Seq::<SpecPattern>::empty());
    assert(all@.skip(0) =~= all@);
    while i < stages.len()
        invariant
            i <= stages@.len(),
            stages@.len() == st.len(),
            forall|j: int| 0 <= j < stages@.len() ==> (#[trigger] stages@[j]).1@ == st[j].1,
            events_of(all@) == refrain_events(st.take(i as int)),
            in_turn(stage_patterns(st.take(i as int)), zero, all@, t, zero, *dur_of, *plus, *minus),
            forall|s: &String| dur_of.requires((s,)),
            forall|a: T, b: T| plus.requires((a, b)),
            forall|a: T, b: T| minus.requires((a, b)),
        decreases stages@.len() - i,
    {
        let ghost prev = all@;
        let ghost tprev = t;
        let (_kind, p) = stages[i];
        let d = schedule_into(p, t, zero, dur_of, plus, minus, &mut all);
        t = plus(t, d);
        proof {
            assert(st.take(i + 1).drop_last() =~= st.take(i as int));
            let items = stage_patterns(st.take(i + 1));
            assert(items.drop_last() =~= stage_patterns(st.take(i as int)));
            assert(items.last() == st[i as int].1);
            lemma_split(all@, prev, 0);
            assert(all@.skip(0) =~= all@);
            assert(prev.skip(0) =~= prev);
            let j = prev.len() as int;
            assert(stages@[i as int].1@ == st[i as int].1);
            assert(0 <= j <= all@.len());
            assert(plus.ensures((tprev, d), t));
            assert(in_turn(items.drop_last(), zero, all@.take(j), tprev, zero, *dur_of, *plus, *minus));
            assert(timed(items.last(), tprev, all@.skip(j), d, zero, *dur_of, *plus, *minus));
            assert(in_turn(items, zero, all@, t, zero, *dur_of, *plus, *minus));
        }
        i = i + 1;
    }
    assert(st.take(st.len() as int) =~= st);
    all
}

} // verus!
