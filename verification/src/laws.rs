//! Laws of the library: properties that relate several operations.

use vstd::prelude::*;

use crate::ast::{SpecOp, SpecPattern, SpecRefrain, StageKind};
use crate::lexer::{atom_len, comment_len, is_atom_char, is_blank, tokenize, SpecToken};
use crate::parser::{
    add_stages, kw_note, kw_refrain, pattern_of, patterns_of, refrain_of, spec_parse, stage_kind_of, stage_of,
};
use crate::sexp::{read_items, read_sexp, SpecSExp};
use crate::rhizome::SpecBridge;
use crate::schedule::{events, repeat, SpecEvent};

verus! {

/// Allocated e-class ids strictly increase: the id that an allocation
/// returns is the state's `next`, and the following allocation returns a
/// larger one.
pub proof fn law_alloc_increasing(s: SpecBridge)
    requires
        s.next < u64::MAX,
    ensures
        s.allocate().next > s.next,
{
}

/// After a causal id is moved into an e-class, looking it up gives that
/// e-class, and every other causal id keeps its e-class.
pub proof fn law_insert_then_lookup(s: SpecBridge, c: u64, e: u64)
    requires
        s.wf(),
    ensures
        s.insert(c, e).eclass_of.get(c) == Some(e),
        forall|d: u64| d != c ==> #[trigger] s.insert(c, e).eclass_of.get(d) == s.eclass_of.get(d),
{
}

/// Merging twice is merging once.
pub proof fn law_merge_idempotent(s: SpecBridge, a: u64, b: u64)
    requires
        s.wf(),
    ensures
        s.merge(a, b).merge(a, b) == s.merge(a, b),
{
}

/// Merging never increases the number of live e-classes, and it decreases
/// it by one when both e-classes are live and distinct.
pub proof fn law_merge_class_count(s: SpecBridge, a: u64, b: u64)
    requires
        s.wf(),
    ensures
        s.merge(a, b).members.len() <= s.members.len(),
        a != b && s.members.contains_key(a) && s.members.contains_key(b) ==> s.merge(a, b).members.len()
            == s.members.len() - 1,
{
    if a != b && s.members.contains_key(b) {
        let m1 = s.members.remove(b);
        assert(m1.dom() == s.members.dom().remove(b));
        if s.members.contains_key(a) {
            assert(m1.insert(a, crate::rhizome::member_list(s.members, a) + s.members[b]).dom() =~= m1.dom());
        }
    }
}

/// After a merge, every causal id of the merged e-class belongs to the
/// e-class it was merged into, and every other causal id keeps its e-class.
pub proof fn law_merge_moves_members(s: SpecBridge, a: u64, b: u64)
    requires
        s.wf(),
    ensures
        forall|c: u64|
            #[trigger] s.merge(a, b).eclass_of.get(c) == (if s.eclass_of.get(c) == Some(b) {
                Some(a)
            } else {
                s.eclass_of.get(c)
            }),
{
}

proof fn lemma_comment_len_line(c: Seq<char>, rest: Seq<char>)
    requires
        forall|i: int| 0 <= i < c.len() ==> c[i] != '\n',
    ensures
        comment_len(c + seq!['\n'] + rest) == c.len() + 1,
    decreases c.len(),
{
    if c.len() == 0 {
        assert((c + seq!['\n'] + rest)[0] == '\n');
    } else {
        assert((c + seq!['\n'] + rest).drop_first() =~= c.drop_first() + seq!['\n'] + rest);
        lemma_comment_len_line(c.drop_first(), rest);
    }
}

/// A line comment in front of a source text changes nothing: the text with
/// `;`, a comment without line feed and a line feed in front parses as the
/// text alone.
pub proof fn law_comment_transparent(comment: Seq<char>, src: Seq<char>)
    requires
        forall|i: int| 0 <= i < comment.len() ==> comment[i] != '\n',
    ensures
        spec_parse(seq![';'] + comment + seq!['\n'] + src) == spec_parse(src),
{
    let full = seq![';'] + comment + seq!['\n'] + src;
    assert(full.drop_first() =~= comment + seq!['\n'] + src);
    lemma_comment_len_line(comment, src);
    assert(full.skip(1 + comment_len(full.drop_first()) as int) =~= src);
    assert(tokenize(full) == tokenize(src));
}

/// Whether every character of `s` may appear in an atom.
pub open spec fn is_atom_text(s: Seq<char>) -> bool {
    forall|i: int| 0 <= i < s.len() ==> #[trigger] is_atom_char(s[i])
}

proof fn lemma_atom_len_append(a: Seq<char>, b: Seq<char>)
    requires
        is_atom_text(a),
        b.len() == 0 || !is_atom_char(b[0]),
    ensures
        atom_len(a + b) == a.len(),
    decreases a.len(),
{
    if a.len() == 0 {
        assert(a + b =~= b);
    } else {
        assert(is_atom_char(a[0]));
        assert((a + b)[0] == a[0]);
        assert((a + b).drop_first() =~= a.drop_first() + b);
        assert(is_atom_text(a.drop_first())) by {
            assert forall|i: int| 0 <= i < a.drop_first().len() implies #[trigger] is_atom_char(a.drop_first()[i]) by {
                assert(is_atom_char(a[i + 1]));
            }
        }
        lemma_atom_len_append(a.drop_first(), b);
    }
}

/// An atom followed by a delimiter (or by nothing) tokenizes as that atom
/// followed by the tokens of the rest.
proof fn lemma_tokenize_atom(a: Seq<char>, b: Seq<char>)
    requires
        a.len() > 0,
        is_atom_text(a),
        b.len() == 0 || !is_atom_char(b[0]),
    ensures
        tokenize(a + b) == seq![SpecToken::Atom(a)] + tokenize(b),
{
    lemma_atom_len_append(a, b);
    let s = a + b;
    assert(is_atom_char(a[0]));
    assert(s[0] == a[0]);
    assert(!is_blank(s[0]) && s[0] != ';' && s[0] != '(' && s[0] != ')');
    assert(s.take(a.len() as int) =~= a);
    assert(s.skip(a.len() as int) =~= b);
}

/// A delimiter character followed by the rest.
proof fn lemma_tokenize_open(b: Seq<char>)
    ensures
        tokenize(seq!['('] + b) == seq![SpecToken::Open] + tokenize(b),
{
    assert((seq!['('] + b).drop_first() =~= b);
}

proof fn lemma_tokenize_close(b: Seq<char>)
    ensures
        tokenize(seq![')'] + b) == seq![SpecToken::Close] + tokenize(b),
{
    assert((seq![')'] + b).drop_first() =~= b);
}

proof fn lemma_tokenize_space(b: Seq<char>)
    ensures
        tokenize(seq![' '] + b) == tokenize(b),
{
    assert((seq![' '] + b).drop_first() =~= b);
}

/// A refrain with a name and no stage parses to that name: for every
/// non-empty atom `name`, `(refrain name)` parses to the refrain named
/// `name` with no stage.
pub proof fn law_bare_refrain(name: Seq<char>)
    requires
        name.len() > 0,
        is_atom_text(name),
    ensures
        spec_parse(seq!['('] + kw_refrain() + seq![' '] + name + seq![')']) == Some(
            SpecRefrain::named(name),
        ),
{
    let kw = kw_refrain();
    let t4 = seq![')'];
    let t3 = name + t4;
    let t2 = seq![' '] + t3;
    let t1 = kw + t2;
    let t0 = seq!['('] + t1;
    assert(seq!['('] + kw + seq![' '] + name + seq![')'] =~= t0);
    lemma_tokenize_close(Seq::empty());
    assert(t4 =~= seq![')'] + Seq::<char>::empty());
    assert(tokenize(Seq::<char>::empty()) == Seq::<SpecToken>::empty());
    assert(t4[0] == ')');
    lemma_tokenize_atom(name, t4);
    lemma_tokenize_space(t3);
    assert(is_atom_text(kw));
    assert(t2[0] == ' ');
    lemma_tokenize_atom(kw, t2);
    lemma_tokenize_open(t1);
    let toks = seq![
        SpecToken::Open,
        SpecToken::Atom(kw),
        SpecToken::Atom(name),
        SpecToken::Close,
    ];
    assert(tokenize(t0) =~= toks);
    assert(read_items(toks, 3) == Some((Seq::<SpecSExp>::empty(), 4int)));
    assert(read_sexp(toks, 2) == Some((SpecSExp::Atom(name), 3int)));
    assert(read_items(toks, 2) == Some((seq![SpecSExp::Atom(name)], 4int))) by {
        assert(seq![SpecSExp::Atom(name)] + Seq::<SpecSExp>::empty() =~= seq![SpecSExp::Atom(name)]);
    }
    assert(read_sexp(toks, 1) == Some((SpecSExp::Atom(kw), 2int)));
    let items = seq![SpecSExp::Atom(kw), SpecSExp::Atom(name)];
    assert(read_items(toks, 1) == Some((items, 4int))) by {
        assert(seq![SpecSExp::Atom(kw)] + seq![SpecSExp::Atom(name)] =~= items);
    }
    assert(read_sexp(toks, 0) == Some((SpecSExp::List(items), 4int)));
    assert(items.skip(2) =~= Seq::<SpecSExp>::empty());
    assert(refrain_of(SpecSExp::List(items)) == Some(SpecRefrain::named(name)));
}

/// The text `(refrain name (territorialize (note pitch dur)))`.
pub open spec fn note_refrain_text(name: Seq<char>, pitch: Seq<char>, dur: Seq<char>) -> Seq<char> {
    seq!['('] + kw_refrain() + seq![' '] + name + seq![' ', '('] + StageKind::Territorialize.keyword()
        + seq![' ', '('] + kw_note() + seq![' '] + pitch + seq![' '] + dur + seq![')', ')', ')']
}

/// The tokens of `note_refrain_text(name, pitch, dur)`.
pub open spec fn note_refrain_tokens(name: Seq<char>, pitch: Seq<char>, dur: Seq<char>) -> Seq<SpecToken> {
    seq![
        SpecToken::Open,
        SpecToken::Atom(kw_refrain()),
        SpecToken::Atom(name),
        SpecToken::Open,
        SpecToken::Atom(StageKind::Territorialize.keyword()),
        SpecToken::Open,
        SpecToken::Atom(kw_note()),
        SpecToken::Atom(pitch),
        SpecToken::Atom(dur),
        SpecToken::Close,
        SpecToken::Close,
        SpecToken::Close,
    ]
}

proof fn lemma_note_refrain_tokens(name: Seq<char>, pitch: Seq<char>, dur: Seq<char>)
    requires
        name.len() > 0,
        pitch.len() > 0,
        dur.len() > 0,
        is_atom_text(name),
        is_atom_text(pitch),
        is_atom_text(dur),
    ensures
        tokenize(note_refrain_text(name, pitch, dur)) == note_refrain_tokens(name, pitch, dur),
{
    let kr = kw_refrain();
    let kt = StageKind::Territorialize.keyword();
    let kn = kw_note();
    let e = Seq::<char>::empty();
    let u12 = seq![')'] + e;
    let u11 = seq![')'] + u12;
    let u10 = seq![')'] + u11;
    let u9 = dur + u10;
    let u8 = seq![' '] + u9;
    let u7 = pitch + u8;
    let u6 = seq![' '] + u7;
    let u5 = kn + u6;
    let u4 = seq!['('] + u5;
    let u3 = seq![' '] + u4;
    let u2 = kt + u3;
    let u1 = seq!['('] + u2;
    let u0 = seq![' '] + u1;
    let v3 = name + u0;
    let v2 = seq![' '] + v3;
    let v1 = kr + v2;
    let v0 = seq!['('] + v1;
    assert(note_refrain_text(name, pitch, dur) =~= v0);
    assert(tokenize(e) == Seq::<SpecToken>::empty());
    lemma_tokenize_close(e);
    lemma_tokenize_close(u12);
    lemma_tokenize_close(u11);
    assert(u10[0] == ')');
    lemma_tokenize_atom(dur, u10);
    lemma_tokenize_space(u9);
    assert(u8[0] == ' ');
    lemma_tokenize_atom(pitch, u8);
    lemma_tokenize_space(u7);
    assert(u6[0] == ' ');
    assert(is_atom_text(kn));
    lemma_tokenize_atom(kn, u6);
    lemma_tokenize_open(u5);
    lemma_tokenize_space(u4);
    assert(u3[0] == ' ');
    assert(is_atom_text(kt));
    lemma_tokenize_atom(kt, u3);
    lemma_tokenize_open(u2);
    lemma_tokenize_space(u1);
    assert(u0[0] == ' ');
    lemma_tokenize_atom(name, u0);
    lemma_tokenize_space(v3);
    assert(v2[0] == ' ');
    assert(is_atom_text(kr));
    lemma_tokenize_atom(kr, v2);
    lemma_tokenize_open(v1);
    assert(tokenize(v0) =~= note_refrain_tokens(name, pitch, dur));
}

/// The S-expression of `note_refrain_text(name, pitch, dur)`.
pub open spec fn note_refrain_sexp(name: Seq<char>, pitch: Seq<char>, dur: Seq<char>) -> SpecSExp {
    let l_note = SpecSExp::List(seq![SpecSExp::Atom(kw_note()), SpecSExp::Atom(pitch), SpecSExp::Atom(dur)]);
    let l_stage = SpecSExp::List(seq![SpecSExp::Atom(StageKind::Territorialize.keyword()), l_note]);
    SpecSExp::List(seq![SpecSExp::Atom(kw_refrain()), SpecSExp::Atom(name), l_stage])
}

proof fn lemma_note_refrain_read(name: Seq<char>, pitch: Seq<char>, dur: Seq<char>)
    ensures
        read_sexp(note_refrain_tokens(name, pitch, dur), 0) == Some(
            (note_refrain_sexp(name, pitch, dur), 12int),
        ),
{
    let toks = note_refrain_tokens(name, pitch, dur);
    let kr = kw_refrain();
    let kt = StageKind::Territorialize.keyword();
    let kn = kw_note();
    let none = Seq::<SpecSExp>::empty();
    let a_d = SpecSExp::Atom(dur);
    let a_p = SpecSExp::Atom(pitch);
    let a_n = SpecSExp::Atom(kn);
    let note_items = seq![a_n, a_p, a_d];
    let l_note = SpecSExp::List(note_items);
    let a_t = SpecSExp::Atom(kt);
    let stage_items = seq![a_t, l_note];
    let l_stage = SpecSExp::List(stage_items);
    let top_items = seq![SpecSExp::Atom(kr), SpecSExp::Atom(name), l_stage];
    assert(read_items(toks, 9) == Some((none, 10int)));
    assert(read_sexp(toks, 8) == Some((a_d, 9int)));
    assert(read_items(toks, 8) == Some((seq![a_d], 10int))) by {
        assert(seq![a_d] + none =~= seq![a_d]);
    }
    assert(read_sexp(toks, 7) == Some((a_p, 8int)));
    assert(read_items(toks, 7) == Some((seq![a_p, a_d], 10int))) by {
        assert(seq![a_p] + seq![a_d] =~= seq![a_p, a_d]);
    }
    assert(read_sexp(toks, 6) == Some((a_n, 7int)));
    assert(read_items(toks, 6) == Some((note_items, 10int))) by {
        assert(seq![a_n] + seq![a_p, a_d] =~= note_items);
    }
    assert(read_sexp(toks, 5) == Some((l_note, 10int)));
    assert(read_items(toks, 10) == Some((none, 11int)));
    assert(read_items(toks, 5) == Some((seq![l_note], 11int))) by {
        assert(seq![l_note] + none =~= seq![l_note]);
    }
    assert(read_sexp(toks, 4) == Some((a_t, 5int)));
    assert(read_items(toks, 4) == Some((stage_items, 11int))) by {
        assert(seq![a_t] + seq![l_note] =~= stage_items);
    }
    assert(read_sexp(toks, 3) == Some((l_stage, 11int)));
    assert(read_items(toks, 11) == Some((none, 12int)));
    assert(read_items(toks, 3) == Some((seq![l_stage], 12int))) by {
        assert(seq![l_stage] + none =~= seq![l_stage]);
    }
    assert(read_sexp(toks, 2) == Some((SpecSExp::Atom(name), 3int)));
    assert(read_items(toks, 2) == Some((seq![SpecSExp::Atom(name), l_stage], 12int))) by {
        assert(seq![SpecSExp::Atom(name)] + seq![l_stage] =~= seq![SpecSExp::Atom(name), l_stage]);
    }
    assert(read_sexp(toks, 1) == Some((SpecSExp::Atom(kr), 2int)));
    assert(read_items(toks, 1) == Some((top_items, 12int))) by {
        assert(seq![SpecSExp::Atom(kr)] + seq![SpecSExp::Atom(name), l_stage] =~= top_items);
    }
}

proof fn lemma_note_refrain_meaning(name: Seq<char>, pitch: Seq<char>, dur: Seq<char>)
    ensures
        refrain_of(note_refrain_sexp(name, pitch, dur)) == Some(
            SpecRefrain::named(name).with_stage(
                StageKind::Territorialize,
                SpecPattern::Op(SpecOp::Note { pitch, dur }),
            ),
        ),
{
    let none = Seq::<SpecSExp>::empty();
    let l_note = SpecSExp::List(seq![SpecSExp::Atom(kw_note()), SpecSExp::Atom(pitch), SpecSExp::Atom(dur)]);
    let stage_items = seq![SpecSExp::Atom(StageKind::Territorialize.keyword()), l_note];
    let l_stage = SpecSExp::List(stage_items);
    let top_items = seq![SpecSExp::Atom(kw_refrain()), SpecSExp::Atom(name), l_stage];
    let note = SpecPattern::Op(SpecOp::Note { pitch, dur });
    assert(pattern_of(l_note) == Some(note));
    let one = seq![l_note];
    assert(stage_items.drop_first() =~= one);
    assert(one.drop_first() =~= none);
    assert(one[0] == l_note);
    assert(patterns_of(none) == Some(Seq::<SpecPattern>::empty()));
    assert(seq![note] + Seq::<SpecPattern>::empty() =~= seq![note]);
    assert(patterns_of(one) == Some(seq![note]));
    assert(stage_of(l_stage) == Some((StageKind::Territorialize, note)));
    let r = SpecRefrain::named(name).with_stage(StageKind::Territorialize, note);
    let st = seq![l_stage];
    assert(top_items.skip(2) =~= st);
    assert(st.drop_first() =~= none);
    assert(st[0] == l_stage);
    assert(SpecRefrain::named(name).stage(StageKind::Territorialize) is None);
    assert(add_stages(r, none) == Some(r));
    assert(add_stages(SpecRefrain::named(name), st) == Some(r));
}

/// A refrain whose territorialize stage is one note parses to that note:
/// for non-empty atoms `name`, `pitch` and `dur`, the text
/// `(refrain name (territorialize (note pitch dur)))` parses to the refrain
/// named `name` whose only stage is territorialize, holding that note.
pub proof fn law_note_refrain(name: Seq<char>, pitch: Seq<char>, dur: Seq<char>)
    requires
        name.len() > 0,
        pitch.len() > 0,
        dur.len() > 0,
        is_atom_text(name),
        is_atom_text(pitch),
        is_atom_text(dur),
    ensures
        spec_parse(note_refrain_text(name, pitch, dur)) == Some(
            SpecRefrain::named(name).with_stage(
                StageKind::Territorialize,
                SpecPattern::Op(SpecOp::Note { pitch, dur }),
            ),
        ),
{
    lemma_note_refrain_tokens(name, pitch, dur);
    lemma_note_refrain_read(name, pitch, dur);
    lemma_note_refrain_meaning(name, pitch, dur);
}

/// The patterns of a list of S-expressions, one by one.
proof fn lemma_patterns_of_each(es: Seq<SpecSExp>, ps: Seq<SpecPattern>)
    requires
        es.len() == ps.len(),
        forall|j: int| 0 <= j < es.len() ==> pattern_of(#[trigger] es[j]) == Some(ps[j]),
    ensures
        patterns_of(es) == Some(ps),
    decreases es.len(),
{
    if es.len() > 0 {
        assert forall|j: int| 0 <= j < es.drop_first().len() implies pattern_of(#[trigger] es.drop_first()[j])
            == Some(ps.drop_first()[j]) by {
            assert(es.drop_first()[j] == es[j + 1]);
        }
        lemma_patterns_of_each(es.drop_first(), ps.drop_first());
        assert(pattern_of(es[0]) == Some(ps[0]));
        assert(seq![ps[0]] + ps.drop_first() =~= ps);
    }
}

/// A stage with several patterns holds their sequence in the order written,
/// and a stage with one pattern holds that pattern: for a stage keyword
/// followed by S-expressions `es` that write the patterns `ps`, the stage
/// read is that stage kind with `ps` in the same order.
pub proof fn law_stage_keeps_order(kind: StageKind, es: Seq<SpecSExp>, ps: Seq<SpecPattern>)
    requires
        es.len() == ps.len(),
        es.len() >= 1,
        forall|j: int| 0 <= j < es.len() ==> pattern_of(#[trigger] es[j]) == Some(ps[j]),
    ensures
        es.len() >= 2 ==> stage_of(SpecSExp::List(seq![SpecSExp::Atom(kind.keyword())] + es)) == Some(
            (kind, SpecPattern::Sequence(ps)),
        ),
        es.len() == 1 ==> stage_of(SpecSExp::List(seq![SpecSExp::Atom(kind.keyword())] + es)) == Some(
            (kind, ps[0]),
        ),
{
    let items = seq![SpecSExp::Atom(kind.keyword())] + es;
    assert(items.drop_first() =~= es);
    lemma_patterns_of_each(es, ps);
    assert(stage_kind_of(kind.keyword()) == Some(kind));
}

/// `atoms` written one after the other, each after a space.
pub open spec fn spaced(atoms: Seq<Seq<char>>) -> Seq<char>
    decreases atoms.len(),
{
    if atoms.len() == 0 {
        Seq::empty()
    } else {
        seq![' '] + atoms[0] + spaced(atoms.drop_first())
    }
}

/// Whether every atom is a non-empty atom text.
pub open spec fn all_atoms(atoms: Seq<Seq<char>>) -> bool {
    forall|j: int| 0 <= j < atoms.len() ==> #[trigger] atoms[j].len() > 0 && is_atom_text(atoms[j])
}

proof fn lemma_tokenize_spaced(atoms: Seq<Seq<char>>, b: Seq<char>)
    requires
        all_atoms(atoms),
        b.len() > 0,
        b[0] == ')',
    ensures
        tokenize(spaced(atoms) + b) == atoms.map_values(|a: Seq<char>| SpecToken::Atom(a)) + tokenize(b),
    decreases atoms.len(),
{
    if atoms.len() == 0 {
        assert(spaced(atoms) + b =~= b);
        assert(atoms.map_values(|a: Seq<char>| SpecToken::Atom(a)) =~= Seq::<SpecToken>::empty());
        assert(Seq::<SpecToken>::empty() + tokenize(b) =~= tokenize(b));
    } else {
        let rest = atoms.drop_first();
        assert(all_atoms(rest)) by {
            assert forall|j: int| 0 <= j < rest.len() implies #[trigger] rest[j].len() > 0 && is_atom_text(rest[j]) by {
                assert(rest[j] == atoms[j + 1]);
            }
        }
        lemma_tokenize_spaced(rest, b);
        let tail = spaced(rest) + b;
        assert(atoms[0].len() > 0 && is_atom_text(atoms[0]));
        if rest.len() == 0 {
            assert(tail =~= b);
        } else {
            assert(tail[0] == ' ');
        }
        lemma_tokenize_atom(atoms[0], tail);
        lemma_tokenize_space(atoms[0] + tail);
        assert(spaced(atoms) + b =~= seq![' '] + (atoms[0] + tail));
        assert(atoms.map_values(|a: Seq<char>| SpecToken::Atom(a)) =~= seq![SpecToken::Atom(atoms[0])]
            + rest.map_values(|a: Seq<char>| SpecToken::Atom(a)));
    }
}

proof fn lemma_read_atom_run(toks: Seq<SpecToken>, pos: int, atoms: Seq<Seq<char>>)
    requires
        0 <= pos,
        pos + atoms.len() < toks.len(),
        forall|j: int| 0 <= j < atoms.len() ==> toks[pos + j] == SpecToken::Atom(#[trigger] atoms[j]),
        toks[pos + atoms.len()] is Close,
    ensures
        read_items(toks, pos) == Some(
            (atoms.map_values(|a: Seq<char>| SpecSExp::Atom(a)), pos + atoms.len() + 1),
        ),
    decreases atoms.len(),
{
    if atoms.len() == 0 {
        assert(atoms.map_values(|a: Seq<char>| SpecSExp::Atom(a)) =~= Seq::<SpecSExp>::empty());
    } else {
        let rest = atoms.drop_first();
        assert forall|j: int| 0 <= j < rest.len() implies toks[(pos + 1) + j] == SpecToken::Atom(#[trigger] rest[j]) by {
            assert(rest[j] == atoms[j + 1]);
            assert(toks[pos + (j + 1)] == SpecToken::Atom(atoms[j + 1]));
        }
        lemma_read_atom_run(toks, pos + 1, rest);
        assert(toks[pos + 0] == SpecToken::Atom(atoms[0]));
        assert(read_sexp(toks, pos) == Some((SpecSExp::Atom(atoms[0]), pos + 1)));
        assert(atoms.map_values(|a: Seq<char>| SpecSExp::Atom(a)) =~= seq![SpecSExp::Atom(atoms[0])]
            + rest.map_values(|a: Seq<char>| SpecSExp::Atom(a)));
    }
}

/// The text `(refrain name (<stage keyword> a1 ... an))` of a refrain with one
/// stage whose patterns are the atoms `a1 ... an`.
pub open spec fn atoms_refrain_text(name: Seq<char>, kind: StageKind, atoms: Seq<Seq<char>>) -> Seq<char> {
    seq!['('] + kw_refrain() + seq![' '] + name + seq![' ', '('] + kind.keyword() + spaced(atoms) + seq![
        ')',
        ')',
    ]
}

/// A stage written with several atoms parses to the sequence of their
/// symbols in the order written: for a non-empty atom `name`, a stage kind
/// and at least two non-empty atoms, `(refrain name (<stage> a1 ... an))`
/// parses to the refrain named `name` whose only stage holds
/// `[a1, ..., an]` as symbols, in that order.
pub proof fn law_stage_sequence_in_order(name: Seq<char>, kind: StageKind, atoms: Seq<Seq<char>>)
    requires
        name.len() > 0,
        is_atom_text(name),
        atoms.len() >= 2,
        all_atoms(atoms),
    ensures
        spec_parse(atoms_refrain_text(name, kind, atoms)) == Some(
            SpecRefrain::named(name).with_stage(
                kind,
                SpecPattern::Sequence(atoms.map_values(|a: Seq<char>| SpecPattern::Op(SpecOp::Sym(a)))),
            ),
        ),
{
    let n = atoms.len() as int;
    let kr = kw_refrain();
    let kk = kind.keyword();
    let e = Seq::<char>::empty();
    let closes = seq![')', ')'];
    assert(closes =~= seq![')'] + (seq![')'] + e));
    lemma_tokenize_close(e);
    lemma_tokenize_close(seq![')'] + e);
    lemma_tokenize_spaced(atoms, closes);
    let w3 = spaced(atoms) + closes;
    assert(w3[0] == ' ');
    assert(kk.len() > 0 && is_atom_text(kk));
    lemma_tokenize_atom(kk, w3);
    let w2 = kk + w3;
    lemma_tokenize_open(w2);
    let w1 = seq!['('] + w2;
    lemma_tokenize_space(w1);
    let u0 = seq![' '] + w1;
    lemma_tokenize_atom(name, u0);
    let v3 = name + u0;
    lemma_tokenize_space(v3);
    let v2 = seq![' '] + v3;
    assert(is_atom_text(kr));
    lemma_tokenize_atom(kr, v2);
    let v1 = kr + v2;
    lemma_tokenize_open(v1);
    let v0 = seq!['('] + v1;
    assert(atoms_refrain_text(name, kind, atoms) =~= v0);
    let atks = atoms.map_values(|a: Seq<char>| SpecToken::Atom(a));
    let toks = seq![SpecToken::Open, SpecToken::Atom(kr), SpecToken::Atom(name), SpecToken::Open, SpecToken::Atom(kk)]
        + atks + seq![SpecToken::Close, SpecToken::Close];
    assert(tokenize(e) == Seq::<SpecToken>::empty());
    assert(tokenize(v0) =~= toks);
    // Reading.
    assert forall|j: int| 0 <= j < atoms.len() implies toks[5 + j] == SpecToken::Atom(#[trigger] atoms[j]) by {
        assert(toks[5 + j] == atks[j]);
    }
    assert(toks[5 + n] is Close);
    lemma_read_atom_run(toks, 5, atoms);
    let es = atoms.map_values(|a: Seq<char>| SpecSExp::Atom(a));
    let a_k = SpecSExp::Atom(kk);
    let stage_items = seq![a_k] + es;
    assert(read_sexp(toks, 4) == Some((a_k, 5int)));
    assert(read_items(toks, 4) == Some((stage_items, 6 + n)));
    let l_stage = SpecSExp::List(stage_items);
    assert(read_sexp(toks, 3) == Some((l_stage, 6 + n)));
    assert(toks[6 + n] is Close);
    let none = Seq::<SpecSExp>::empty();
    assert(read_items(toks, 6 + n) == Some((none, 7 + n)));
    assert(read_items(toks, 3) == Some((seq![l_stage], 7 + n))) by {
        assert(seq![l_stage] + none =~= seq![l_stage]);
    }
    assert(read_sexp(toks, 2) == Some((SpecSExp::Atom(name), 3int)));
    assert(read_items(toks, 2) == Some((seq![SpecSExp::Atom(name), l_stage], 7 + n))) by {
        assert(seq![SpecSExp::Atom(name)] + seq![l_stage] =~= seq![SpecSExp::Atom(name), l_stage]);
    }
    let top = seq![SpecSExp::Atom(kr), SpecSExp::Atom(name), l_stage];
    assert(read_sexp(toks, 1) == Some((SpecSExp::Atom(kr), 2int)));
    assert(read_items(toks, 1) == Some((top, 7 + n))) by {
        assert(seq![SpecSExp::Atom(kr)] + seq![SpecSExp::Atom(name), l_stage] =~= top);
    }
    assert(read_sexp(toks, 0) == Some((SpecSExp::List(top), 7 + n)));
    assert(toks.len() == 7 + n);
    // Meaning.
    let ps = atoms.map_values(|a: Seq<char>| SpecPattern::Op(SpecOp::Sym(a)));
    assert forall|j: int| 0 <= j < es.len() implies pattern_of(#[trigger] es[j]) == Some(ps[j]) by {
        assert(es[j] == SpecSExp::Atom(atoms[j]));
    }
    law_stage_keeps_order(kind, es, ps);
    let r = SpecRefrain::named(name).with_stage(kind, SpecPattern::Sequence(ps));
    let st = seq![l_stage];
    assert(top.skip(2) =~= st);
    assert(st.drop_first() =~= none);
    assert(SpecRefrain::named(name).stage(kind) is None);
    assert(add_stages(r, none) == Some(r));
    assert(add_stages(SpecRefrain::named(name), st) == Some(r));
}

/// `repeat(s, n)` holds `n` copies of `s`.
proof fn lemma_repeat_len(s: Seq<SpecEvent>, n: nat)
    ensures
        repeat(s, n).len() == n * s.len(),
    decreases n,
{
    if n > 0 {
        lemma_repeat_len(s, (n - 1) as nat);
        assert(n * s.len() == (n - 1) * s.len() + s.len()) by (nonlinear_arith);
    } else {
        assert(n * s.len() == 0) by (nonlinear_arith)
            requires
                n == 0,
        ;
    }
}

/// A loop of `count` repetitions schedules `count` times as many haps as
/// its body: the body's haps over and over, in the body's order.
pub proof fn law_loop_hap_count(count: u32, body: SpecPattern)
    ensures
        events(SpecPattern::Op(SpecOp::Loop { count, body: Box::new(body) })).len() == count
            * events(body).len(),
        forall|j: int|
            0 <= j < count * events(body).len() ==> #[trigger] events(
                SpecPattern::Op(SpecOp::Loop { count, body: Box::new(body) }),
            )[j] == events(body)[j % events(body).len() as int],
{
    let s = events(body);
    lemma_repeat_len(s, count as nat);
    assert forall|j: int| 0 <= j < count * s.len() implies #[trigger] repeat(s, count as nat)[j]
        == s[j % s.len() as int] by {
        let k = j / s.len() as int;
        let i = j % s.len() as int;
        assert(s.len() > 0) by (nonlinear_arith)
            requires
                0 <= j < count * s.len(),
        ;
        assert(j == k * s.len() + i && 0 <= i < s.len()) by (nonlinear_arith)
            requires
                s.len() > 0,
                k == j / s.len() as int,
                i == j % s.len() as int,
        ;
        assert(0 <= k < count) by (nonlinear_arith)
            requires
                s.len() > 0,
                0 <= j < count * s.len(),
                j == k * s.len() + i,
                0 <= i < s.len(),
        ;
        lemma_repeat_index(s, count as nat, k, i);
    }
}

/// The `i`-th hap of the `k`-th copy in `repeat(s, n)`.
proof fn lemma_repeat_index(s: Seq<SpecEvent>, n: nat, k: int, i: int)
    requires
        0 <= k < n,
        0 <= i < s.len(),
    ensures
        repeat(s, n)[k * s.len() + i] == s[i],
    decreases n,
{
    lemma_repeat_len(s, (n - 1) as nat);
    if k < n - 1 {
        lemma_repeat_index(s, (n - 1) as nat, k, i);
        assert(k * s.len() + i < (n - 1) * s.len()) by (nonlinear_arith)
            requires
                0 <= k < n - 1,
                0 <= i < s.len(),
        ;
    } else {
        assert(k * s.len() == (n - 1) * s.len());
    }
}

/// The two normalisation rewrites keep the schedule: `(loop 1 x)` and a
/// one-element sequence of `x` schedule exactly the haps of `x`.
pub proof fn law_rewrites_keep_schedule(x: SpecPattern)
    ensures
        events(SpecPattern::Op(SpecOp::Loop { count: 1, body: Box::new(x) })) == events(x),
        events(SpecPattern::Sequence(seq![x])) == events(x),
{
    assert(repeat(events(x), 1) =~= events(x)) by {
        assert(repeat(events(x), 0) =~= Seq::<SpecEvent>::empty());
    }
    assert(seq![x].drop_last() =~= Seq::<SpecPattern>::empty());
    assert(crate::schedule::events_list(seq![x]) =~= events(x)) by {
        assert(crate::schedule::events_list(Seq::<SpecPattern>::empty()) =~= Seq::<SpecEvent>::empty());
    }
}

} // verus!
