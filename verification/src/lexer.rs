//! Tokenizer of the refrain language.
//!
//! A source text is a sequence of characters. Blanks separate tokens, `;`
//! starts a comment that runs to the end of the line, `(` and `)` are tokens
//! of their own, and every maximal run of other characters is an atom.

use vstd::prelude::*;
use vstd::std_specs::iter::IteratorSpec;
use vstd::string::StrSliceExecFns;

verus! {

broadcast use vstd::string::group_string_axioms;

/// Model of a token.
#[verifier::ext_equal]
pub enum SpecToken {
    Open,
    Close,
    Atom(Seq<char>),
}

/// The blank characters that separate tokens.
pub open spec fn is_blank(c: char) -> bool {
    c == ' ' || c == '\t' || c == '\n' || c == '\r' || c == '\x0C'
}

/// Characters that may appear in an atom.
pub open spec fn is_atom_char(c: char) -> bool {
    !is_blank(c) && c != '(' && c != ')' && c != ';'
}

/// Length of the longest prefix of `s` made of atom characters.
pub open spec fn atom_len(s: Seq<char>) -> nat
    decreases s.len(),
{
    if s.len() > 0 && is_atom_char(s[0]) {
        1 + atom_len(s.drop_first())
    } else {
        0
    }
}

/// Number of characters of a comment body: up to and including the first
/// line feed, or all of `s` when there is none.
pub open spec fn comment_len(s: Seq<char>) -> nat
    decreases s.len(),
{
    if s.len() == 0 {
        0
    } else if s[0] == '\n' {
        1
    } else {
        1 + comment_len(s.drop_first())
    }
}

pub proof fn lemma_atom_len_bound(s: Seq<char>)
    ensures
        atom_len(s) <= s.len(),
        s.len() > 0 && is_atom_char(s[0]) ==> atom_len(s) >= 1,
    decreases s.len(),
{
    if s.len() > 0 && is_atom_char(s[0]) {
        lemma_atom_len_bound(s.drop_first());
    }
}

pub proof fn lemma_comment_len_bound(s: Seq<char>)
    ensures
        comment_len(s) <= s.len(),
    decreases s.len(),
{
    if s.len() > 0 && s[0] != '\n' {
        lemma_comment_len_bound(s.drop_first());
    }
}

/// The tokens of a source text.
pub open spec fn tokenize(s: Seq<char>) -> Seq<SpecToken>
    decreases s.len(),
{
    if s.len() == 0 {
        Seq::empty()
    } else if is_blank(s[0]) {
        tokenize(s.drop_first())
    } else if s[0] == ';' {
        proof {
            lemma_comment_len_bound(s.drop_first());
        }
        tokenize(s.skip(1 + comment_len(s.drop_first()) as int))
    } else if s[0] == '(' {
        seq![SpecToken::Open] + tokenize(s.drop_first())
    } else if s[0] == ')' {
        seq![SpecToken::Close] + tokenize(s.drop_first())
    } else {
        proof {
            lemma_atom_len_bound(s);
        }
        seq![SpecToken::Atom(s.take(atom_len(s) as int))] + tokenize(s.skip(atom_len(s) as int))
    }
}

/// A token.
pub enum Token {
    Open,
    Close,
    Atom(String),
}

impl View for Token {
    type V = SpecToken;

    open spec fn view(&self) -> SpecToken {
        match self {
            Token::Open => SpecToken::Open,
            Token::Close => SpecToken::Close,
            Token::Atom(a) => SpecToken::Atom(a@),
        }
    }
}

/// The models of a sequence of tokens.
pub open spec fn tokens_model(ts: Seq<Token>) -> Seq<SpecToken> {
    ts.map_values(|t: Token| t@)
}

pub fn is_blank_char(c: char) -> (b: bool)
    ensures
        b == is_blank(c),
{
    c == ' ' || c == '\t' || c == '\n' || c == '\r' || c == '\x0C'
}

pub fn is_atom_character(c: char) -> (b: bool)
    ensures
        b == is_atom_char(c),
{
    !is_blank_char(c) && c != '(' && c != ')' && c != ';'
}

/// The characters of a string.
pub fn chars_of(s: &str) -> (v: Vec<char>)
    ensures
        v@ == s@,
{
    let mut v: Vec<char> = Vec::new();
    for c in it: s.chars()
        invariant
            v@ == it.seq().take(it.index() as int),
    {
        v.push(c);
    }
    v
}

/// The tokens of a source text.
pub fn tokenize_str(src: &str) -> (ts: Vec<Token>)
    ensures
        tokens_model(ts@) == tokenize(src@),
{
    let chars = chars_of(src);
    let n = chars.len();
    let ghost s = chars@;
    let mut ts: Vec<Token> = Vec::new();
    let mut i: usize = 0;
    assert(s.skip(0) =~= s);
    while i < n
        invariant
            n == s.len(),
            s == chars@,
            i <= n,
            tokens_model(ts@) + tokenize(s.skip(i as int)) == tokenize(s),
            s == src@,
        decreases n - i,
    {
        let c = chars[i];
        let ghost rest = s.skip(i as int);
        assert(rest[0] == c);
        assert(rest.drop_first() =~= s.skip(i + 1));
        if is_blank_char(c) {
            i = i + 1;
        } else if c == ';' {
            let mut j: usize = i + 1;
            assert(s.skip(j as int) =~= rest.drop_first());
            while j < n && chars[j] != '\n'
                invariant
                    n == s.len(),
                    s == chars@,
                    i < j <= n,
                    comment_len(rest.drop_first()) == (j - (i + 1)) + comment_len(s.skip(j as int)),
                decreases n - j,
            {
                let ghost t = s.skip(j as int);
                assert(t.drop_first() =~= s.skip(j + 1));
                j = j + 1;
            }
            if j < n {
                let ghost t = s.skip(j as int);
                assert(t[0] == '\n');
                j = j + 1;
            }
            assert(rest.skip(1 + comment_len(rest.drop_first()) as int) =~= s.skip(j as int));
            i = j;
        } else if c == '(' {
            let ghost old_ts = ts@;
            ts.push(Token::Open);
            assert(tokens_model(ts@) =~= tokens_model(old_ts) + seq![SpecToken::Open]);
            i = i + 1;
        } else if c == ')' {
            let ghost old_ts = ts@;
            ts.push(Token::Close);
            assert(tokens_model(ts@) =~= tokens_model(old_ts) + seq![SpecToken::Close]);
            i = i + 1;
        } else {
            let mut j: usize = i + 1;
            assert(is_atom_char(rest[0]));
            assert(s.skip(j as int) =~= rest.drop_first());
            while j < n && is_atom_character(chars[j])
                invariant
                    n == s.len(),
                    s == chars@,
                    i < j <= n,
                    atom_len(rest) == (j - i) + atom_len(s.skip(j as int)),
                decreases n - j,
            {
                let ghost t = s.skip(j as int);
                assert(t.drop_first() =~= s.skip(j + 1));
                j = j + 1;
            }
            assert(atom_len(s.skip(j as int)) == 0);
            let ghost old_ts = ts@;
            let atom = src.substring_char(i, j).to_owned();
            ts.push(Token::Atom(atom));
            assert(rest.take(atom_len(rest) as int) =~= s.subrange(i as int, j as int));
            assert(rest.skip(atom_len(rest) as int) =~= s.skip(j as int));
            assert(tokens_model(ts@) =~= tokens_model(old_ts) + seq![SpecToken::Atom(s.subrange(i as int, j as int))]);
            i = j;
        }
    }
    assert(s.skip(n as int) =~= Seq::<char>::empty());
    assert(tokens_model(ts@) + Seq::<SpecToken>::empty() =~= tokens_model(ts@));
    ts
}

} // verus!
