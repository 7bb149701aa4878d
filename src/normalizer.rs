use vstd::prelude::*;
use crate::token::Token;

verus! {

/// Square brackets carry no meaning between records: they are dropped.
pub open spec fn is_bracket(t: Token) -> bool {
    t == Token::LeftSquareBracket || t == Token::RightSquareBracket
}

/// The canonical form of a token sequence: brackets removed and runs of
/// separators collapsed into one.
pub open spec fn normalize_seq(s: Seq<Token>) -> Seq<Token>
    decreases s.len(),
{
    if s.len() == 0 {
        s
    } else {
        let p = normalize_seq(s.drop_last());
        let t = s.last();
        if is_bracket(t) || (t == Token::Pipe && p.len() > 0 && p.last() == Token::Pipe) {
            p
        } else {
            p.push(t)
        }
    }
}

/// A sequence already in canonical form.
pub open spec fn is_normal(s: Seq<Token>) -> bool {
    &&& forall|i: int| 0 <= i < s.len() ==> !is_bracket(#[trigger] s[i])
    &&& forall|i: int| 0 < i < s.len() ==> !(s[i - 1] == Token::Pipe && #[trigger] s[i] == Token::Pipe)
}

pub proof fn lemma_normalize_is_normal(s: Seq<Token>)
    ensures
        is_normal(normalize_seq(s)),
    decreases s.len(),
{
    if s.len() > 0 {
        lemma_normalize_is_normal(s.drop_last());
        let p = normalize_seq(s.drop_last());
        let t = s.last();
        if !(is_bracket(t) || (t == Token::Pipe && p.len() > 0 && p.last() == Token::Pipe)) {
            let q = p.push(t);
            assert forall|i: int| 0 < i < q.len() implies !(q[i - 1] == Token::Pipe && #[trigger] q[i] == Token::Pipe) by {
                if i < p.len() {
                    assert(q[i - 1] == p[i - 1] && q[i] == p[i]);
                }
            }
        }
    }
}

pub proof fn lemma_normal_fixed(s: Seq<Token>)
    requires
        is_normal(s),
    ensures
        normalize_seq(s) == s,
    decreases s.len(),
{
    if s.len() > 0 {
        let d = s.drop_last();
        assert(is_normal(d)) by {
            assert forall|i: int| 0 < i < d.len() implies !(d[i - 1] == Token::Pipe && #[trigger] d[i] == Token::Pipe) by {
                assert(d[i - 1] == s[i - 1] && d[i] == s[i]);
            }
        }
        lemma_normal_fixed(d);
        assert(!is_bracket(s[s.len() - 1]));
        if s.len() > 1 {
            assert(!(s[s.len() - 2] == Token::Pipe && s[s.len() - 1] == Token::Pipe));
        }
        assert(d.push(s.last()) =~= s);
    }
}

/// Normalizing twice gives what normalizing once gives.
pub proof fn lemma_normalize_idempotent(s: Seq<Token>)
    ensures
        normalize_seq(normalize_seq(s)) == normalize_seq(s),
{
    lemma_normalize_is_normal(s);
    lemma_normal_fixed(normalize_seq(s));
}

/// Separators: what normalization may drop.
pub open spec fn is_separator(t: Token) -> bool {
    is_bracket(t) || t == Token::Pipe
}

/// The tokens that carry content (identifiers, locations, operations, line
/// numbers and parentheses), in order.
pub open spec fn content(s: Seq<Token>) -> Seq<Token>
    decreases s.len(),
{
    if s.len() == 0 {
        s
    } else if is_separator(s.last()) {
        content(s.drop_last())
    } else {
        content(s.drop_last()).push(s.last())
    }
}

/// Normalization keeps every content token, in order: only separators
/// change.
pub proof fn lemma_normalize_preserves_content(s: Seq<Token>)
    ensures
        content(normalize_seq(s)) == content(s),
    decreases s.len(),
{
    if s.len() > 0 {
        lemma_normalize_preserves_content(s.drop_last());
        let p = normalize_seq(s.drop_last());
        let t = s.last();
        if !(is_bracket(t) || (t == Token::Pipe && p.len() > 0 && p.last() == Token::Pipe)) {
            assert(p.push(t).drop_last() =~= p);
        }
    }
}

/// Rewrites a token sequence into its canonical form.
pub fn normalize_tokens(tokens: Vec<Token>) -> (r: Vec<Token>)
    ensures
        r@ == normalize_seq(tokens@),
        is_normal(r@),
        content(r@) == content(tokens@),
{
    let mut out: Vec<Token> = Vec::new();
    let mut i: usize = 0;
    while i < tokens.len()
        invariant
            i <= tokens@.len(),
            out@ == normalize_seq(tokens@.subrange(0, i as int)),
        decreases tokens@.len() - i,
    {
        let t = tokens[i];
        assert(tokens@.subrange(0, i + 1).drop_last() =~= tokens@.subrange(0, i as int));
        let skip = match t {
            Token::LeftSquareBracket => true,
            Token::RightSquareBracket => true,
            Token::Pipe => out.len() > 0 && out[out.len() - 1] == Token::Pipe,
            _ => false,
        };
        if !skip {
            out.push(t);
        }
        i = i + 1;
    }
    assert(tokens@.subrange(0, i as int) =~= tokens@);
    proof {
        lemma_normalize_is_normal(tokens@);
        lemma_normalize_preserves_content(tokens@);
    }
    out
}

} // verus!
