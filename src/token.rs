use vstd::prelude::*;

verus! {

/// The `.field[index]` part of a qualified memory location.
#[derive(Debug, Clone, Copy, PartialEq, Eq, Structural)]
pub struct Qualifier {
    pub field: i64,
    pub index: i64,
}

/// A shared-memory cell: a variable, optionally narrowed by a field index and
/// an array index (`V3.1[4]`).
#[derive(Debug, Clone, Copy, PartialEq, Eq, Structural)]
pub struct Location {
    pub variable: i64,
    pub qualifier: Option<Qualifier>,
}

/// One lexical unit of a trace.
#[derive(Debug, Clone, Copy, PartialEq, Eq, Structural)]
pub enum Token {
    Pipe,
    LeftParenthesis,
    RightParenthesis,
    LeftSquareBracket,
    RightSquareBracket,
    Write,
    Read,
    ThreadIdentifier(i64),
    LockIdentifier(i64),
    MemoryLocation(Location),
    Fork,
    Request,
    Acquire,
    Release,
    Join,
    LineNumber(i64),
}

/// Failure of lexical analysis: the byte offset where no token starts.
#[derive(Debug, Clone, Copy, PartialEq, Eq, Structural)]
pub enum LexerError {
    NonAsciiCharacter { position: usize },
}

impl LexerError {
    /// The message shown for the error.
    pub fn to_string(&self) -> (r: String)
        ensures
            r@ == "Logos encountered an non-ascii character"@,
    {
        "Logos encountered an non-ascii character".to_owned()
    }
}

pub open spec fn is_digit(b: u8) -> bool {
    48 <= b <= 57
}

/// Space, tab, line feed, carriage return and form feed separate tokens.
pub open spec fn is_space(b: u8) -> bool {
    b == 32 || b == 9 || b == 10 || b == 13 || b == 12
}

/// Length of the run of decimal digits that starts at `p`.
pub open spec fn digit_run(s: Seq<u8>, p: int) -> nat
    decreases s.len() - p,
{
    if p < 0 || p >= s.len() || !is_digit(s[p]) {
        0
    } else {
        1 + digit_run(s, p + 1)
    }
}

/// The number that a sequence of decimal digits denotes.
pub open spec fn digits_value(d: Seq<u8>) -> nat
    decreases d.len(),
{
    if d.len() == 0 {
        0
    } else {
        digits_value(d.drop_last()) * 10 + (d.last() - 48) as nat
    }
}

/// The `n` digits at `p` as an `i64`, if they fit.
pub open spec fn number_at(s: Seq<u8>, p: int, n: nat) -> Option<i64> {
    let v = digits_value(s.subrange(p, p + n));
    if v <= i64::MAX {
        Some(v as i64)
    } else {
        None
    }
}

pub open spec fn keyword_at(s: Seq<u8>, p: int, k: Seq<u8>) -> bool {
    0 <= p && p + k.len() <= s.len() && s.subrange(p, p + k.len()) == k
}

pub open spec fn kw_fork() -> Seq<u8> {
    seq![102u8, 111u8, 114u8, 107u8]
}

pub open spec fn kw_join() -> Seq<u8> {
    seq![106u8, 111u8, 105u8, 110u8]
}

pub open spec fn kw_acq() -> Seq<u8> {
    seq![97u8, 99u8, 113u8]
}

pub open spec fn kw_req() -> Seq<u8> {
    seq![114u8, 101u8, 113u8]
}

pub open spec fn kw_rel() -> Seq<u8> {
    seq![114u8, 101u8, 108u8]
}

/// A letter followed by a number (`T4`, `L2`): its length and number.
pub open spec fn prefixed_number(s: Seq<u8>, p: int) -> Option<(nat, i64)> {
    let n = digit_run(s, p + 1);
    if n == 0 {
        None
    } else {
        match number_at(s, p + 1, n) {
            Some(v) => Some(((1 + n) as nat, v)),
            None => None,
        }
    }
}

/// The `.field[index]` qualifier of a memory location starting at `q`, if
/// complete: its length and its two numbers.
pub open spec fn qualifier_at(s: Seq<u8>, q: int) -> Option<(nat, Qualifier)> {
    let m = digit_run(s, q + 1);
    let k = digit_run(s, q + 2 + m);
    if 0 <= q && q + 3 + m + k <= s.len() && s[q] == 46u8 && m > 0 && s[q + 1 + m] == 91u8
        && k > 0 && s[q + 2 + m + k] == 93u8 {
        match (number_at(s, q + 1, m), number_at(s, q + 2 + m, k)) {
            (Some(f), Some(i)) => Some(((3 + m + k) as nat, Qualifier { field: f, index: i })),
            _ => None,
        }
    } else {
        None
    }
}

/// What the longest match at `p` consumes, and the token it yields (none for
/// whitespace); `None` where no token starts at `p`.
pub open spec fn step(s: Seq<u8>, p: int) -> Option<(nat, Option<Token>)> {
    let b = s[p];
    if is_space(b) {
        Some((1, None))
    } else if b == 124u8 {
        Some((1, Some(Token::Pipe)))
    } else if b == 40u8 {
        Some((1, Some(Token::LeftParenthesis)))
    } else if b == 41u8 {
        Some((1, Some(Token::RightParenthesis)))
    } else if b == 91u8 {
        Some((1, Some(Token::LeftSquareBracket)))
    } else if b == 93u8 {
        Some((1, Some(Token::RightSquareBracket)))
    } else if b == 119u8 {
        Some((1, Some(Token::Write)))
    } else if b == 114u8 {
        if keyword_at(s, p, kw_req()) {
            Some((3, Some(Token::Request)))
        } else if keyword_at(s, p, kw_rel()) {
            Some((3, Some(Token::Release)))
        } else {
            Some((1, Some(Token::Read)))
        }
    } else if b == 102u8 {
        if keyword_at(s, p, kw_fork()) {
            Some((4, Some(Token::Fork)))
        } else {
            None
        }
    } else if b == 106u8 {
        if keyword_at(s, p, kw_join()) {
            Some((4, Some(Token::Join)))
        } else {
            None
        }
    } else if b == 97u8 {
        if keyword_at(s, p, kw_acq()) {
            Some((3, Some(Token::Acquire)))
        } else {
            None
        }
    } else if b == 84u8 {
        match prefixed_number(s, p) {
            Some((n, v)) => Some((n, Some(Token::ThreadIdentifier(v)))),
            None => None,
        }
    } else if b == 76u8 {
        match prefixed_number(s, p) {
            Some((n, v)) => Some((n, Some(Token::LockIdentifier(v)))),
            None => None,
        }
    } else if b == 86u8 {
        match prefixed_number(s, p) {
            Some((n, v)) => match qualifier_at(s, p + n) {
                Some((m, fi)) => Some(
                    ((n + m) as nat, Some(Token::MemoryLocation(Location { variable: v, qualifier: Some(fi) }))),
                ),
                None => Some((n, Some(Token::MemoryLocation(Location { variable: v, qualifier: None })))),
            },
            None => None,
        }
    } else if is_digit(b) {
        let n = digit_run(s, p);
        match number_at(s, p, n) {
            Some(v) => Some((n, Some(Token::LineNumber(v)))),
            None => None,
        }
    } else {
        None
    }
}

/// Lexing from position `p` on, with the tokens found so far in `acc`.
pub open spec fn lex_from(s: Seq<u8>, p: int, acc: Seq<Token>) -> Result<Seq<Token>, LexerError>
    decreases s.len() - p,
{
    if p < 0 || p >= s.len() {
        Ok(acc)
    } else {
        match step(s, p) {
            None => Err(LexerError::NonAsciiCharacter { position: p as usize }),
            Some(st) => {
                let next = match st.1 {
                    Some(tok) => acc.push(tok),
                    None => acc,
                };
                if st.0 > 0 && p + st.0 <= s.len() {
                    lex_from(s, p + st.0, next)
                } else {
                    Ok(acc)
                }
            },
        }
    }
}

/// The tokens of a whole input, or the first position where none starts.
pub open spec fn lex(s: Seq<u8>) -> Result<Seq<Token>, LexerError> {
    lex_from(s, 0, Seq::empty())
}

pub open spec fn tokens_view(r: Result<Vec<Token>, LexerError>) -> Result<Seq<Token>, LexerError> {
    match r {
        Ok(v) => Ok(v@),
        Err(e) => Err(e),
    }
}


proof fn lemma_digit_run_bound(s: Seq<u8>, p: int)
    requires
        0 <= p <= s.len(),
    ensures
        digit_run(s, p) <= s.len() - p,
        forall|i: int| p <= i < p + digit_run(s, p) ==> is_digit(#[trigger] s[i]),
        p + digit_run(s, p) < s.len() ==> !is_digit(s[p + digit_run(s, p)]),
    decreases s.len() - p,
{
    if p < s.len() && is_digit(s[p]) {
        lemma_digit_run_bound(s, p + 1);
    }
}

proof fn lemma_value_prefix(d: Seq<u8>, k: int)
    requires
        0 <= k <= d.len(),
    ensures
        digits_value(d.subrange(0, k)) <= digits_value(d),
    decreases d.len(),
{
    if k < d.len() {
        lemma_value_prefix(d.drop_last(), k);
        assert(d.drop_last().subrange(0, k) =~= d.subrange(0, k));
    } else {
        assert(d.subrange(0, k) =~= d);
    }
}

fn digit_run_exec(s: &[u8], p: usize) -> (n: usize)
    requires
        p <= s@.len(),
    ensures
        n == digit_run(s@, p as int),
        p + n <= s@.len(),
{
    let mut q: usize = p;
    while q < s.len() && 48 <= s[q] && s[q] <= 57
        invariant
            p <= q <= s@.len(),
            digit_run(s@, p as int) == (q - p) + digit_run(s@, q as int),
        decreases s@.len() - q,
    {
        q = q + 1;
    }
    q - p
}

/// Reads the `n` digits at `p` as an `i64`, or `None` where they overflow.
fn number_exec(s: &[u8], p: usize, n: usize) -> (r: Option<i64>)
    requires
        p + n <= s@.len(),
        forall|i: int| p <= i < p + n ==> is_digit(#[trigger] s@[i]),
    ensures
        r == number_at(s@, p as int, n as nat),
{
    let ghost d = s@.subrange(p as int, p + n);
    let mut v: i64 = 0;
    let len = s.len();
    let end: usize = p + n;
    let mut k: usize = p;
    while k < end
        invariant
            end == p + n,
            p <= k <= p + n,
            p + n <= s@.len(),
            forall|i: int| p <= i < p + n ==> is_digit(#[trigger] s@[i]),
            d == s@.subrange(p as int, p + n),
            v as int == digits_value(s@.subrange(p as int, k as int)),
        decreases end - k,
    {
        let b = s[k];
        let c: i64 = (b - 48) as i64;
        assert(s@.subrange(p as int, k + 1).drop_last() =~= s@.subrange(p as int, k as int));
        if v > (i64::MAX - c) / 10 {
            assert(v * 10 + c > i64::MAX) by (nonlinear_arith)
                requires
                    v > (i64::MAX - c) / 10,
                    0 <= c <= 9,
            ;
            proof {
                assert(d.subrange(0, k + 1 - p) =~= s@.subrange(p as int, k + 1));
                lemma_value_prefix(d, k + 1 - p);
            }
            return None;
        }
        assert(v * 10 + c <= i64::MAX) by (nonlinear_arith)
            requires
                v <= (i64::MAX - c) / 10,
                0 <= c <= 9,
        ;
        v = v * 10 + c;
        k = k + 1;
    }
    assert(s@.subrange(p as int, k as int) =~= d);
    Some(v)
}


fn keyword_exec(s: &[u8], p: usize, k: &[u8]) -> (r: bool)
    requires
        p <= s@.len(),
    ensures
        r == keyword_at(s@, p as int, k@),
{
    if k.len() > s.len() - p {
        return false;
    }
    let mut i: usize = 0;
    while i < k.len()
        invariant
            p + k@.len() <= s@.len() <= usize::MAX,
            i <= k@.len(),
            forall|j: int| 0 <= j < i ==> s@[p + j] == k@[j],
        decreases k@.len() - i,
    {
        if s[p + i] != k[i] {
            assert(s@.subrange(p as int, p + k@.len())[i as int] != k@[i as int]);
            return false;
        }
        i = i + 1;
    }
    assert(s@.subrange(p as int, p + k@.len()) =~= k@);
    true
}

fn prefixed_number_exec(s: &[u8], p: usize) -> (r: Option<(usize, i64)>)
    requires
        p < s@.len(),
    ensures
        match r {
            Some((n, v)) => prefixed_number(s@, p as int) == Some((n as nat, v)) && p + n
                <= s@.len(),
            None => prefixed_number(s@, p as int).is_none(),
        },
{
    let len = s.len();
    let n = digit_run_exec(s, p + 1);
    proof {
        lemma_digit_run_bound(s@, p + 1);
    }
    if n == 0 {
        return None;
    }
    match number_exec(s, p + 1, n) {
        Some(v) => Some((1 + n, v)),
        None => None,
    }
}

fn qualifier_exec(s: &[u8], q: usize) -> (r: Option<(usize, Qualifier)>)
    requires
        q <= s@.len(),
    ensures
        match r {
            Some((n, fi)) => qualifier_at(s@, q as int) == Some((n as nat, fi)) && q + n
                <= s@.len(),
            None => qualifier_at(s@, q as int).is_none(),
        },
{
    if q >= s.len() || s[q] != 46 {
        return None;
    }
    let m = digit_run_exec(s, q + 1);
    proof {
        lemma_digit_run_bound(s@, q + 1);
    }
    if m == 0 || q + 1 + m >= s.len() || s[q + 1 + m] != 91 {
        return None;
    }
    let k = digit_run_exec(s, q + 2 + m);
    proof {
        lemma_digit_run_bound(s@, q + 2 + m);
    }
    if k == 0 || q + 2 + m + k >= s.len() || s[q + 2 + m + k] != 93 {
        return None;
    }
    match (number_exec(s, q + 1, m), number_exec(s, q + 2 + m, k)) {
        (Some(f), Some(i)) => Some((3 + m + k, Qualifier { field: f, index: i })),
        _ => None,
    }
}

fn wrap(r: Option<(usize, i64)>, tok: Token) -> (o: Option<(usize, Option<Token>)>)
    ensures
        match r {
            Some((n, _)) => o == Some((n, Some(tok))),
            None => o.is_none(),
        },
{
    match r {
        Some((n, _)) => Some((n, Some(tok))),
        None => None,
    }
}

/// The longest match at `p`: bytes consumed and the token, if any.
fn scan_token(s: &[u8], p: usize) -> (r: Option<(usize, Option<Token>)>)
    requires
        p < s@.len(),
    ensures
        match r {
            Some((n, t)) => step(s@, p as int) == Some((n as nat, t)) && 1 <= n && p + n
                <= s@.len(),
            None => step(s@, p as int).is_none(),
        },
{
    let b = s[p];
    let k_req: [u8; 3] = [114, 101, 113];
    let k_rel: [u8; 3] = [114, 101, 108];
    let k_fork: [u8; 4] = [102, 111, 114, 107];
    let k_join: [u8; 4] = [106, 111, 105, 110];
    let k_acq: [u8; 3] = [97, 99, 113];
    assert(k_req@ =~= kw_req());
    assert(k_rel@ =~= kw_rel());
    assert(k_fork@ =~= kw_fork());
    assert(k_join@ =~= kw_join());
    assert(k_acq@ =~= kw_acq());
    if b == 32 || b == 9 || b == 10 || b == 13 || b == 12 {
        Some((1, None))
    } else if b == 124 {
        Some((1, Some(Token::Pipe)))
    } else if b == 40 {
        Some((1, Some(Token::LeftParenthesis)))
    } else if b == 41 {
        Some((1, Some(Token::RightParenthesis)))
    } else if b == 91 {
        Some((1, Some(Token::LeftSquareBracket)))
    } else if b == 93 {
        Some((1, Some(Token::RightSquareBracket)))
    } else if b == 119 {
        Some((1, Some(Token::Write)))
    } else if b == 114 {
        if keyword_exec(s, p, k_req.as_slice()) {
            Some((3, Some(Token::Request)))
        } else if keyword_exec(s, p, k_rel.as_slice()) {
            Some((3, Some(Token::Release)))
        } else {
            Some((1, Some(Token::Read)))
        }
    } else if b == 102 {
        if keyword_exec(s, p, k_fork.as_slice()) {
            Some((4, Some(Token::Fork)))
        } else {
            None
        }
    } else if b == 106 {
        if keyword_exec(s, p, k_join.as_slice()) {
            Some((4, Some(Token::Join)))
        } else {
            None
        }
    } else if b == 97 {
        if keyword_exec(s, p, k_acq.as_slice()) {
            Some((3, Some(Token::Acquire)))
        } else {
            None
        }
    } else if b == 84 {
        let r = prefixed_number_exec(s, p);
        match r {
            Some((n, v)) => Some((n, Some(Token::ThreadIdentifier(v)))),
            None => None,
        }
    } else if b == 76 {
        let r = prefixed_number_exec(s, p);
        match r {
            Some((n, v)) => Some((n, Some(Token::LockIdentifier(v)))),
            None => None,
        }
    } else if b == 86 {
        match prefixed_number_exec(s, p) {
            Some((n, v)) => match qualifier_exec(s, p + n) {
                Some((m, fi)) => Some(
                    (n + m, Some(Token::MemoryLocation(Location { variable: v, qualifier: Some(fi) }))),
                ),
                None => Some((n, Some(Token::MemoryLocation(Location { variable: v, qualifier: None })))),
            },
            None => None,
        }
    } else if 48 <= b && b <= 57 {
        let n = digit_run_exec(s, p);
        proof {
            lemma_digit_run_bound(s@, p as int);
        }
        match number_exec(s, p, n) {
            Some(v) => Some((n, Some(Token::LineNumber(v)))),
            None => None,
        }
    } else {
        None
    }
}

/// Splits a byte string into tokens, skipping whitespace.
pub fn tokenize_bytes(s: &[u8]) -> (r: Result<Vec<Token>, LexerError>)
    ensures
        tokens_view(r) == lex(s@),
{
    let mut out: Vec<Token> = Vec::new();
    let mut p: usize = 0;
    while p < s.len()
        invariant
            p <= s@.len(),
            lex(s@) == lex_from(s@, p as int, out@),
        decreases s@.len() - p,
    {
        match scan_token(s, p) {
            None => {
                return Err(LexerError::NonAsciiCharacter { position: p });
            },
            Some((n, t)) => {
                match t {
                    Some(tok) => out.push(tok),
                    None => {},
                }
                p = p + n;
            },
        }
    }
    Ok(out)
}

/// Splits a trace text into tokens; fails at the first byte where no token
/// starts.
pub fn tokenize_source(source: String) -> (r: Result<Vec<Token>, LexerError>)
    ensures
        tokens_view(r) == lex(vstd::utf8::encode_utf8(source@)),
{
    let bytes = source.as_str().as_bytes();
    tokenize_bytes(bytes)
}


/// The bytes that can occur in some token or between tokens.
pub open spec fn in_alphabet(b: u8) -> bool {
    ||| is_space(b)
    ||| is_digit(b)
    ||| b == 124u8 || b == 40u8 || b == 41u8 || b == 91u8 || b == 93u8 || b == 46u8
    ||| b == 119u8 || b == 114u8 || b == 101u8 || b == 113u8 || b == 108u8
    ||| b == 102u8 || b == 111u8 || b == 107u8 || b == 106u8 || b == 105u8 || b == 110u8
    ||| b == 97u8 || b == 99u8
    ||| b == 84u8 || b == 76u8 || b == 86u8
}

proof fn lemma_keyword_bytes(s: Seq<u8>, p: int, k: Seq<u8>)
    requires
        keyword_at(s, p, k),
    ensures
        forall|x: int| p <= x < p + k.len() ==> s[x] == k[x - p],
{
    assert forall|x: int| p <= x < p + k.len() implies s[x] == k[x - p] by {
        assert(s.subrange(p, p + k.len())[x - p] == s[x]);
    }
}

proof fn lemma_step_covers(s: Seq<u8>, p: int)
    requires
        0 <= p < s.len(),
        step(s, p) is Some,
    ensures
        1 <= step(s, p)->Some_0.0,
        p + step(s, p)->Some_0.0 <= s.len(),
        forall|x: int| p <= x < p + step(s, p)->Some_0.0 ==> in_alphabet(#[trigger] s[x]),
{
    let b = s[p];
    if b == 114u8 {
        if keyword_at(s, p, kw_req()) {
            lemma_keyword_bytes(s, p, kw_req());
        } else if keyword_at(s, p, kw_rel()) {
            lemma_keyword_bytes(s, p, kw_rel());
        }
    } else if b == 102u8 {
        lemma_keyword_bytes(s, p, kw_fork());
    } else if b == 106u8 {
        lemma_keyword_bytes(s, p, kw_join());
    } else if b == 97u8 {
        lemma_keyword_bytes(s, p, kw_acq());
    } else if b == 84u8 || b == 76u8 || b == 86u8 {
        lemma_digit_run_bound(s, p + 1);
        if b == 86u8 {
            let n = prefixed_number(s, p)->Some_0.0;
            let q = p + n;
            if qualifier_at(s, q) is Some {
                lemma_digit_run_bound(s, q + 1);
                let m = digit_run(s, q + 1);
                lemma_digit_run_bound(s, q + 2 + m);
            }
        }
    } else if is_digit(b) && !is_space(b) {
        lemma_digit_run_bound(s, p);
    }
}

proof fn lemma_lex_from_rejects(s: Seq<u8>, p: int, q: int, acc: Seq<Token>)
    requires
        0 <= p <= q < s.len(),
        !in_alphabet(s[q]),
    ensures
        lex_from(s, p, acc) is Err,
    decreases s.len() - p,
{
    if step(s, p) is Some {
        lemma_step_covers(s, p);
        let st = step(s, p)->Some_0;
        let next = match st.1 {
            Some(tok) => acc.push(tok),
            None => acc,
        };
        lemma_lex_from_rejects(s, p + st.0, q, next);
    }
}

/// Input holding a byte that no token and no whitespace contains is
/// rejected: nothing is silently dropped.
pub proof fn lemma_foreign_byte_rejected(s: Seq<u8>, q: int)
    requires
        0 <= q < s.len(),
        !in_alphabet(s[q]),
    ensures
        lex(s) is Err,
{
    lemma_lex_from_rejects(s, 0, q, Seq::empty());
}

} // verus!
