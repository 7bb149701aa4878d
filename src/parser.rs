use vstd::prelude::*;
use crate::token::{Location, Token};

verus! {

/// What a record does.
#[derive(Debug, Clone, Copy, PartialEq, Eq, Structural)]
pub enum Operation {
    Write(Location),
    Read(Location),
    Acquire(i64),
    Release(i64),
    Request(i64),
    Fork(i64),
    Join(i64),
}

/// One record of a trace: which thread did what, at which source line.
#[derive(Debug, Clone, Copy, PartialEq, Eq, Structural)]
pub struct Event {
    pub source_line: i64,
    pub thread: i64,
    pub operation: Operation,
}

/// The kind of token the grammar asked for where parsing stopped.
#[derive(Debug, Clone, Copy, PartialEq, Eq, Structural)]
pub enum Expected {
    ThreadIdentifier,
    Pipe,
    Operation,
    LeftParenthesis,
    RightParenthesis,
    LockIdentifier,
    MemoryLocation,
    LineNumber,
}

/// The first grammar violation: what was expected, what stood there (nothing
/// at the end of input) and the token's index (the input's length at its
/// end).
#[derive(Debug, Clone, Copy, PartialEq, Eq, Structural)]
pub struct SyntaxError {
    pub expected: Expected,
    pub found: Option<Token>,
    pub position: usize,
}

pub open spec fn tok_at(ts: Seq<Token>, i: int) -> Option<Token> {
    if 0 <= i < ts.len() {
        Some(ts[i])
    } else {
        None
    }
}

pub open spec fn error_at(ts: Seq<Token>, i: int, e: Expected) -> SyntaxError {
    let position = if i <= ts.len() {
        i
    } else {
        ts.len() as int
    };
    SyntaxError { expected: e, found: tok_at(ts, i), position: position as usize }
}

/// The operand kind that an operation keyword takes.
pub open spec fn operand_kind(t: Option<Token>) -> Option<Expected> {
    match t {
        Some(Token::Write) => Some(Expected::MemoryLocation),
        Some(Token::Read) => Some(Expected::MemoryLocation),
        Some(Token::Fork) => Some(Expected::ThreadIdentifier),
        Some(Token::Join) => Some(Expected::ThreadIdentifier),
        Some(Token::Acquire) => Some(Expected::LockIdentifier),
        Some(Token::Release) => Some(Expected::LockIdentifier),
        Some(Token::Request) => Some(Expected::LockIdentifier),
        _ => None,
    }
}

/// An operation keyword applied to its operand, where the operand fits.
pub open spec fn make_operation(op: Option<Token>, arg: Option<Token>) -> Option<Operation> {
    match (op, arg) {
        (Some(Token::Write), Some(Token::MemoryLocation(l))) => Some(Operation::Write(l)),
        (Some(Token::Read), Some(Token::MemoryLocation(l))) => Some(Operation::Read(l)),
        (Some(Token::Fork), Some(Token::ThreadIdentifier(t))) => Some(Operation::Fork(t)),
        (Some(Token::Join), Some(Token::ThreadIdentifier(t))) => Some(Operation::Join(t)),
        (Some(Token::Acquire), Some(Token::LockIdentifier(l))) => Some(Operation::Acquire(l)),
        (Some(Token::Release), Some(Token::LockIdentifier(l))) => Some(Operation::Release(l)),
        (Some(Token::Request), Some(Token::LockIdentifier(l))) => Some(Operation::Request(l)),
        _ => None,
    }
}

/// The record `ThreadId "|" op "(" operand ")" "|" LineNumber` starting at `p`.
pub open spec fn parse_record(ts: Seq<Token>, p: int) -> Result<Event, SyntaxError> {
    match tok_at(ts, p) {
        Some(Token::ThreadIdentifier(thread)) => {
            if tok_at(ts, p + 1) != Some(Token::Pipe) {
                Err(error_at(ts, p + 1, Expected::Pipe))
            } else {
                match operand_kind(tok_at(ts, p + 2)) {
                    None => Err(error_at(ts, p + 2, Expected::Operation)),
                    Some(kind) => if tok_at(ts, p + 3) != Some(Token::LeftParenthesis) {
                        Err(error_at(ts, p + 3, Expected::LeftParenthesis))
                    } else {
                        match make_operation(tok_at(ts, p + 2), tok_at(ts, p + 4)) {
                            None => Err(error_at(ts, p + 4, kind)),
                            Some(operation) => if tok_at(ts, p + 5) != Some(Token::RightParenthesis) {
                                Err(error_at(ts, p + 5, Expected::RightParenthesis))
                            } else if tok_at(ts, p + 6) != Some(Token::Pipe) {
                                Err(error_at(ts, p + 6, Expected::Pipe))
                            } else {
                                match tok_at(ts, p + 7) {
                                    Some(Token::LineNumber(n)) => Ok(
                                        Event { source_line: n, thread, operation },
                                    ),
                                    _ => Err(error_at(ts, p + 7, Expected::LineNumber)),
                                }
                            },
                        }
                    },
                }
            }
        },
        _ => Err(error_at(ts, p, Expected::ThreadIdentifier)),
    }
}

/// Parsing the records from `p` on, with those read so far in `acc`.
pub open spec fn parse_from(ts: Seq<Token>, p: int, acc: Seq<Event>) -> Result<Seq<Event>, SyntaxError>
    decreases ts.len() - p,
{
    if p < 0 || p >= ts.len() {
        Ok(acc)
    } else {
        match parse_record(ts, p) {
            Ok(e) => if p + 8 <= ts.len() {
                parse_from(ts, p + 8, acc.push(e))
            } else {
                Ok(acc)
            },
            Err(err) => Err(err),
        }
    }
}

/// The events of a whole token sequence, or its first grammar violation.
pub open spec fn parse(ts: Seq<Token>) -> Result<Seq<Event>, SyntaxError> {
    parse_from(ts, 0, Seq::empty())
}

pub open spec fn events_view(r: Result<Vec<Event>, SyntaxError>) -> Result<Seq<Event>, SyntaxError> {
    match r {
        Ok(v) => Ok(v@),
        Err(e) => Err(e),
    }
}

fn tok_at_exec(ts: &Vec<Token>, p: usize, off: usize) -> (r: Option<Token>)
    requires
        p <= ts@.len(),
    ensures
        r == tok_at(ts@, p + off),
{
    if off < ts.len() - p {
        Some(ts[p + off])
    } else {
        None
    }
}

fn error_exec(ts: &Vec<Token>, p: usize, off: usize, e: Expected) -> (r: SyntaxError)
    requires
        p < ts@.len(),
        off <= 7,
    ensures
        r == error_at(ts@, p + off, e),
{
    let found = tok_at_exec(ts, p, off);
    let position: usize = if off <= ts.len() - p {
        p + off
    } else {
        ts.len()
    };
    SyntaxError { expected: e, found, position }
}

fn parse_record_exec(ts: &Vec<Token>, p: usize) -> (r: Result<Event, SyntaxError>)
    requires
        p < ts@.len(),
    ensures
        r == parse_record(ts@, p as int),
        r is Ok ==> p + 8 <= ts@.len(),
{
    let thread = match tok_at_exec(ts, p, 0) {
        Some(Token::ThreadIdentifier(t)) => t,
        _ => return Err(error_exec(ts, p, 0, Expected::ThreadIdentifier)),
    };
    if tok_at_exec(ts, p, 1) != Some(Token::Pipe) {
        return Err(error_exec(ts, p, 1, Expected::Pipe));
    }
    let op = tok_at_exec(ts, p, 2);
    let kind = match op {
        Some(Token::Write) => Expected::MemoryLocation,
        Some(Token::Read) => Expected::MemoryLocation,
        Some(Token::Fork) => Expected::ThreadIdentifier,
        Some(Token::Join) => Expected::ThreadIdentifier,
        Some(Token::Acquire) => Expected::LockIdentifier,
        Some(Token::Release) => Expected::LockIdentifier,
        Some(Token::Request) => Expected::LockIdentifier,
        _ => return Err(error_exec(ts, p, 2, Expected::Operation)),
    };
    if tok_at_exec(ts, p, 3) != Some(Token::LeftParenthesis) {
        return Err(error_exec(ts, p, 3, Expected::LeftParenthesis));
    }
    let operation = match (op, tok_at_exec(ts, p, 4)) {
        (Some(Token::Write), Some(Token::MemoryLocation(l))) => Operation::Write(l),
        (Some(Token::Read), Some(Token::MemoryLocation(l))) => Operation::Read(l),
        (Some(Token::Fork), Some(Token::ThreadIdentifier(t))) => Operation::Fork(t),
        (Some(Token::Join), Some(Token::ThreadIdentifier(t))) => Operation::Join(t),
        (Some(Token::Acquire), Some(Token::LockIdentifier(l))) => Operation::Acquire(l),
        (Some(Token::Release), Some(Token::LockIdentifier(l))) => Operation::Release(l),
        (Some(Token::Request), Some(Token::LockIdentifier(l))) => Operation::Request(l),
        _ => return Err(error_exec(ts, p, 4, kind)),
    };
    if tok_at_exec(ts, p, 5) != Some(Token::RightParenthesis) {
        return Err(error_exec(ts, p, 5, Expected::RightParenthesis));
    }
    if tok_at_exec(ts, p, 6) != Some(Token::Pipe) {
        return Err(error_exec(ts, p, 6, Expected::Pipe));
    }
    match tok_at_exec(ts, p, 7) {
        Some(Token::LineNumber(n)) => Ok(Event { source_line: n, thread, operation }),
        _ => Err(error_exec(ts, p, 7, Expected::LineNumber)),
    }
}

/// Reads a token sequence as records, stopping at the first grammar
/// violation.
pub fn parse_tokens(ts: &Vec<Token>) -> (r: Result<Vec<Event>, SyntaxError>)
    ensures
        events_view(r) == parse(ts@),
{
    let mut out: Vec<Event> = Vec::new();
    let mut p: usize = 0;
    while p < ts.len()
        invariant
            p <= ts@.len(),
            parse(ts@) == parse_from(ts@, p as int, out@),
        decreases ts@.len() - p,
    {
        match parse_record_exec(ts, p) {
            Ok(e) => {
                out.push(e);
                p = p + 8;
            },
            Err(err) => {
                return Err(err);
            },
        }
    }
    Ok(out)
}

} // verus!
