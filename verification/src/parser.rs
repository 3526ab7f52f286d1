//! The parser: tokens to statements.
//!
//! Each statement is recognised by its leading token and ends with a
//! terminator. A statement without a nested block must match its token run
//! exactly. `If` and `Loop` hold blocks of statements; a block runs up to
//! the terminator that closes it, and where the tokens end before that
//! terminator the `If` or `Loop` is no statement. Where no statement begins
//! at a token, the token is passed over and parsing goes on behind it. The
//! terminator that follows tokens passed over is taken to end the
//! malformed statement that they were, and is passed over with them: it
//! closes no block.

use crate::lexer::{tokens_view, SpecToken, Token};
use vstd::prelude::*;

verus! {

/// The value given to a variable by a declaration.
#[derive(Debug, PartialEq, Eq)]
pub enum Expr {
    Number(i32),
    Ident(String),
}

/// One executable unit of a program.
#[derive(Debug, PartialEq, Eq)]
pub enum Statement {
    Declare(String, Expr),
    Add(String, String, String),
    Sub(String, String, String),
    Mul(String, String, String),
    Div(String, String, String),
    Print(String),
    Input(String),
    If { cond: String, then_branch: Vec<Statement>, else_branch: Vec<Statement> },
    Loop { count_var: String, body: Vec<Statement> },
    Sleep(u64),
    Clear(String),
}

/// The mathematical model of an [`Expr`].
pub enum SpecExpr {
    Number(i32),
    Ident(Seq<char>),
}

/// The mathematical model of a [`Statement`]: names are sequences of
/// characters and blocks are sequences of statements.
pub enum SpecStatement {
    Declare(Seq<char>, SpecExpr),
    Add(Seq<char>, Seq<char>, Seq<char>),
    Sub(Seq<char>, Seq<char>, Seq<char>),
    Mul(Seq<char>, Seq<char>, Seq<char>),
    Div(Seq<char>, Seq<char>, Seq<char>),
    Print(Seq<char>),
    Input(Seq<char>),
    If { cond: Seq<char>, then_branch: Seq<SpecStatement>, else_branch: Seq<SpecStatement> },
    Loop { count_var: Seq<char>, body: Seq<SpecStatement> },
    Sleep(u64),
    Clear(Seq<char>),
}

impl View for Expr {
    type V = SpecExpr;

    open spec fn view(&self) -> SpecExpr {
        match self {
            Expr::Number(n) => SpecExpr::Number(*n),
            Expr::Ident(name) => SpecExpr::Ident(name@),
        }
    }
}

/// The model of one statement.
pub open spec fn statement_view(s: Statement) -> SpecStatement
    decreases s, 0int,
{
    match s {
        Statement::Declare(name, value) => SpecStatement::Declare(name@, value@),
        Statement::Add(a, b, c) => SpecStatement::Add(a@, b@, c@),
        Statement::Sub(a, b, c) => SpecStatement::Sub(a@, b@, c@),
        Statement::Mul(a, b, c) => SpecStatement::Mul(a@, b@, c@),
        Statement::Div(a, b, c) => SpecStatement::Div(a@, b@, c@),
        Statement::Print(name) => SpecStatement::Print(name@),
        Statement::Input(name) => SpecStatement::Input(name@),
        Statement::If { cond, then_branch, else_branch } => SpecStatement::If {
            cond: cond@,
            then_branch: block_view(then_branch@),
            else_branch: block_view(else_branch@),
        },
        Statement::Loop { count_var, body } => SpecStatement::Loop {
            count_var: count_var@,
            body: block_view(body@),
        },
        Statement::Sleep(ms) => SpecStatement::Sleep(ms),
        Statement::Clear(name) => SpecStatement::Clear(name@),
    }
}

/// The models of a sequence of statements, one for one.
pub open spec fn block_view(stmts: Seq<Statement>) -> Seq<SpecStatement>
    decreases stmts, 1int,
{
    if stmts.len() == 0 {
        Seq::empty()
    } else {
        block_view(stmts.drop_last()).push(statement_view(stmts.last()))
    }
}

impl View for Statement {
    type V = SpecStatement;

    open spec fn view(&self) -> SpecStatement {
        statement_view(*self)
    }
}

/// The view of a sequence of statements holds the views of its statements,
/// one for one.
pub proof fn lemma_block_view(stmts: Seq<Statement>)
    ensures
        block_view(stmts).len() == stmts.len(),
        forall|i: int| 0 <= i < stmts.len() ==> block_view(stmts)[i] == (#[trigger] stmts[i])@,
    decreases stmts.len(),
{
    if stmts.len() > 0 {
        lemma_block_view(stmts.drop_last());
        assert forall|i: int| 0 <= i < stmts.len() implies block_view(stmts)[i] == (
        #[trigger] stmts[i])@ by {
            if i < stmts.len() - 1 {
                assert(stmts.drop_last()[i] == stmts[i]);
            }
        }
    }
}

/// Where a block is looked for, which decides what closes it.
#[derive(Debug, Clone, Copy, PartialEq, Eq)]
pub enum Scope {
    /// The whole program: only the end of the tokens closes it.
    Program,
    /// The first block of an `If`: a terminator or `Else` closes it.
    Then,
    /// The block behind `Else` and the body of a `Loop`: a terminator
    /// closes it.
    Body,
}

/// The token at position `i`, if there is one.
pub open spec fn at(tokens: Seq<SpecToken>, i: int) -> Option<SpecToken> {
    if 0 <= i < tokens.len() {
        Some(tokens[i])
    } else {
        None
    }
}

/// The number of milliseconds that a `Sleep` of `n` stands for: `n` itself,
/// and for a negative `n` the unsigned number with the same 64-bit pattern.
pub open spec fn sleep_millis(n: i32) -> u64 {
    if n >= 0 {
        n as u64
    } else {
        (n + 0x1_0000_0000_0000_0000) as u64
    }
}

/// The arithmetic statement that the operator token `op` selects.
pub open spec fn arithmetic(op: SpecToken, a: Seq<char>, b: Seq<char>, c: Seq<char>) -> Option<
    SpecStatement,
> {
    match op {
        SpecToken::Add => Some(SpecStatement::Add(a, b, c)),
        SpecToken::Sub => Some(SpecStatement::Sub(a, b, c)),
        SpecToken::Mul => Some(SpecStatement::Mul(a, b, c)),
        SpecToken::Div => Some(SpecStatement::Div(a, b, c)),
        _ => None,
    }
}

/// Whether a block looked for in `scope` is closed at position `i`.
/// `skipped` says that the token before was passed over: the terminator
/// behind such a token ends a malformed statement, not the block.
pub open spec fn closes(tokens: Seq<SpecToken>, i: int, scope: Scope, skipped: bool) -> bool {
    match (scope, at(tokens, i)) {
        (_, None) => true,
        (Scope::Program, _) => false,
        (_, Some(SpecToken::EndStmt)) => !skipped,
        (Scope::Then, Some(SpecToken::Else)) => true,
        _ => false,
    }
}

/// The statement that begins at position `i` and the position behind it,
/// or `None` where no statement begins there. Every statement ends with a
/// terminator; an `If` or `Loop` whose last block runs to the end of the
/// tokens is none.
pub open spec fn statement_at(tokens: Seq<SpecToken>, i: int) -> Option<(SpecStatement, int)>
    decreases tokens.len() - i, 0int,
{
    match at(tokens, i) {
        Some(SpecToken::Declare) => match (
            at(tokens, i + 1),
            at(tokens, i + 2),
            at(tokens, i + 3),
            at(tokens, i + 4),
        ) {
            (
                Some(SpecToken::Ident(name)),
                Some(SpecToken::Assign),
                Some(SpecToken::Number(value)),
                Some(SpecToken::EndStmt),
            ) => Some((SpecStatement::Declare(name, SpecExpr::Number(value)), i + 5)),
            _ => None,
        },
        Some(SpecToken::Ident(a)) => match (
            at(tokens, i + 1),
            at(tokens, i + 2),
            at(tokens, i + 3),
            at(tokens, i + 4),
            at(tokens, i + 5),
        ) {
            (
                Some(op),
                Some(SpecToken::Ident(b)),
                Some(SpecToken::Into),
                Some(SpecToken::Ident(c)),
                Some(SpecToken::EndStmt),
            ) => match arithmetic(op, a, b, c) {
                Some(s) => Some((s, i + 6)),
                None => None,
            },
            _ => None,
        },
        Some(SpecToken::Print) => match (at(tokens, i + 1), at(tokens, i + 2)) {
            (Some(SpecToken::Ident(name)), Some(SpecToken::EndStmt)) => Some(
                (SpecStatement::Print(name), i + 3),
            ),
            _ => None,
        },
        Some(SpecToken::Input) => match (at(tokens, i + 1), at(tokens, i + 2)) {
            (Some(SpecToken::Ident(name)), Some(SpecToken::EndStmt)) => Some(
                (SpecStatement::Input(name), i + 3),
            ),
            _ => None,
        },
        Some(SpecToken::Sleep) => match (at(tokens, i + 1), at(tokens, i + 2)) {
            (Some(SpecToken::Number(n)), Some(SpecToken::EndStmt)) => Some(
                (SpecStatement::Sleep(sleep_millis(n)), i + 3),
            ),
            _ => None,
        },
        Some(SpecToken::Clear) => match (at(tokens, i + 1), at(tokens, i + 2)) {
            (Some(SpecToken::Ident(name)), Some(SpecToken::EndStmt)) => Some(
                (SpecStatement::Clear(name), i + 3),
            ),
            _ => None,
        },
        Some(SpecToken::If) => match at(tokens, i + 1) {
            Some(SpecToken::Ident(cond)) => {
                let (then_branch, p) = block_at(tokens, i + 2, Scope::Then, false);
                let (else_branch, q) = if i < p && at(tokens, p) == Some(SpecToken::Else) {
                    block_at(tokens, p + 1, Scope::Body, false)
                } else {
                    (Seq::empty(), p)
                };
                if at(tokens, q) == Some(SpecToken::EndStmt) {
                    Some((SpecStatement::If { cond, then_branch, else_branch }, q + 1))
                } else {
                    None
                }
            },
            _ => None,
        },
        Some(SpecToken::Loop) => match at(tokens, i + 1) {
            Some(SpecToken::Ident(count_var)) => {
                let (body, q) = block_at(tokens, i + 2, Scope::Body, false);
                if at(tokens, q) == Some(SpecToken::EndStmt) {
                    Some((SpecStatement::Loop { count_var, body }, q + 1))
                } else {
                    None
                }
            },
            _ => None,
        },
        _ => None,
    }
}

/// The statements of the block that begins at position `i`, and the
/// position at which it is closed. Tokens at which no statement begins are
/// passed over, and `skipped` says that the token before position `i` was
/// one of them. (The bounds asked of `next` always hold, as
/// [`lemma_statement_bounds`] shows; they are written out to make it plain
/// that the definition is well founded.)
pub open spec fn block_at(tokens: Seq<SpecToken>, i: int, scope: Scope, skipped: bool) -> (
    Seq<SpecStatement>,
    int,
)
    decreases tokens.len() - i, 1int,
{
    if closes(tokens, i, scope, skipped) {
        (Seq::empty(), i)
    } else if at(tokens, i) == Some(SpecToken::EndStmt) {
        block_at(tokens, i + 1, scope, false)
    } else {
        match statement_at(tokens, i) {
            Some((s, next)) if i < next <= tokens.len() => {
                let (rest, end) = block_at(tokens, next, scope, false);
                (seq![s] + rest, end)
            },
            _ => block_at(tokens, i + 1, scope, true),
        }
    }
}

/// The statements of a whole program.
pub open spec fn parse_tokens(tokens: Seq<SpecToken>) -> Seq<SpecStatement> {
    block_at(tokens, 0, Scope::Program, false).0
}

/// `first` put before the statements of a block.
pub open spec fn extend(first: Seq<SpecStatement>, block: (Seq<SpecStatement>, int)) -> (
    Seq<SpecStatement>,
    int,
) {
    (first + block.0, block.1)
}

/// A statement holds at least one token and ends within the tokens.
pub proof fn lemma_statement_bounds(tokens: Seq<SpecToken>, i: int)
    requires
        0 <= i <= tokens.len(),
    ensures
        statement_at(tokens, i) matches Some((_, next)) ==> i < next <= tokens.len(),
    decreases tokens.len() - i, 0int,
{
    if i + 1 < tokens.len() && (tokens[i] is If || tokens[i] is Loop) {
        lemma_block_bounds(tokens, i + 2, Scope::Then, false);
        lemma_block_bounds(tokens, i + 2, Scope::Body, false);
        let p = block_at(tokens, i + 2, Scope::Then, false).1;
        if p < tokens.len() {
            lemma_block_bounds(tokens, p + 1, Scope::Body, false);
        }
    }
}

/// A block ends at or behind the position it begins at, within the
/// tokens: at their end, at a terminator, or at the `Else` behind the
/// first block of an `If`.
pub proof fn lemma_block_bounds(tokens: Seq<SpecToken>, i: int, scope: Scope, skipped: bool)
    requires
        0 <= i <= tokens.len(),
    ensures
        i <= block_at(tokens, i, scope, skipped).1 <= tokens.len(),
        closes(tokens, block_at(tokens, i, scope, skipped).1, scope, false),
    decreases tokens.len() - i, 1int,
{
    if closes(tokens, i, scope, skipped) {
    } else if at(tokens, i) == Some(SpecToken::EndStmt) {
        lemma_block_bounds(tokens, i + 1, scope, false);
    } else {
        lemma_statement_bounds(tokens, i);
        match statement_at(tokens, i) {
            Some((_, next)) => {
                lemma_block_bounds(tokens, next, scope, false);
            },
            None => {
                lemma_block_bounds(tokens, i + 1, scope, true);
            },
        }
    }
}

/// The token `k` places behind position `i`, if there is one.
fn peek(tokens: &[Token], i: usize, k: usize) -> (r: Option<&Token>)
    requires
        i <= tokens.len(),
    ensures
        match r {
            Some(t) => at(tokens_view(tokens@), i + k) == Some(t@),
            None => at(tokens_view(tokens@), i + k) is None,
        },
{
    if k < tokens.len() - i {
        Some(&tokens[i + k])
    } else {
        None
    }
}

/// The number of milliseconds that a `Sleep` of `n` stands for.
fn millis(n: i32) -> (ms: u64)
    ensures
        ms == sleep_millis(n),
{
    if n >= 0 {
        n as u64
    } else {
        u64::MAX - ((-(n + 1)) as u64)
    }
}

/// Whether a block looked for in `scope` is closed at position `i`.
fn is_closed(tokens: &[Token], i: usize, scope: Scope, skipped: bool) -> (r: bool)
    requires
        i <= tokens.len(),
    ensures
        r == closes(tokens_view(tokens@), i as int, scope, skipped),
{
    match (scope, peek(tokens, i, 0)) {
        (_, None) => true,
        (Scope::Program, _) => false,
        (_, Some(Token::EndStmt)) => !skipped,
        (Scope::Then, Some(Token::Else)) => true,
        _ => false,
    }
}

/// Whether a terminator stands at position `i`.
fn is_terminator(tokens: &[Token], i: usize) -> (r: bool)
    requires
        i <= tokens.len(),
    ensures
        r == (at(tokens_view(tokens@), i as int) == Some(SpecToken::EndStmt)),
{
    match peek(tokens, i, 0) {
        Some(Token::EndStmt) => true,
        _ => false,
    }
}

/// What is known of the tokens while they are parsed: `failed` has a mark
/// for each token, and no statement begins at a token that is marked.
spec fn marks_failures(tokens: Seq<SpecToken>, failed: Seq<bool>) -> bool {
    &&& failed.len() == tokens.len()
    &&& forall|j: int| 0 <= j < failed.len() && #[trigger] failed[j] ==> statement_at(tokens, j) is None
}

/// Reads the statement that begins at position `i`, if one does. An `If`
/// or `Loop` that turns out to be no statement is marked in `failed`, so
/// that its blocks are not read again when the parser comes by once more.
fn parse_statement(tokens: &[Token], i: usize, failed: &mut Vec<bool>) -> (r: Option<
    (Statement, usize),
>)
    requires
        i < tokens.len(),
        marks_failures(tokens_view(tokens@), old(failed)@),
    ensures
        marks_failures(tokens_view(tokens@), final(failed)@),
        match r {
            Some((s, next)) => statement_at(tokens_view(tokens@), i as int) == Some(
                (s@, next as int),
            ) && i < next <= tokens.len(),
            None => statement_at(tokens_view(tokens@), i as int) is None,
        },
    decreases tokens.len() - i, 0int,
{
    match &tokens[i] {
        Token::Declare => match (
            peek(tokens, i, 1),
            peek(tokens, i, 2),
            peek(tokens, i, 3),
            peek(tokens, i, 4),
        ) {
            (
                Some(Token::Ident(name)),
                Some(Token::Assign),
                Some(Token::Number(value)),
                Some(Token::EndStmt),
            ) => Some((Statement::Declare(name.clone(), Expr::Number(*value)), i + 5)),
            _ => None,
        },
        Token::Ident(a) => match (
            peek(tokens, i, 1),
            peek(tokens, i, 2),
            peek(tokens, i, 3),
            peek(tokens, i, 4),
            peek(tokens, i, 5),
        ) {
            (
                Some(op),
                Some(Token::Ident(b)),
                Some(Token::Into),
                Some(Token::Ident(c)),
                Some(Token::EndStmt),
            ) => match op {
                Token::Add => Some((Statement::Add(a.clone(), b.clone(), c.clone()), i + 6)),
                Token::Sub => Some((Statement::Sub(a.clone(), b.clone(), c.clone()), i + 6)),
                Token::Mul => Some((Statement::Mul(a.clone(), b.clone(), c.clone()), i + 6)),
                Token::Div => Some((Statement::Div(a.clone(), b.clone(), c.clone()), i + 6)),
                _ => None,
            },
            _ => None,
        },
        Token::Print => match (peek(tokens, i, 1), peek(tokens, i, 2)) {
            (Some(Token::Ident(name)), Some(Token::EndStmt)) => Some(
                (Statement::Print(name.clone()), i + 3),
            ),
            _ => None,
        },
        Token::Input => match (peek(tokens, i, 1), peek(tokens, i, 2)) {
            (Some(Token::Ident(name)), Some(Token::EndStmt)) => Some(
                (Statement::Input(name.clone()), i + 3),
            ),
            _ => None,
        },
        Token::Sleep => match (peek(tokens, i, 1), peek(tokens, i, 2)) {
            (Some(Token::Number(n)), Some(Token::EndStmt)) => Some(
                (Statement::Sleep(millis(*n)), i + 3),
            ),
            _ => None,
        },
        Token::Clear => match (peek(tokens, i, 1), peek(tokens, i, 2)) {
            (Some(Token::Ident(name)), Some(Token::EndStmt)) => Some(
                (Statement::Clear(name.clone()), i + 3),
            ),
            _ => None,
        },
        Token::If => match peek(tokens, i, 1) {
            Some(Token::Ident(cond)) => {
                if failed[i] {
                    return None;
                }
                let (then_branch, p) = parse_block(tokens, i + 2, Scope::Then, failed);
                let (else_branch, q) = match peek(tokens, p, 0) {
                    Some(Token::Else) => parse_block(tokens, p + 1, Scope::Body, failed),
                    _ => (Vec::new(), p),
                };
                if is_terminator(tokens, q) {
                    Some((Statement::If { cond: cond.clone(), then_branch, else_branch }, q + 1))
                } else {
                    failed.set(i, true);
                    None
                }
            },
            _ => None,
        },
        Token::Loop => match peek(tokens, i, 1) {
            Some(Token::Ident(count_var)) => {
                if failed[i] {
                    return None;
                }
                let (body, q) = parse_block(tokens, i + 2, Scope::Body, failed);
                if is_terminator(tokens, q) {
                    Some((Statement::Loop { count_var: count_var.clone(), body }, q + 1))
                } else {
                    failed.set(i, true);
                    None
                }
            },
            _ => None,
        },
        _ => None,
    }
}

/// Reads the block that begins at position `i`.
fn parse_block(tokens: &[Token], i: usize, scope: Scope, failed: &mut Vec<bool>) -> (r: (
    Vec<Statement>,
    usize,
))
    requires
        i <= tokens.len(),
        marks_failures(tokens_view(tokens@), old(failed)@),
    ensures
        marks_failures(tokens_view(tokens@), final(failed)@),
        block_at(tokens_view(tokens@), i as int, scope, false) == (
            block_view(r.0@),
            r.1 as int,
        ),
        i <= r.1 <= tokens.len(),
    decreases tokens.len() - i, 1int,
{
    let ghost all = tokens_view(tokens@);
    let mut block: Vec<Statement> = Vec::new();
    let mut j: usize = i;
    let mut skipped = false;
    assert(Seq::<SpecStatement>::empty() + block_at(all, i as int, scope, false).0 =~= block_at(
        all,
        i as int,
        scope,
        false,
    ).0);
    while !is_closed(tokens, j, scope, skipped)
        invariant
            i <= j <= tokens.len(),
            all == tokens_view(tokens@),
            marks_failures(all, failed@),
            block_at(all, i as int, scope, false) == extend(
                block_view(block@),
                block_at(all, j as int, scope, skipped),
            ),
        decreases tokens.len() - j,
    {
        if is_terminator(tokens, j) {
            j += 1;
            skipped = false;
        } else {
            match parse_statement(tokens, j, failed) {
                Some((s, next)) => {
                    proof {
                        let rest = block_at(all, next as int, scope, false).0;
                        assert(block@.push(s).drop_last() =~= block@);
                        assert(block_view(block@) + (seq![s@] + rest) =~= block_view(
                            block@.push(s),
                        ) + rest);
                    }
                    block.push(s);
                    j = next;
                    skipped = false;
                },
                None => {
                    j += 1;
                    skipped = true;
                },
            }
        }
    }
    assert(block_view(block@) + Seq::<SpecStatement>::empty() =~= block_view(block@));
    (block, j)
}

/// Parses a whole program. Tokens at which no statement begins are passed
/// over: what is left out of the result is exactly that. The time taken
/// grows with the square of the number of tokens at most.
pub fn parse(tokens: &[Token]) -> (stmts: Vec<Statement>)
    ensures
        block_view(stmts@) == parse_tokens(tokens_view(tokens@)),
{
    let mut failed: Vec<bool> = Vec::new();
    while failed.len() < tokens.len()
        invariant
            failed.len() <= tokens.len(),
            forall|j: int| 0 <= j < failed.len() ==> !failed[j],
        decreases tokens.len() - failed.len(),
    {
        failed.push(false);
    }
    parse_block(tokens, 0, Scope::Program, &mut failed).0
}

} // verus!
