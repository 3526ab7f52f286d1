//! The grammar read backwards: the tokens that write a statement, and the
//! proof that the parser reads them back.

use crate::lexer::SpecToken;
use crate::parser::{
    at, block_at, closes, lemma_block_bounds, lemma_statement_bounds, parse_tokens, sleep_millis,
    statement_at, Scope, SpecExpr, SpecStatement,
};
use vstd::prelude::*;

verus! {

/// The number that writes a `Sleep` of `ms` milliseconds, where one does.
pub open spec fn sleep_literal(ms: u64) -> i32 {
    if ms <= i32::MAX {
        ms as i32
    } else {
        (ms - 0x1_0000_0000_0000_0000) as i32
    }
}

/// Whether tokens can write the statement: it declares no variable from
/// another, it sleeps for a time that a 32-bit number stands for, and the
/// same holds of the statements in its blocks.
pub open spec fn writable(s: SpecStatement) -> bool
    decreases s,
{
    match s {
        SpecStatement::Declare(_, value) => value is Number,
        SpecStatement::Sleep(ms) => ms <= i32::MAX || ms >= 0x1_0000_0000_0000_0000 + i32::MIN,
        SpecStatement::If { cond, then_branch, else_branch } => {
            &&& forall|i: int| 0 <= i < then_branch.len() ==> writable(#[trigger] then_branch[i])
            &&& forall|i: int| 0 <= i < else_branch.len() ==> writable(#[trigger] else_branch[i])
        },
        SpecStatement::Loop { count_var, body } => forall|i: int|
            0 <= i < body.len() ==> writable(#[trigger] body[i]),
        _ => true,
    }
}

/// Whether tokens can write every statement of the sequence.
pub open spec fn all_writable(stmts: Seq<SpecStatement>) -> bool {
    forall|i: int| 0 <= i < stmts.len() ==> writable(#[trigger] stmts[i])
}

/// The tokens that write a statement.
pub open spec fn tokens_of(s: SpecStatement) -> Seq<SpecToken>
    decreases s, 0int,
{
    match s {
        SpecStatement::Declare(name, SpecExpr::Number(n)) => seq![
            SpecToken::Declare,
            SpecToken::Ident(name),
            SpecToken::Assign,
            SpecToken::Number(n),
            SpecToken::EndStmt,
        ],
        SpecStatement::Declare(_, SpecExpr::Ident(_)) => Seq::empty(),
        SpecStatement::Add(a, b, c) => seq![
            SpecToken::Ident(a),
            SpecToken::Add,
            SpecToken::Ident(b),
            SpecToken::Into,
            SpecToken::Ident(c),
            SpecToken::EndStmt,
        ],
        SpecStatement::Sub(a, b, c) => seq![
            SpecToken::Ident(a),
            SpecToken::Sub,
            SpecToken::Ident(b),
            SpecToken::Into,
            SpecToken::Ident(c),
            SpecToken::EndStmt,
        ],
        SpecStatement::Mul(a, b, c) => seq![
            SpecToken::Ident(a),
            SpecToken::Mul,
            SpecToken::Ident(b),
            SpecToken::Into,
            SpecToken::Ident(c),
            SpecToken::EndStmt,
        ],
        SpecStatement::Div(a, b, c) => seq![
            SpecToken::Ident(a),
            SpecToken::Div,
            SpecToken::Ident(b),
            SpecToken::Into,
            SpecToken::Ident(c),
            SpecToken::EndStmt,
        ],
        SpecStatement::Print(name) => seq![
            SpecToken::Print,
            SpecToken::Ident(name),
            SpecToken::EndStmt,
        ],
        SpecStatement::Input(name) => seq![
            SpecToken::Input,
            SpecToken::Ident(name),
            SpecToken::EndStmt,
        ],
        SpecStatement::If { cond, then_branch, else_branch } => seq![
            SpecToken::If,
            SpecToken::Ident(cond),
        ] + block_tokens(then_branch) + else_tokens(else_branch) + seq![SpecToken::EndStmt],
        SpecStatement::Loop { count_var, body } => seq![
            SpecToken::Loop,
            SpecToken::Ident(count_var),
        ] + block_tokens(body) + seq![SpecToken::EndStmt],
        SpecStatement::Sleep(ms) => seq![
            SpecToken::Sleep,
            SpecToken::Number(sleep_literal(ms)),
            SpecToken::EndStmt,
        ],
        SpecStatement::Clear(name) => seq![
            SpecToken::Clear,
            SpecToken::Ident(name),
            SpecToken::EndStmt,
        ],
    }
}

/// The tokens that write the second block of an `If`: nothing where the
/// block is empty, else `Else` and the block.
pub open spec fn else_tokens(stmts: Seq<SpecStatement>) -> Seq<SpecToken>
    decreases stmts, 2int,
{
    if stmts.len() == 0 {
        Seq::empty()
    } else {
        seq![SpecToken::Else] + block_tokens(stmts)
    }
}

/// The tokens that write a sequence of statements, one after the other.
pub open spec fn block_tokens(stmts: Seq<SpecStatement>) -> Seq<SpecToken>
    decreases stmts, 1int,
{
    if stmts.len() == 0 {
        Seq::empty()
    } else {
        tokens_of(stmts.first()) + block_tokens(stmts.drop_first())
    }
}

/// Whether `part` stands in `tokens` from position `i` on.
pub open spec fn stands_at(tokens: Seq<SpecToken>, i: int, part: Seq<SpecToken>) -> bool {
    &&& 0 <= i
    &&& i + part.len() <= tokens.len()
    &&& forall|k: int| 0 <= k < part.len() ==> tokens[i + k] == #[trigger] part[k]
}

/// Where a sequence stands, so does each of the two parts it is joined
/// from.
pub proof fn lemma_stands_parts(
    tokens: Seq<SpecToken>,
    i: int,
    first: Seq<SpecToken>,
    second: Seq<SpecToken>,
)
    requires
        stands_at(tokens, i, first + second),
    ensures
        stands_at(tokens, i, first),
        stands_at(tokens, i + first.len(), second),
{
    let whole = first + second;
    assert forall|k: int| 0 <= k < first.len() implies tokens[i + k] == #[trigger] first[k] by {
        assert(whole[k] == first[k]);
    }
    assert forall|k: int| 0 <= k < second.len() implies tokens[i + first.len() + k]
        == #[trigger] second[k] by {
        assert(whole[first.len() + k] == second[k]);
    }
}

/// The tokens of a statement that can be written begin with a token that
/// closes no block, and there are three of them at least.
pub proof fn lemma_tokens_of_shape(s: SpecStatement)
    requires
        writable(s),
    ensures
        tokens_of(s).len() >= 3,
        tokens_of(s)[0] != SpecToken::EndStmt,
        tokens_of(s)[0] != SpecToken::Else,
{
}

/// The parser reads a written statement back: where the tokens of `s`
/// stand, `s` is the statement that begins there, and it ends where they
/// end.
pub proof fn lemma_statement_read_back(tokens: Seq<SpecToken>, i: int, s: SpecStatement)
    requires
        writable(s),
        stands_at(tokens, i, tokens_of(s)),
    ensures
        statement_at(tokens, i) == Some((s, i + tokens_of(s).len())),
    decreases s, 0int,
{
    let w = tokens_of(s);
    lemma_tokens_of_shape(s);
    assert(tokens[i + 0] == w[0]);
    assert(tokens[i + 1] == w[1]);
    assert(tokens[i + 2] == w[2]);
    match s {
        SpecStatement::Declare(name, value) => {
            assert(tokens[i + 3] == w[3]);
            assert(tokens[i + 4] == w[4]);
        },
        SpecStatement::Add(a, b, c) => {
            assert(tokens[i + 3] == w[3]);
            assert(tokens[i + 4] == w[4]);
            assert(tokens[i + 5] == w[5]);
        },
        SpecStatement::Sub(a, b, c) => {
            assert(tokens[i + 3] == w[3]);
            assert(tokens[i + 4] == w[4]);
            assert(tokens[i + 5] == w[5]);
        },
        SpecStatement::Mul(a, b, c) => {
            assert(tokens[i + 3] == w[3]);
            assert(tokens[i + 4] == w[4]);
            assert(tokens[i + 5] == w[5]);
        },
        SpecStatement::Div(a, b, c) => {
            assert(tokens[i + 3] == w[3]);
            assert(tokens[i + 4] == w[4]);
            assert(tokens[i + 5] == w[5]);
        },
        SpecStatement::If { cond, then_branch, else_branch } => {
            let head = seq![SpecToken::If, SpecToken::Ident(cond)];
            let t = block_tokens(then_branch);
            let e = else_tokens(else_branch);
            let end = seq![SpecToken::EndStmt];
            assert(w == head + t + e + end);
            lemma_stands_parts(tokens, i, head + t + e, end);
            lemma_stands_parts(tokens, i, head + t, e);
            lemma_stands_parts(tokens, i, head, t);
            let p = i + 2 + t.len();
            let q = p + e.len();
            assert(tokens[q + 0] == end[0]);
            if else_branch.len() == 0 {
                assert(else_branch =~= Seq::<SpecStatement>::empty());
                lemma_block_read_back(tokens, i + 2, then_branch, Scope::Then);
            } else {
                let b = block_tokens(else_branch);
                lemma_stands_parts(tokens, p, seq![SpecToken::Else], b);
                assert(tokens[p + 0] == seq![SpecToken::Else][0]);
                lemma_block_read_back(tokens, i + 2, then_branch, Scope::Then);
                lemma_block_read_back(tokens, p + 1, else_branch, Scope::Body);
            }
        },
        SpecStatement::Loop { count_var, body } => {
            let head = seq![SpecToken::Loop, SpecToken::Ident(count_var)];
            let t = block_tokens(body);
            let end = seq![SpecToken::EndStmt];
            assert(w == head + t + end);
            lemma_stands_parts(tokens, i, head + t, end);
            lemma_stands_parts(tokens, i, head, t);
            let q = i + 2 + t.len();
            assert(tokens[q + 0] == end[0]);
            lemma_block_read_back(tokens, i + 2, body, Scope::Body);
        },
        SpecStatement::Sleep(ms) => {
            assert(sleep_millis(sleep_literal(ms)) == ms);
        },
        _ => {},
    }
}

/// The parser reads a written block back: where the tokens of `stmts`
/// stand and what follows them closes the block, `stmts` is the block
/// that begins there, and it ends where they end.
pub proof fn lemma_block_read_back(
    tokens: Seq<SpecToken>,
    i: int,
    stmts: Seq<SpecStatement>,
    scope: Scope,
)
    requires
        all_writable(stmts),
        stands_at(tokens, i, block_tokens(stmts)),
        closes(tokens, i + block_tokens(stmts).len(), scope, false),
    ensures
        block_at(tokens, i, scope, false) == (stmts, i + block_tokens(stmts).len()),
    decreases stmts, 1int,
{
    if stmts.len() == 0 {
        assert(stmts =~= Seq::<SpecStatement>::empty());
    } else {
        let first = stmts.first();
        let rest = stmts.drop_first();
        let w = tokens_of(first);
        assert(writable(first));
        assert(all_writable(rest)) by {
            assert forall|k: int| 0 <= k < rest.len() implies writable(#[trigger] rest[k]) by {
                assert(rest[k] == stmts[k + 1]);
            }
        }
        lemma_tokens_of_shape(first);
        lemma_stands_parts(tokens, i, w, block_tokens(rest));
        assert(tokens[i + 0] == w[0]);
        lemma_statement_read_back(tokens, i, first);
        lemma_block_read_back(tokens, i + w.len(), rest, scope);
        assert(seq![first] + rest =~= stmts);
    }
}

/// Parsing the tokens that write a statement yields that statement and
/// nothing else.
pub proof fn lemma_parse_written_statement(s: SpecStatement)
    requires
        writable(s),
    ensures
        parse_tokens(tokens_of(s)) == seq![s],
{
    let stmts = seq![s];
    assert(stmts.drop_first() =~= Seq::<SpecStatement>::empty());
    assert(block_tokens(stmts.drop_first()) =~= Seq::<SpecToken>::empty());
    assert(block_tokens(stmts) =~= tokens_of(s));
    lemma_parse_written_program(stmts);
}

/// Parsing the tokens that write a sequence of statements yields that
/// sequence.
pub proof fn lemma_parse_written_program(stmts: Seq<SpecStatement>)
    requires
        all_writable(stmts),
    ensures
        parse_tokens(block_tokens(stmts)) == stmts,
{
    lemma_block_read_back(block_tokens(stmts), 0, stmts, Scope::Program);
}

/// An `If` may be written with `Else` before an empty second block: that
/// reads back as the `If` whose second block is empty, as it does without
/// the `Else`.
pub proof fn lemma_empty_else_read_back(
    tokens: Seq<SpecToken>,
    i: int,
    cond: Seq<char>,
    then_branch: Seq<SpecStatement>,
)
    requires
        all_writable(then_branch),
        stands_at(
            tokens,
            i,
            seq![SpecToken::If, SpecToken::Ident(cond)] + block_tokens(then_branch) + seq![
                SpecToken::Else,
                SpecToken::EndStmt,
            ],
        ),
    ensures
        statement_at(tokens, i) == Some(
            (
                SpecStatement::If { cond, then_branch, else_branch: Seq::empty() },
                i + block_tokens(then_branch).len() + 4,
            ),
        ),
{
    let head = seq![SpecToken::If, SpecToken::Ident(cond)];
    let t = block_tokens(then_branch);
    let end = seq![SpecToken::Else, SpecToken::EndStmt];
    let w = head + t + end;
    lemma_stands_parts(tokens, i, head + t, end);
    lemma_stands_parts(tokens, i, head, t);
    let p = i + 2 + t.len();
    assert(tokens[i + 0] == head[0]);
    assert(tokens[i + 1] == head[1]);
    assert(tokens[p + 0] == end[0]);
    assert(tokens[p + 1] == end[1]);
    lemma_block_read_back(tokens, i + 2, then_branch, Scope::Then);
}

/// Parsing an `If` written with `Else` before an empty second block
/// yields that `If` with an empty second block, and nothing else.
pub proof fn lemma_parse_empty_else(cond: Seq<char>, then_branch: Seq<SpecStatement>)
    requires
        all_writable(then_branch),
    ensures
        parse_tokens(
            seq![SpecToken::If, SpecToken::Ident(cond)] + block_tokens(then_branch) + seq![
                SpecToken::Else,
                SpecToken::EndStmt,
            ],
        ) == seq![SpecStatement::If { cond, then_branch, else_branch: Seq::empty() }],
{
    let s = SpecStatement::If { cond, then_branch, else_branch: Seq::empty() };
    let tokens = seq![SpecToken::If, SpecToken::Ident(cond)] + block_tokens(then_branch) + seq![
        SpecToken::Else,
        SpecToken::EndStmt,
    ];
    let n = block_tokens(then_branch).len() + 4;
    assert(tokens.len() == n);
    assert(tokens[0] == SpecToken::If);
    assert(stands_at(tokens, 0, tokens));
    lemma_empty_else_read_back(tokens, 0, cond, then_branch);
    assert(statement_at(tokens, 0) == Some((s, n as int)));
    assert(block_at(tokens, n as int, Scope::Program, false) == (
        Seq::<SpecStatement>::empty(),
        n as int,
    ));
    assert(seq![s] + Seq::<SpecStatement>::empty() =~= seq![s]);
}

/// Every statement that the parser reads holds three tokens at least, and
/// the last of them is a terminator.
pub proof fn lemma_statement_ends_with_terminator(tokens: Seq<SpecToken>, i: int)
    requires
        0 <= i <= tokens.len(),
    ensures
        statement_at(tokens, i) matches Some((_, next)) ==> i + 3 <= next <= tokens.len()
            && tokens[next - 1] == SpecToken::EndStmt,
{
    if i + 1 < tokens.len() && (tokens[i] is If || tokens[i] is Loop) {
        lemma_block_bounds(tokens, i + 2, Scope::Then, false);
        lemma_block_bounds(tokens, i + 2, Scope::Body, false);
        let p = block_at(tokens, i + 2, Scope::Then, false).1;
        if p < tokens.len() {
            lemma_block_bounds(tokens, p + 1, Scope::Body, false);
        }
    }
}

/// The number of statements in a statement: itself and those in its
/// blocks, at every depth.
pub open spec fn statement_count(s: SpecStatement) -> nat
    decreases s, 0int,
{
    match s {
        SpecStatement::If { cond, then_branch, else_branch } => 1 + block_count(then_branch)
            + block_count(else_branch),
        SpecStatement::Loop { count_var, body } => 1 + block_count(body),
        _ => 1,
    }
}

/// The number of statements in a sequence, at every depth.
pub open spec fn block_count(stmts: Seq<SpecStatement>) -> nat
    decreases stmts, 1int,
{
    if stmts.len() == 0 {
        0
    } else {
        statement_count(stmts.first()) + block_count(stmts.drop_first())
    }
}

/// A statement that the parser reads holds three tokens at least for each
/// statement in it.
pub proof fn lemma_statement_takes_three_tokens(tokens: Seq<SpecToken>, i: int)
    requires
        0 <= i <= tokens.len(),
    ensures
        statement_at(tokens, i) matches Some((s, next)) ==> 3 * statement_count(s) <= next - i,
    decreases tokens.len() - i, 0int,
{
    if i + 1 < tokens.len() && (tokens[i] is If || tokens[i] is Loop) {
        lemma_block_takes_three_tokens(tokens, i + 2, Scope::Then, false);
        lemma_block_takes_three_tokens(tokens, i + 2, Scope::Body, false);
        lemma_block_bounds(tokens, i + 2, Scope::Then, false);
        let p = block_at(tokens, i + 2, Scope::Then, false).1;
        if p < tokens.len() {
            lemma_block_takes_three_tokens(tokens, p + 1, Scope::Body, false);
        }
        assert(block_count(Seq::<SpecStatement>::empty()) == 0);
    }
}

/// A block that the parser reads holds three tokens at least for each
/// statement in it.
pub proof fn lemma_block_takes_three_tokens(
    tokens: Seq<SpecToken>,
    i: int,
    scope: Scope,
    skipped: bool,
)
    requires
        0 <= i <= tokens.len(),
    ensures
        3 * block_count(block_at(tokens, i, scope, skipped).0) <= block_at(
            tokens,
            i,
            scope,
            skipped,
        ).1 - i,
    decreases tokens.len() - i, 1int,
{
    if closes(tokens, i, scope, skipped) {
    } else if at(tokens, i) == Some(SpecToken::EndStmt) {
        lemma_block_takes_three_tokens(tokens, i + 1, scope, false);
    } else {
        lemma_statement_takes_three_tokens(tokens, i);
        lemma_statement_bounds(tokens, i);
        match statement_at(tokens, i) {
            Some((s, next)) => {
                lemma_block_takes_three_tokens(tokens, next, scope, false);
                let rest = block_at(tokens, next, scope, false).0;
                assert((seq![s] + rest).drop_first() =~= rest);
            },
            None => {
                lemma_block_takes_three_tokens(tokens, i + 1, scope, true);
            },
        }
    }
}

/// A program has a third as many statements as it has tokens, at most.
pub proof fn lemma_program_takes_three_tokens(tokens: Seq<SpecToken>)
    ensures
        3 * block_count(parse_tokens(tokens)) <= tokens.len(),
{
    lemma_block_takes_three_tokens(tokens, 0, Scope::Program, false);
    lemma_block_bounds(tokens, 0, Scope::Program, false);
}

/// Whether the statement holds what the token carries: the token is an
/// identifier with one of the statement's names, or the number that one of
/// its declarations or pauses is written with, at any depth.
pub open spec fn holds(s: SpecStatement, t: SpecToken) -> bool
    decreases s, 0int,
{
    match s {
        SpecStatement::Declare(name, SpecExpr::Number(n)) => t == SpecToken::Ident(name) || t
            == SpecToken::Number(n),
        SpecStatement::Declare(name, SpecExpr::Ident(source)) => t == SpecToken::Ident(name) || t
            == SpecToken::Ident(source),
        SpecStatement::Add(a, b, c) => t == SpecToken::Ident(a) || t == SpecToken::Ident(b) || t
            == SpecToken::Ident(c),
        SpecStatement::Sub(a, b, c) => t == SpecToken::Ident(a) || t == SpecToken::Ident(b) || t
            == SpecToken::Ident(c),
        SpecStatement::Mul(a, b, c) => t == SpecToken::Ident(a) || t == SpecToken::Ident(b) || t
            == SpecToken::Ident(c),
        SpecStatement::Div(a, b, c) => t == SpecToken::Ident(a) || t == SpecToken::Ident(b) || t
            == SpecToken::Ident(c),
        SpecStatement::Print(name) => t == SpecToken::Ident(name),
        SpecStatement::Input(name) => t == SpecToken::Ident(name),
        SpecStatement::Clear(name) => t == SpecToken::Ident(name),
        SpecStatement::Sleep(ms) => t == SpecToken::Number(sleep_literal(ms)),
        SpecStatement::If { cond, then_branch, else_branch } => t == SpecToken::Ident(cond)
            || block_holds(then_branch, t) || block_holds(else_branch, t),
        SpecStatement::Loop { count_var, body } => t == SpecToken::Ident(count_var)
            || block_holds(body, t),
    }
}

/// Whether one of the statements holds what the token carries.
pub open spec fn block_holds(stmts: Seq<SpecStatement>, t: SpecToken) -> bool
    decreases stmts, 1int,
{
    stmts.len() > 0 && (holds(stmts.first(), t) || block_holds(stmts.drop_first(), t))
}

/// Whether the token `t` is among the tokens from position `from` up to
/// `to`.
pub open spec fn occurs(tokens: Seq<SpecToken>, from: int, to: int, t: SpecToken) -> bool {
    exists|k: int| from <= k < to && #[trigger] tokens[k] == t
}

/// The parser makes nothing up: every name and every number of a statement
/// that it reads stands in the tokens that the statement was read from.
pub proof fn lemma_statement_comes_from_tokens(tokens: Seq<SpecToken>, i: int, t: SpecToken)
    requires
        0 <= i <= tokens.len(),
    ensures
        statement_at(tokens, i) matches Some((s, next)) ==> (holds(s, t) ==> occurs(
            tokens,
            i,
            next,
            t,
        )),
    decreases tokens.len() - i, 0int,
{
    if let Some((s, next)) = statement_at(tokens, i) {
        lemma_statement_ends_with_terminator(tokens, i);
        if holds(s, t) {
            match s {
                SpecStatement::If { cond, then_branch, else_branch } => {
                    lemma_block_comes_from_tokens(tokens, i + 2, Scope::Then, false, t);
                    lemma_block_bounds(tokens, i + 2, Scope::Then, false);
                    let p = block_at(tokens, i + 2, Scope::Then, false).1;
                    if p < tokens.len() {
                        lemma_block_comes_from_tokens(tokens, p + 1, Scope::Body, false, t);
                        lemma_block_bounds(tokens, p + 1, Scope::Body, false);
                    }
                    if t == SpecToken::Ident(cond) {
                        assert(tokens[i + 1] == t);
                    }
                },
                SpecStatement::Loop { count_var, body } => {
                    lemma_block_comes_from_tokens(tokens, i + 2, Scope::Body, false, t);
                    lemma_block_bounds(tokens, i + 2, Scope::Body, false);
                    if t == SpecToken::Ident(count_var) {
                        assert(tokens[i + 1] == t);
                    }
                },
                SpecStatement::Add(a, b, c) => {
                    assert(tokens[i] == SpecToken::Ident(a));
                    assert(tokens[i + 2] == SpecToken::Ident(b));
                    assert(tokens[i + 4] == SpecToken::Ident(c));
                },
                SpecStatement::Sub(a, b, c) => {
                    assert(tokens[i] == SpecToken::Ident(a));
                    assert(tokens[i + 2] == SpecToken::Ident(b));
                    assert(tokens[i + 4] == SpecToken::Ident(c));
                },
                SpecStatement::Mul(a, b, c) => {
                    assert(tokens[i] == SpecToken::Ident(a));
                    assert(tokens[i + 2] == SpecToken::Ident(b));
                    assert(tokens[i + 4] == SpecToken::Ident(c));
                },
                SpecStatement::Div(a, b, c) => {
                    assert(tokens[i] == SpecToken::Ident(a));
                    assert(tokens[i + 2] == SpecToken::Ident(b));
                    assert(tokens[i + 4] == SpecToken::Ident(c));
                },
                SpecStatement::Declare(name, value) => {
                    assert(tokens[i + 1] == SpecToken::Ident(name));
                    assert(tokens[i + 3] is Number);
                },
                SpecStatement::Sleep(ms) => {
                    assert(tokens[i + 1] is Number);
                    assert(tokens[i + 1] == t);
                },
                _ => {
                    assert(tokens[i + 1] == t);
                },
            }
        }
    }
}

/// Every name and every number of a block that the parser reads stands in
/// the tokens that the block was read from.
pub proof fn lemma_block_comes_from_tokens(
    tokens: Seq<SpecToken>,
    i: int,
    scope: Scope,
    skipped: bool,
    t: SpecToken,
)
    requires
        0 <= i <= tokens.len(),
    ensures
        block_holds(block_at(tokens, i, scope, skipped).0, t) ==> occurs(
            tokens,
            i,
            block_at(tokens, i, scope, skipped).1,
            t,
        ),
    decreases tokens.len() - i, 1int,
{
    if closes(tokens, i, scope, skipped) {
    } else if at(tokens, i) == Some(SpecToken::EndStmt) {
        lemma_block_comes_from_tokens(tokens, i + 1, scope, false, t);
    } else {
        lemma_statement_comes_from_tokens(tokens, i, t);
        lemma_statement_bounds(tokens, i);
        match statement_at(tokens, i) {
            Some((s, next)) => {
                lemma_block_comes_from_tokens(tokens, next, scope, false, t);
                lemma_block_bounds(tokens, next, scope, false);
                let rest = block_at(tokens, next, scope, false).0;
                assert((seq![s] + rest).drop_first() =~= rest);
            },
            None => {
                lemma_block_comes_from_tokens(tokens, i + 1, scope, true, t);
            },
        }
    }
}

/// Every name and every number of a program stands in its tokens.
pub proof fn lemma_program_comes_from_tokens(tokens: Seq<SpecToken>, t: SpecToken)
    ensures
        block_holds(parse_tokens(tokens), t) ==> tokens.contains(t),
{
    lemma_block_comes_from_tokens(tokens, 0, Scope::Program, false, t);
    lemma_block_bounds(tokens, 0, Scope::Program, false);
}

/// The result of reading a statement, with its end moved `p` places on.
pub open spec fn moved(r: Option<(SpecStatement, int)>, p: int) -> Option<(SpecStatement, int)> {
    match r {
        Some((s, next)) => Some((s, next + p)),
        None => None,
    }
}

/// What the parser reads at a position does not depend on the tokens
/// before it: with the first `p` tokens taken away it reads the same
/// statement, `p` places earlier.
pub proof fn lemma_statement_moves(tokens: Seq<SpecToken>, p: int, i: int)
    requires
        0 <= p <= tokens.len(),
        0 <= i,
    ensures
        statement_at(tokens, p + i) == moved(statement_at(tokens.skip(p), i), p),
    decreases tokens.len() - p - i, 0int,
{
    let cut = tokens.skip(p);
    assert forall|k: int| 0 <= k implies at(cut, k) == at(tokens, p + k) by {}
    assert(at(cut, i) == at(tokens, p + i));
    assert(at(cut, i + 1) == at(tokens, p + (i + 1)));
    assert(at(cut, i + 2) == at(tokens, p + (i + 2)));
    assert(at(cut, i + 3) == at(tokens, p + (i + 3)));
    assert(at(cut, i + 4) == at(tokens, p + (i + 4)));
    assert(at(cut, i + 5) == at(tokens, p + (i + 5)));
    if i + 1 < cut.len() && (cut[i] is If || cut[i] is Loop) {
        lemma_block_moves(tokens, p, i + 2, Scope::Then, false);
        lemma_block_moves(tokens, p, i + 2, Scope::Body, false);
        lemma_block_bounds(cut, i + 2, Scope::Then, false);
        lemma_block_bounds(cut, i + 2, Scope::Body, false);
        let end_then = block_at(cut, i + 2, Scope::Then, false).1;
        let end_body = block_at(cut, i + 2, Scope::Body, false).1;
        assert(at(cut, end_then) == at(tokens, p + end_then));
        assert(at(cut, end_body) == at(tokens, p + end_body));
        if end_then < cut.len() {
            lemma_block_moves(tokens, p, end_then + 1, Scope::Body, false);
            lemma_block_bounds(cut, end_then + 1, Scope::Body, false);
            let end_else = block_at(cut, end_then + 1, Scope::Body, false).1;
            assert(at(cut, end_else) == at(tokens, p + end_else));
        }
    }
}

/// The block that the parser reads at a position does not depend on the
/// tokens before it.
pub proof fn lemma_block_moves(
    tokens: Seq<SpecToken>,
    p: int,
    i: int,
    scope: Scope,
    skipped: bool,
)
    requires
        0 <= p <= tokens.len(),
        0 <= i,
    ensures
        block_at(tokens, p + i, scope, skipped) == (
            block_at(tokens.skip(p), i, scope, skipped).0,
            block_at(tokens.skip(p), i, scope, skipped).1 + p,
        ),
    decreases tokens.len() - p - i, 1int,
{
    let cut = tokens.skip(p);
    assert(at(cut, i) == at(tokens, p + i));
    if closes(cut, i, scope, skipped) {
    } else if at(cut, i) == Some(SpecToken::EndStmt) {
        lemma_block_moves(tokens, p, i + 1, scope, false);
    } else {
        lemma_statement_moves(tokens, p, i);
        lemma_statement_bounds(cut, i);
        match statement_at(cut, i) {
            Some((_, next)) => {
                lemma_block_moves(tokens, p, next, scope, false);
            },
            None => {
                lemma_block_moves(tokens, p, i + 1, scope, true);
            },
        }
    }
}

/// Where no statement begins at any of the `n` tokens from position `i`
/// on, the parser of a program passes over all of them.
pub proof fn lemma_run_passed_over(tokens: Seq<SpecToken>, i: int, n: nat, skipped: bool)
    requires
        0 <= i,
        i + n <= tokens.len(),
        forall|k: int| 0 <= k < n ==> (#[trigger] statement_at(tokens, i + k)) is None,
    ensures
        block_at(tokens, i, Scope::Program, skipped) == block_at(
            tokens,
            i + n,
            Scope::Program,
            false,
        ),
    decreases n,
{
    if n > 0 {
        assert(statement_at(tokens, i + 0) is None);
        assert forall|k: int| 0 <= k < n - 1 implies (#[trigger] statement_at(
            tokens,
            i + 1 + k,
        )) is None by {
            assert(statement_at(tokens, i + (k + 1)) is None);
        }
        lemma_run_passed_over(tokens, i + 1, (n - 1) as nat, false);
        lemma_run_passed_over(tokens, i + 1, (n - 1) as nat, true);
    }
}

/// Parsing a written statement and more tokens behind it yields the
/// statement first, and then what the parser reads behind it.
pub proof fn lemma_written_statement_is_read_first(s: SpecStatement, rest: Seq<SpecToken>)
    requires
        writable(s),
    ensures
        parse_tokens(tokens_of(s) + rest) == seq![s] + parse_tokens(rest),
{
    let w = tokens_of(s);
    let all = w + rest;
    lemma_tokens_of_shape(s);
    assert(stands_at(all, 0, w));
    lemma_statement_read_back(all, 0, s);
    assert(all[0] == w[0]);
    assert(all.skip(w.len() as int) =~= rest);
    lemma_block_moves(all, w.len() as int, 0, Scope::Program, false);
}

/// Parsing a run of tokens at none of which a statement begins, and more
/// tokens behind it, yields what the parser reads behind it.
pub proof fn lemma_malformed_run_is_passed_over(malformed: Seq<SpecToken>, rest: Seq<SpecToken>)
    requires
        forall|k: int|
            0 <= k < malformed.len() ==> (#[trigger] statement_at(malformed + rest, k)) is None,
    ensures
        parse_tokens(malformed + rest) == parse_tokens(rest),
{
    let all = malformed + rest;
    let n = malformed.len();
    assert forall|k: int| 0 <= k < n implies (#[trigger] statement_at(all, 0 + k)) is None by {
        assert(statement_at(all, k) is None);
    }
    lemma_run_passed_over(all, 0, n, false);
    assert(all.skip(n as int) =~= rest);
    lemma_block_moves(all, n as int, 0, Scope::Program, false);
}

/// Parsing written statements and more tokens behind them yields the
/// statements first, and then what the parser reads behind them.
pub proof fn lemma_written_statements_are_read_first(
    stmts: Seq<SpecStatement>,
    rest: Seq<SpecToken>,
)
    requires
        all_writable(stmts),
    ensures
        parse_tokens(block_tokens(stmts) + rest) == stmts + parse_tokens(rest),
    decreases stmts.len(),
{
    if stmts.len() == 0 {
        assert(block_tokens(stmts) + rest =~= rest);
        assert(stmts + parse_tokens(rest) =~= parse_tokens(rest));
    } else {
        let first = stmts.first();
        let others = stmts.drop_first();
        assert(writable(first));
        assert(all_writable(others)) by {
            assert forall|k: int| 0 <= k < others.len() implies writable(
                #[trigger] others[k],
            ) by {
                assert(others[k] == stmts[k + 1]);
            }
        }
        assert(block_tokens(stmts) + rest =~= tokens_of(first) + (block_tokens(others) + rest));
        lemma_written_statement_is_read_first(first, block_tokens(others) + rest);
        lemma_written_statements_are_read_first(others, rest);
        assert(seq![first] + (others + parse_tokens(rest)) =~= stmts + parse_tokens(rest));
    }
}

/// A malformed run of tokens between statements does not keep the parser
/// from reading the statements before it and the statements behind it, in
/// their order, and it adds nothing between them. A run is malformed where
/// the parser reads no statement at any of its tokens; so is a run with an
/// `If` or a `Loop` in it that no terminator closes.
pub proof fn lemma_malformed_run_between_statements(
    before: Seq<SpecStatement>,
    malformed: Seq<SpecToken>,
    behind: Seq<SpecStatement>,
    rest: Seq<SpecToken>,
)
    requires
        all_writable(before),
        all_writable(behind),
        forall|k: int|
            0 <= k < malformed.len() ==> (#[trigger] statement_at(
                malformed + block_tokens(behind) + rest,
                k,
            )) is None,
    ensures
        parse_tokens(block_tokens(before) + malformed + block_tokens(behind) + rest) == before
            + behind + parse_tokens(rest),
{
    let a = block_tokens(before);
    let b = block_tokens(behind);
    let tail = b + rest;
    assert(a + malformed + b + rest =~= a + (malformed + tail));
    assert(malformed + b + rest =~= malformed + tail);
    lemma_written_statements_are_read_first(before, malformed + tail);
    lemma_malformed_run_is_passed_over(malformed, tail);
    lemma_written_statements_are_read_first(behind, rest);
    assert(before + (behind + parse_tokens(rest)) =~= before + behind + parse_tokens(rest));
}

/// Every statement that the parser reads can be written.
pub proof fn lemma_read_statement_is_writable(tokens: Seq<SpecToken>, i: int)
    requires
        0 <= i <= tokens.len(),
    ensures
        statement_at(tokens, i) matches Some((s, _)) ==> writable(s),
    decreases tokens.len() - i, 0int,
{
    if i + 1 < tokens.len() && (tokens[i] is If || tokens[i] is Loop) {
        lemma_read_block_is_writable(tokens, i + 2, Scope::Then, false);
        lemma_read_block_is_writable(tokens, i + 2, Scope::Body, false);
        lemma_block_bounds(tokens, i + 2, Scope::Then, false);
        let p = block_at(tokens, i + 2, Scope::Then, false).1;
        if p < tokens.len() {
            lemma_read_block_is_writable(tokens, p + 1, Scope::Body, false);
        }
    }
}

/// Every statement of a block that the parser reads can be written.
pub proof fn lemma_read_block_is_writable(
    tokens: Seq<SpecToken>,
    i: int,
    scope: Scope,
    skipped: bool,
)
    requires
        0 <= i <= tokens.len(),
    ensures
        all_writable(block_at(tokens, i, scope, skipped).0),
    decreases tokens.len() - i, 1int,
{
    if closes(tokens, i, scope, skipped) {
    } else if at(tokens, i) == Some(SpecToken::EndStmt) {
        lemma_read_block_is_writable(tokens, i + 1, scope, false);
    } else {
        lemma_read_statement_is_writable(tokens, i);
        lemma_statement_bounds(tokens, i);
        match statement_at(tokens, i) {
            Some((s, next)) => {
                lemma_read_block_is_writable(tokens, next, scope, false);
                let rest = block_at(tokens, next, scope, false).0;
                let block = seq![s] + rest;
                assert forall|k: int| 0 <= k < block.len() implies writable(
                    #[trigger] block[k],
                ) by {
                    if k > 0 {
                        assert(block[k] == rest[k - 1]);
                    }
                }
            },
            None => {
                lemma_read_block_is_writable(tokens, i + 1, scope, true);
            },
        }
    }
}

/// What the parser makes of any tokens, written and parsed again, is the
/// same: the tokens that it passed over were all that was lost.
pub proof fn lemma_parse_is_stable(tokens: Seq<SpecToken>)
    ensures
        all_writable(parse_tokens(tokens)),
        parse_tokens(block_tokens(parse_tokens(tokens))) == parse_tokens(tokens),
{
    lemma_read_block_is_writable(tokens, 0, Scope::Program, false);
    lemma_parse_written_program(parse_tokens(tokens));
}

} // verus!
