//! What programs mean: the state of a run, and what one step does to it.

use crate::parser::{SpecExpr, SpecStatement};
use crate::text::line_value;
use vstd::prelude::*;

verus! {

/// A recoverable anomaly met while executing a statement. The statement's
/// assignment is skipped and execution goes on.
pub enum SpecDiagnostic {
    /// The named variable was read where it must be defined, and is not.
    UndefinedVariable(Seq<char>),
    /// A division of the first variable by the second, which holds zero or
    /// is not defined.
    DivisionByZero(Seq<char>, Seq<char>),
    /// A line of input that holds no integer.
    InvalidInput,
}

/// What a step asks of the one who runs the program.
pub enum SpecAction {
    Continue,
    Print(i32),
    ReadLine,
    Sleep(u64),
    Report(SpecDiagnostic),
    Done,
}

/// The variables of a program: a value for each defined name.
pub type Env = Map<Seq<char>, i32>;

/// The state of a run: the variables, and the statements still to be
/// executed, in order.
pub struct Machine {
    pub env: Env,
    pub todo: Seq<SpecStatement>,
}

/// The value read from a variable where an undefined one counts as zero.
pub open spec fn value_of(env: Env, name: Seq<char>) -> i32 {
    if env.contains_key(name) {
        env[name]
    } else {
        0
    }
}

/// The 32-bit signed integer that agrees with `x` modulo 2^32.
pub open spec fn wrap(x: int) -> i32 {
    if (x % 0x1_0000_0000) > i32::MAX {
        ((x % 0x1_0000_0000) - 0x1_0000_0000) as i32
    } else {
        (x % 0x1_0000_0000) as i32
    }
}

/// The quotient of `a` by `b`, rounded towards zero.
pub open spec fn quotient(a: int, b: int) -> int
    recommends
        b != 0,
{
    if a >= 0 && b > 0 {
        a / b
    } else if a >= 0 {
        -(a / (-b))
    } else if b > 0 {
        -((-a) / b)
    } else {
        (-a) / (-b)
    }
}

/// How often a loop runs whose counter holds `count`.
pub open spec fn repetitions(count: i32) -> nat {
    if count > 0 {
        count as nat
    } else {
        0
    }
}

/// `body`, `n` times over.
pub open spec fn repeat(body: Seq<SpecStatement>, n: nat) -> Seq<SpecStatement>
    decreases n,
{
    if n == 0 {
        Seq::empty()
    } else {
        body + repeat(body, (n - 1) as nat)
    }
}

/// One step of a run: the first statement still to be executed is
/// executed, and the statements of a block that it enters are put in its
/// place. `input` is the line read for an `Input` statement; such a
/// statement waits, and asks for a line, until it gets one. Any other
/// statement pays no attention to `input`.
pub open spec fn step_spec(m: Machine, input: Option<Seq<char>>) -> (Machine, SpecAction) {
    if m.todo.len() == 0 {
        (m, SpecAction::Done)
    } else {
        let env = m.env;
        let rest = m.todo.drop_first();
        match m.todo.first() {
            SpecStatement::Declare(name, SpecExpr::Number(n)) => (
                Machine { env: env.insert(name, n), todo: rest },
                SpecAction::Continue,
            ),
            SpecStatement::Declare(name, SpecExpr::Ident(source)) => if env.contains_key(source) {
                (Machine { env: env.insert(name, env[source]), todo: rest }, SpecAction::Continue)
            } else {
                (
                    Machine { env, todo: rest },
                    SpecAction::Report(SpecDiagnostic::UndefinedVariable(source)),
                )
            },
            SpecStatement::Add(a, b, c) => (
                Machine { env: env.insert(c, wrap(value_of(env, a) + value_of(env, b))), todo: rest },
                SpecAction::Continue,
            ),
            SpecStatement::Sub(a, b, c) => (
                Machine { env: env.insert(c, wrap(value_of(env, a) - value_of(env, b))), todo: rest },
                SpecAction::Continue,
            ),
            SpecStatement::Mul(a, b, c) => (
                Machine { env: env.insert(c, wrap(value_of(env, a) * value_of(env, b))), todo: rest },
                SpecAction::Continue,
            ),
            SpecStatement::Div(a, b, c) => if value_of(env, b) == 0 {
                (
                    Machine { env, todo: rest },
                    SpecAction::Report(SpecDiagnostic::DivisionByZero(a, b)),
                )
            } else {
                (
                    Machine {
                        env: env.insert(
                            c,
                            wrap(quotient(value_of(env, a) as int, value_of(env, b) as int)),
                        ),
                        todo: rest,
                    },
                    SpecAction::Continue,
                )
            },
            SpecStatement::Print(name) => if env.contains_key(name) {
                (Machine { env, todo: rest }, SpecAction::Print(env[name]))
            } else {
                (
                    Machine { env, todo: rest },
                    SpecAction::Report(SpecDiagnostic::UndefinedVariable(name)),
                )
            },
            SpecStatement::Input(name) => match input {
                None => (m, SpecAction::ReadLine),
                Some(line) => match line_value(line) {
                    Some(n) => (
                        Machine { env: env.insert(name, n), todo: rest },
                        SpecAction::Continue,
                    ),
                    None => (
                        Machine { env, todo: rest },
                        SpecAction::Report(SpecDiagnostic::InvalidInput),
                    ),
                },
            },
            SpecStatement::If { cond, then_branch, else_branch } => (
                Machine {
                    env,
                    todo: if value_of(env, cond) != 0 {
                        then_branch + rest
                    } else {
                        else_branch + rest
                    },
                },
                SpecAction::Continue,
            ),
            SpecStatement::Loop { count_var, body } => (
                Machine { env, todo: repeat(body, repetitions(value_of(env, count_var))) + rest },
                SpecAction::Continue,
            ),
            SpecStatement::Sleep(ms) => (Machine { env, todo: rest }, SpecAction::Sleep(ms)),
            SpecStatement::Clear(name) => (
                Machine { env: env.remove(name), todo: rest },
                SpecAction::Continue,
            ),
        }
    }
}

/// A bound on the number of steps that a statement can take.
pub open spec fn weight(s: SpecStatement) -> nat
    decreases s, 0int,
{
    match s {
        SpecStatement::If { cond, then_branch, else_branch } => 1 + block_weight(then_branch)
            + block_weight(else_branch),
        SpecStatement::Loop { count_var, body } => 1 + 0x8000_0000 * block_weight(body),
        _ => 1,
    }
}

/// A bound on the number of steps that a sequence of statements can take.
pub open spec fn block_weight(stmts: Seq<SpecStatement>) -> nat
    decreases stmts, 1int,
{
    if stmts.len() == 0 {
        0
    } else {
        block_weight(stmts.drop_last()) + weight(stmts.last())
    }
}

/// Steps from `m` on, up to and with the first one that asks something of
/// the caller. `input` goes to the first step only.
pub open spec fn run_spec(m: Machine, input: Option<Seq<char>>) -> (Machine, SpecAction)
    decreases block_weight(m.todo),
{
    let (next, action) = step_spec(m, input);
    if action is Continue {
        proof {
            lemma_step_lightens(m, input);
        }
        run_spec(next, None)
    } else {
        (next, action)
    }
}

/// `m` with `stmts` to be executed before everything else.
pub open spec fn schedule(m: Machine, stmts: Seq<SpecStatement>) -> Machine {
    Machine { env: m.env, todo: stmts + m.todo }
}

/// How a whole run ended: the variables, the lines of input that were not
/// read, and what the run asked of the caller, in order.
pub struct Outcome {
    pub env: Env,
    pub lines: Seq<Seq<char>>,
    pub asked: Seq<SpecAction>,
}

/// The line that answers a request for input: the first of `lines`, and
/// an empty line once they are used up.
pub open spec fn next_line(lines: Seq<Seq<char>>) -> Seq<char> {
    if lines.len() > 0 {
        lines.first()
    } else {
        Seq::empty()
    }
}

/// The lines that are left once a request for input was answered.
pub open spec fn lines_left(lines: Seq<Seq<char>>) -> Seq<Seq<char>> {
    if lines.len() > 0 {
        lines.drop_first()
    } else {
        lines
    }
}

/// A whole run of `stmts`, from the variables `env`, in which every
/// `Input` statement is given the next of `lines`. What the run asks of
/// the caller is every printed value, pause and diagnostic, in the order
/// of the steps.
pub open spec fn whole_run(env: Env, stmts: Seq<SpecStatement>, lines: Seq<Seq<char>>) -> Outcome
    decreases block_weight(stmts),
{
    if stmts.len() == 0 {
        Outcome { env, lines, asked: Seq::empty() }
    } else {
        let m = Machine { env, todo: stmts };
        let reads = stmts.first() is Input;
        let input = if reads {
            Some(next_line(lines))
        } else {
            None
        };
        let (next, action) = step_spec(m, input);
        proof {
            lemma_step_lightens(m, input);
        }
        let rest = whole_run(
            next.env,
            next.todo,
            if reads {
                lines_left(lines)
            } else {
                lines
            },
        );
        Outcome {
            env: rest.env,
            lines: rest.lines,
            asked: if action is Continue {
                rest.asked
            } else {
                seq![action] + rest.asked
            },
        }
    }
}

/// The weight of two sequences joined is the sum of their weights.
pub proof fn lemma_weight_concat(a: Seq<SpecStatement>, b: Seq<SpecStatement>)
    ensures
        block_weight(a + b) == block_weight(a) + block_weight(b),
    decreases b.len(),
{
    if b.len() == 0 {
        assert(a + b =~= a);
    } else {
        lemma_weight_concat(a, b.drop_last());
        assert((a + b).drop_last() =~= a + b.drop_last());
    }
}

/// The weight of a block repeated is that of the block, times the number
/// of repetitions.
pub proof fn lemma_weight_repeat(body: Seq<SpecStatement>, n: nat)
    ensures
        block_weight(repeat(body, n)) == n * block_weight(body),
    decreases n,
{
    if n > 0 {
        let m = (n - 1) as nat;
        let w = block_weight(body);
        lemma_weight_repeat(body, m);
        lemma_weight_concat(body, repeat(body, m));
        assert(w + m * w == n * w) by (nonlinear_arith)
            requires
                m + 1 == n,
        ;
    } else {
        assert(0 * block_weight(body) == 0);
    }
}

/// A step that executes a statement leaves less to do than there was.
pub proof fn lemma_step_lightens(m: Machine, input: Option<Seq<char>>)
    requires
        m.todo.len() > 0,
        !(step_spec(m, input).1 is ReadLine),
    ensures
        block_weight(step_spec(m, input).0.todo) < block_weight(m.todo),
{
    let first = m.todo.first();
    let rest = m.todo.drop_first();
    assert(m.todo =~= seq![first] + rest);
    lemma_weight_concat(seq![first], rest);
    assert(seq![first].drop_last() =~= Seq::<SpecStatement>::empty());
    assert(block_weight(Seq::<SpecStatement>::empty()) == 0);
    assert(block_weight(seq![first]) == weight(first));
    match first {
        SpecStatement::If { cond, then_branch, else_branch } => {
            lemma_weight_concat(then_branch, rest);
            lemma_weight_concat(else_branch, rest);
        },
        SpecStatement::Loop { count_var, body } => {
            let n = repetitions(value_of(m.env, count_var));
            lemma_weight_repeat(body, n);
            lemma_weight_concat(repeat(body, n), rest);
            assert(n * block_weight(body) < 1 + 0x8000_0000 * block_weight(body))
                by (nonlinear_arith)
                requires
                    n < 0x8000_0000,
            ;
        },
        _ => {},
    }
}

/// Repeating an empty block yields nothing.
pub proof fn lemma_repeat_empty(n: nat)
    ensures
        repeat(Seq::empty(), n) == Seq::<SpecStatement>::empty(),
    decreases n,
{
    if n > 0 {
        lemma_repeat_empty((n - 1) as nat);
        assert(Seq::<SpecStatement>::empty() + Seq::<SpecStatement>::empty() =~= Seq::<
            SpecStatement,
        >::empty());
    }
}

/// Bringing a number into 32 bits that is less than 2^32 off leaves it
/// as it is, or moves it by 2^32.
pub proof fn lemma_wrap_small(x: int)
    requires
        -0x1_0000_0000 <= x < 0x1_0000_0000,
    ensures
        wrap(x) == if x > i32::MAX {
            x - 0x1_0000_0000
        } else if x < i32::MIN {
            x + 0x1_0000_0000
        } else {
            x
        },
{
}

/// A run ends with a step that asks something of the caller, and it says
/// that it is done only where nothing is left to execute.
pub proof fn lemma_run_asks(m: Machine, input: Option<Seq<char>>)
    ensures
        !(run_spec(m, input).1 is Continue),
        run_spec(m, input).1 is Done ==> run_spec(m, input).0.todo.len() == 0,
    decreases block_weight(m.todo),
{
    let (next, action) = step_spec(m, input);
    if action is Continue {
        lemma_step_lightens(m, input);
        lemma_run_asks(next, None);
    }
}

/// A value that was declared is the value that is printed: a declaration
/// of a number and then a `Print` of the same name ask for that number to
/// be printed, whatever the variables held before and whatever follows.
pub proof fn lemma_declared_value_is_printed(
    m: Machine,
    name: Seq<char>,
    n: i32,
    rest: Seq<SpecStatement>,
    input: Option<Seq<char>>,
)
    requires
        m.todo == seq![
            SpecStatement::Declare(name, SpecExpr::Number(n)),
            SpecStatement::Print(name),
        ] + rest,
    ensures
        run_spec(m, input) == (
            Machine { env: m.env.insert(name, n), todo: rest },
            SpecAction::Print(n),
        ),
{
    let declared = Machine { env: m.env.insert(name, n), todo: seq![SpecStatement::Print(name)] + rest };
    assert(m.todo.drop_first() =~= declared.todo);
    assert(declared.todo.drop_first() =~= rest);
    assert(step_spec(m, input) == (declared, SpecAction::Continue));
    assert(run_spec(declared, None) == step_spec(declared, None));
}

/// The number of times a loop runs is fixed when it is entered: entering
/// it puts its body before the statements that follow, as often as the
/// counter says at that moment, and what the body does to the counter
/// afterwards changes nothing of that.
pub proof fn lemma_loop_is_unrolled_on_entry(
    m: Machine,
    count_var: Seq<char>,
    body: Seq<SpecStatement>,
    rest: Seq<SpecStatement>,
    input: Option<Seq<char>>,
)
    requires
        m.todo == seq![SpecStatement::Loop { count_var, body }] + rest,
    ensures
        step_spec(m, input) == (
            Machine {
                env: m.env,
                todo: repeat(body, repetitions(value_of(m.env, count_var))) + rest,
            },
            SpecAction::Continue,
        ),
{
    assert(m.todo.drop_first() =~= rest);
}

/// A division by a variable that holds zero, or is not defined, changes
/// no variable and is reported; the statements that follow are still to be
/// executed.
pub proof fn lemma_division_by_zero_is_reported(
    m: Machine,
    a: Seq<char>,
    b: Seq<char>,
    c: Seq<char>,
    rest: Seq<SpecStatement>,
    input: Option<Seq<char>>,
)
    requires
        m.todo == seq![SpecStatement::Div(a, b, c)] + rest,
        value_of(m.env, b) == 0,
    ensures
        step_spec(m, input) == (
            Machine { env: m.env, todo: rest },
            SpecAction::Report(SpecDiagnostic::DivisionByZero(a, b)),
        ),
{
    assert(m.todo.drop_first() =~= rest);
}

/// After `Clear` a variable is as if it had never been declared: it is not
/// defined, it reads as zero, and a `Print` of it is reported.
pub proof fn lemma_cleared_variable_is_undefined(
    m: Machine,
    name: Seq<char>,
    rest: Seq<SpecStatement>,
    input: Option<Seq<char>>,
)
    requires
        m.todo == seq![SpecStatement::Clear(name)] + rest,
    ensures
        step_spec(m, input) == (
            Machine { env: m.env.remove(name), todo: rest },
            SpecAction::Continue,
        ),
        !m.env.remove(name).contains_key(name),
        value_of(m.env.remove(name), name) == 0,
        forall|other: Seq<char>|
            other != name ==> value_of(m.env.remove(name), other) == value_of(m.env, other),
{
    assert(m.todo.drop_first() =~= rest);
}

/// Declaring a variable and clearing it leaves the variables as clearing
/// alone does, and where the variable was not defined before, exactly as
/// they were.
pub proof fn lemma_clear_undoes_declare(
    m: Machine,
    name: Seq<char>,
    n: i32,
    rest: Seq<SpecStatement>,
)
    requires
        m.todo == seq![
            SpecStatement::Declare(name, SpecExpr::Number(n)),
            SpecStatement::Clear(name),
        ] + rest,
    ensures
        step_spec(step_spec(m, None).0, None) == (
            Machine { env: m.env.remove(name), todo: rest },
            SpecAction::Continue,
        ),
        !m.env.contains_key(name) ==> m.env.remove(name) == m.env,
{
    let declared = Machine {
        env: m.env.insert(name, n),
        todo: seq![SpecStatement::Clear(name)] + rest,
    };
    assert(m.todo.drop_first() =~= declared.todo);
    assert(declared.todo.drop_first() =~= rest);
    assert(m.env.insert(name, n).remove(name) =~= m.env.remove(name));
    if !m.env.contains_key(name) {
        assert(m.env.remove(name) =~= m.env);
    }
}

/// Clearing a variable twice is the same as clearing it once.
pub proof fn lemma_clear_is_idempotent(env: Env, name: Seq<char>)
    ensures
        env.remove(name).remove(name) == env.remove(name),
{
    assert(env.remove(name).remove(name) =~= env.remove(name));
}

/// Statements are executed in the order in which they stand: a step
/// executes the first one and leaves the others as they are, behind
/// whatever the first one put in its place.
pub proof fn lemma_step_keeps_the_rest(
    m: Machine,
    rest: Seq<SpecStatement>,
    input: Option<Seq<char>>,
)
    requires
        m.todo.len() > 0,
    ensures
        step_spec(Machine { env: m.env, todo: m.todo + rest }, input).1 == step_spec(m, input).1,
        step_spec(Machine { env: m.env, todo: m.todo + rest }, input).0.env == step_spec(
            m,
            input,
        ).0.env,
        step_spec(Machine { env: m.env, todo: m.todo + rest }, input).0.todo == step_spec(
            m,
            input,
        ).0.todo + rest,
{
    let longer = Machine { env: m.env, todo: m.todo + rest };
    assert(longer.todo.first() == m.todo.first());
    assert(longer.todo.drop_first() =~= m.todo.drop_first() + rest);
    let tail = m.todo.drop_first();
    match m.todo.first() {
        SpecStatement::If { cond, then_branch, else_branch } => {
            assert(then_branch + (tail + rest) =~= (then_branch + tail) + rest);
            assert(else_branch + (tail + rest) =~= (else_branch + tail) + rest);
        },
        SpecStatement::Loop { count_var, body } => {
            let unrolled = repeat(body, repetitions(value_of(m.env, count_var)));
            assert(unrolled + (tail + rest) =~= (unrolled + tail) + rest);
        },
        SpecStatement::Input(name) => {
            if input is None {
                assert(longer.todo =~= m.todo + rest);
            }
        },
        _ => {},
    }
}

/// A step that asks something of the caller changes no variable: the
/// variables change only in steps within the interpreter.
pub proof fn lemma_asking_changes_no_variable(m: Machine, input: Option<Seq<char>>)
    ensures
        !(step_spec(m, input).1 is Continue) ==> step_spec(m, input).0.env == m.env,
{
}

/// Statements run one after the other: a run of two sequences joined is
/// a run of the first and then, from where that ended, a run of the
/// second.
pub proof fn lemma_run_in_sequence(
    env: Env,
    first: Seq<SpecStatement>,
    second: Seq<SpecStatement>,
    lines: Seq<Seq<char>>,
)
    ensures
        whole_run(env, first + second, lines) == ({
            let a = whole_run(env, first, lines);
            let b = whole_run(a.env, second, a.lines);
            Outcome { env: b.env, lines: b.lines, asked: a.asked + b.asked }
        }),
    decreases block_weight(first),
{
    let a = whole_run(env, first, lines);
    let b = whole_run(a.env, second, a.lines);
    if first.len() == 0 {
        assert(first + second =~= second);
        assert(a.asked + b.asked =~= b.asked);
    } else {
        let m = Machine { env, todo: first };
        let reads = first.first() is Input;
        let input = if reads {
            Some(next_line(lines))
        } else {
            None
        };
        let left = if reads {
            lines_left(lines)
        } else {
            lines
        };
        let (next, action) = step_spec(m, input);
        assert((first + second).first() == first.first());
        lemma_step_keeps_the_rest(m, second, input);
        lemma_step_lightens(m, input);
        lemma_run_in_sequence(next.env, next.todo, second, left);
        let inner = whole_run(next.env, next.todo, left);
        assert(a.asked == if action is Continue {
            inner.asked
        } else {
            seq![action] + inner.asked
        });
        assert((seq![action] + inner.asked) + b.asked =~= seq![action] + (inner.asked + b.asked));
    }
}

/// A value that was declared is the value that is printed, whatever ran
/// before: where a program ends with the declaration of a number and a
/// `Print` of the same name, that number is the last thing it asks to
/// print, after everything that the statements before asked for, and the
/// variable holds it at the end.
pub proof fn lemma_declared_value_is_printed_last(
    env: Env,
    before: Seq<SpecStatement>,
    name: Seq<char>,
    n: i32,
    lines: Seq<Seq<char>>,
)
    ensures
        ({
            let whole = whole_run(
                env,
                before + seq![
                    SpecStatement::Declare(name, SpecExpr::Number(n)),
                    SpecStatement::Print(name),
                ],
                lines,
            );
            let start = whole_run(env, before, lines);
            &&& whole.asked == start.asked.push(SpecAction::Print(n))
            &&& whole.env == start.env.insert(name, n)
            &&& whole.env[name] == n
            &&& whole.lines == start.lines
        }),
{
    let declare = SpecStatement::Declare(name, SpecExpr::Number(n));
    let print = SpecStatement::Print(name);
    let tail = seq![declare, print];
    let start = whole_run(env, before, lines);
    lemma_run_in_sequence(env, before, tail, lines);
    let declared = start.env.insert(name, n);
    assert(tail.drop_first() =~= seq![print]);
    assert(seq![print].drop_first() =~= Seq::<SpecStatement>::empty());
    let last = whole_run(declared, Seq::empty(), start.lines);
    assert(last == Outcome { env: declared, lines: start.lines, asked: Seq::empty() });
    let printed = whole_run(declared, seq![print], start.lines);
    assert(step_spec(Machine { env: declared, todo: seq![print] }, None) == (
        Machine { env: declared, todo: Seq::empty() },
        SpecAction::Print(n),
    ));
    assert(printed.asked =~= seq![SpecAction::Print(n)]);
    assert(printed.env == declared);
    assert(printed.lines == start.lines);
    assert(step_spec(Machine { env: start.env, todo: tail }, None) == (
        Machine { env: declared, todo: seq![print] },
        SpecAction::Continue,
    ));
    let end = whole_run(start.env, tail, start.lines);
    assert(end == printed);
    assert(start.asked + seq![SpecAction::Print(n)] =~= start.asked.push(SpecAction::Print(n)));
}

} // verus!
