//! The evaluator: statements to effects.
//!
//! The interpreter itself touches nothing outside its own state. It
//! executes statements against its variables until something has to happen
//! outside (a value printed, a line read, a pause, a diagnostic shown),
//! hands that out as an [`Action`], and goes on when it is resumed.

use crate::parser::{block_view, lemma_block_view, Expr, SpecStatement, Statement};
use crate::semantics::{
    block_weight, lemma_repeat_empty, lemma_step_lightens, lemma_wrap_small, lines_left,
    next_line, quotient, repeat, run_spec, schedule, step_spec, value_of, whole_run, wrap,
    Machine, SpecAction, SpecDiagnostic,
};
use crate::text::parse_line;
use vstd::hash_map::StringHashMap;
use vstd::prelude::*;

verus! {

/// A recoverable anomaly met while executing a statement. The statement's
/// assignment is skipped and execution goes on.
#[derive(Debug, PartialEq, Eq)]
pub enum Diagnostic {
    /// The named variable was read where it must be defined, and is not.
    UndefinedVariable(String),
    /// A division of the first variable by the second, which holds zero or
    /// is not defined.
    DivisionByZero(String, String),
    /// A line of input that holds no integer.
    InvalidInput,
}

impl View for Diagnostic {
    type V = SpecDiagnostic;

    open spec fn view(&self) -> SpecDiagnostic {
        match self {
            Diagnostic::UndefinedVariable(name) => SpecDiagnostic::UndefinedVariable(name@),
            Diagnostic::DivisionByZero(a, b) => SpecDiagnostic::DivisionByZero(a@, b@),
            Diagnostic::InvalidInput => SpecDiagnostic::InvalidInput,
        }
    }
}

/// What the interpreter asks of its caller after a step.
#[derive(Debug, PartialEq, Eq)]
pub enum Action {
    /// Nothing; a statement was executed within the interpreter.
    Continue,
    /// Write the value and a line terminator to the output.
    Print(i32),
    /// Read a line of input and resume with it.
    ReadLine,
    /// Pause for this many milliseconds.
    Sleep(u64),
    /// Show the diagnostic, apart from the output.
    Report(Diagnostic),
    /// Nothing; no statement is left.
    Done,
}

impl View for Action {
    type V = SpecAction;

    open spec fn view(&self) -> SpecAction {
        match self {
            Action::Continue => SpecAction::Continue,
            Action::Print(value) => SpecAction::Print(*value),
            Action::ReadLine => SpecAction::ReadLine,
            Action::Sleep(ms) => SpecAction::Sleep(*ms),
            Action::Report(d) => SpecAction::Report(d@),
            Action::Done => SpecAction::Done,
        }
    }
}

/// The line handed to a step, as a sequence of characters.
pub open spec fn input_view(input: Option<&str>) -> Option<Seq<char>> {
    match input {
        Some(line) => Some(line@),
        None => None,
    }
}

/// The models of a sequence of actions, one for one.
pub open spec fn actions_view(actions: Seq<Action>) -> Seq<SpecAction> {
    actions.map_values(|a: Action| a@)
}

/// The lines handed to a whole run, as sequences of characters.
pub open spec fn lines_view(lines: Seq<String>) -> Seq<Seq<char>> {
    lines.map_values(|l: String| l@)
}

/// A block being executed: the statement at `pc` comes next, and once the
/// block is through it is started over, `repeats` times.
struct Frame<'a> {
    stmts: &'a [Statement],
    pc: usize,
    repeats: u32,
}

/// The statements that a frame still has to execute.
spec fn frame_todo(f: Frame) -> Seq<SpecStatement> {
    block_view(f.stmts@).skip(f.pc as int) + repeat(block_view(f.stmts@), f.repeats as nat)
}

/// The statements that a stack of frames still has to execute: those of
/// its last frame first.
spec fn pending(frames: Seq<Frame>) -> Seq<SpecStatement>
    decreases frames.len(),
{
    if frames.len() == 0 {
        Seq::empty()
    } else {
        frame_todo(frames.last()) + pending(frames.drop_last())
    }
}

/// Every frame has a statement to execute next.
spec fn frames_ok(frames: Seq<Frame>) -> bool {
    forall|i: int|
        0 <= i < frames.len() ==> (#[trigger] frames[i]).pc < frames[i].stmts@.len()
            <= usize::MAX
}

/// The frame that follows `f` once its next statement is taken, if any
/// statement is left in it.
spec fn successor<'a>(f: Frame<'a>) -> Option<Frame<'a>> {
    if f.pc + 1 < f.stmts@.len() {
        Some(Frame { stmts: f.stmts, pc: (f.pc + 1) as usize, repeats: f.repeats })
    } else if f.repeats > 0 {
        Some(Frame { stmts: f.stmts, pc: 0, repeats: (f.repeats - 1) as u32 })
    } else {
        None
    }
}

proof fn lemma_pending_push(frames: Seq<Frame>, f: Frame)
    ensures
        pending(frames.push(f)) == frame_todo(f) + pending(frames),
{
    assert(frames.push(f).drop_last() =~= frames);
}

proof fn lemma_frame_head(f: Frame)
    requires
        f.pc < f.stmts@.len() <= usize::MAX,
    ensures
        frame_todo(f).len() > 0,
        frame_todo(f).first() == f.stmts@[f.pc as int]@,
        frame_todo(f).drop_first() == match successor(f) {
            Some(g) => frame_todo(g),
            None => Seq::empty(),
        },
{
    let v = block_view(f.stmts@);
    lemma_block_view(f.stmts@);
    let r = repeat(v, f.repeats as nat);
    assert(frame_todo(f).drop_first() =~= v.skip(f.pc + 1) + r);
    if f.pc + 1 < f.stmts@.len() {
    } else if f.repeats > 0 {
        assert(v.skip(f.pc + 1) + r =~= v.skip(0) + repeat(v, (f.repeats - 1) as nat));
    } else {
        assert(v.skip(f.pc + 1) + r =~= Seq::<SpecStatement>::empty());
    }
}

/// The statement that comes next, if any is left.
fn next_statement<'a>(stack: &Vec<Frame<'a>>) -> (r: Option<&'a Statement>)
    requires
        frames_ok(stack@),
    ensures
        match r {
            Some(s) => pending(stack@).len() > 0 && pending(stack@).first() == s@,
            None => pending(stack@).len() == 0,
        },
{
    let n = stack.len();
    if n == 0 {
        None
    } else {
        let frame = &stack[n - 1];
        proof {
            lemma_frame_head(*frame);
            assert(stack@.drop_last().push(*frame) =~= stack@);
            lemma_pending_push(stack@.drop_last(), *frame);
        }
        let stmts: &'a [Statement] = frame.stmts;
        Some(&stmts[frame.pc])
    }
}

/// Takes the statement that comes next off the stack.
fn drop_statement<'a>(stack: &mut Vec<Frame<'a>>)
    requires
        frames_ok(old(stack)@),
        old(stack)@.len() > 0,
    ensures
        frames_ok(final(stack)@),
        pending(final(stack)@) == pending(old(stack)@).drop_first(),
{
    let frame = stack.pop().unwrap();
    proof {
        assert(frame == old(stack)@[old(stack)@.len() - 1]);
        assert(old(stack)@.drop_last() =~= stack@);
        lemma_frame_head(frame);
        assert((frame_todo(frame) + pending(stack@)).drop_first() =~= frame_todo(
            frame,
        ).drop_first() + pending(stack@));
        if let Some(g) = successor(frame) {
            lemma_pending_push(stack@, g);
        } else {
            assert(Seq::<SpecStatement>::empty() + pending(stack@) =~= pending(stack@));
        }
    }
    if frame.pc + 1 < frame.stmts.len() {
        stack.push(Frame { stmts: frame.stmts, pc: frame.pc + 1, repeats: frame.repeats });
    } else if frame.repeats > 0 {
        stack.push(Frame { stmts: frame.stmts, pc: 0, repeats: frame.repeats - 1 });
    }
}

/// Puts `stmts`, to be executed `times` times over, before everything else.
fn push_block<'a>(stack: &mut Vec<Frame<'a>>, stmts: &'a [Statement], times: u32)
    requires
        frames_ok(old(stack)@),
    ensures
        frames_ok(final(stack)@),
        pending(final(stack)@) == repeat(block_view(stmts@), times as nat) + pending(
            old(stack)@,
        ),
{
    let ghost v = block_view(stmts@);
    proof {
        lemma_block_view(stmts@);
    }
    if times > 0 && stmts.len() > 0 {
        let frame = Frame { stmts, pc: 0, repeats: times - 1 };
        proof {
            lemma_pending_push(stack@, frame);
            assert(v.skip(0) =~= v);
        }
        stack.push(frame);
    } else {
        proof {
            if times > 0 {
                assert(v =~= Seq::<SpecStatement>::empty());
                lemma_repeat_empty(times as nat);
            }
            assert(Seq::<SpecStatement>::empty() + pending(stack@) =~= pending(stack@));
        }
    }
}

/// The quotient of `a` by `b`, rounded towards zero and brought into 32
/// bits.
fn divide(a: i32, b: i32) -> (r: i32)
    requires
        b != 0,
    ensures
        r == wrap(quotient(a as int, b as int)),
{
    proof {
        if a == 0 {
            assert(0int / (b as int) == 0) by (nonlinear_arith)
                requires
                    b != 0,
            ;
            assert(0int / (-(b as int)) == 0) by (nonlinear_arith)
                requires
                    b != 0,
            ;
        }
    }
    match a.checked_div(b) {
        Some(q) => {
            proof {
                lemma_wrap_small(q as int);
            }
            q
        },
        None => {
            proof {
                lemma_wrap_small(quotient(a as int, b as int));
            }
            i32::MIN
        },
    }
}

/// Whether `action` asks nothing of the caller and execution simply goes
/// on.
fn is_continue(action: &Action) -> (r: bool)
    ensures
        r == (action is Continue),
{
    match action {
        Action::Continue => true,
        _ => false,
    }
}

/// An interpreter: the variables of a program and what is left of its
/// execution.
///
/// A caller starts a program with [`Interpreter::run`], does what the
/// action that comes back asks for, and calls [`Interpreter::resume`],
/// until the action is [`Action::Done`].
pub struct Interpreter<'a> {
    env: StringHashMap<i32>,
    stack: Vec<Frame<'a>>,
}

impl<'a> View for Interpreter<'a> {
    type V = Machine;

    closed spec fn view(&self) -> Machine {
        Machine { env: self.env@, todo: pending(self.stack@) }
    }
}

impl<'a> Interpreter<'a> {
    /// Whether the interpreter is in a state that its own functions leave
    /// it in: every block that it is in the middle of has a statement to
    /// execute next.
    pub closed spec fn wf(&self) -> bool {
        frames_ok(self.stack@)
    }

    /// An interpreter with no variable defined and nothing to execute.
    pub fn new() -> (r: Self)
        ensures
            r.wf(),
            r@.env == Map::<Seq<char>, i32>::empty(),
            r@.todo == Seq::<SpecStatement>::empty(),
    {
        Interpreter { env: StringHashMap::new(), stack: Vec::new() }
    }

    /// The value of the variable `name`, if it is defined.
    pub fn get(&self, name: &str) -> (r: Option<i32>)
        ensures
            r == if self@.env.contains_key(name@) {
                Some(self@.env[name@])
            } else {
                None
            },
    {
        match self.env.get(name) {
            Some(value) => Some(*value),
            None => None,
        }
    }

    /// Whether nothing is left to execute.
    pub fn is_done(&self) -> (r: bool)
        requires
            self.wf(),
        ensures
            r == (self@.todo.len() == 0),
    {
        next_statement(&self.stack).is_none()
    }

    /// The value read from `name` where an undefined variable counts as
    /// zero.
    fn read(&self, name: &String) -> (r: i32)
        ensures
            r == value_of(self@.env, name@),
    {
        match self.env.get(name.as_str()) {
            Some(value) => *value,
            None => 0,
        }
    }

    /// Executes the statement that comes next, and says what it asks of
    /// the caller: [`Action::Continue`] where it asks nothing, and
    /// [`Action::Done`] where no statement was left. An `Input` statement
    /// is executed only once `input` holds the line that was read for it;
    /// until then it stays where it is and the step asks for that line.
    pub fn step(&mut self, input: Option<&str>) -> (action: Action)
        requires
            old(self).wf(),
        ensures
            final(self).wf(),
            (final(self)@, action@) == step_spec(old(self)@, input_view(input)),
    {
        let stmt = match next_statement(&self.stack) {
            Some(stmt) => stmt,
            None => {
                return Action::Done;
            },
        };
        if let Statement::Input(_) = stmt {
            if input.is_none() {
                return Action::ReadLine;
            }
        }
        drop_statement(&mut self.stack);
        match stmt {
            Statement::Declare(name, Expr::Number(n)) => {
                self.env.insert(name.clone(), *n);
                Action::Continue
            },
            Statement::Declare(name, Expr::Ident(source)) => match self.get(source.as_str()) {
                Some(value) => {
                    self.env.insert(name.clone(), value);
                    Action::Continue
                },
                None => Action::Report(Diagnostic::UndefinedVariable(source.clone())),
            },
            Statement::Add(a, b, c) => {
                let x = self.read(a);
                let y = self.read(b);
                proof {
                    lemma_wrap_small(x + y);
                }
                self.env.insert(c.clone(), x.wrapping_add(y));
                Action::Continue
            },
            Statement::Sub(a, b, c) => {
                let x = self.read(a);
                let y = self.read(b);
                proof {
                    lemma_wrap_small(x - y);
                }
                self.env.insert(c.clone(), x.wrapping_sub(y));
                Action::Continue
            },
            Statement::Mul(a, b, c) => {
                let x = self.read(a);
                let y = self.read(b);
                self.env.insert(c.clone(), x.wrapping_mul(y));
                Action::Continue
            },
            Statement::Div(a, b, c) => {
                let x = self.read(a);
                let y = self.read(b);
                if y == 0 {
                    Action::Report(Diagnostic::DivisionByZero(a.clone(), b.clone()))
                } else {
                    self.env.insert(c.clone(), divide(x, y));
                    Action::Continue
                }
            },
            Statement::Print(name) => match self.get(name.as_str()) {
                Some(value) => Action::Print(value),
                None => Action::Report(Diagnostic::UndefinedVariable(name.clone())),
            },
            Statement::Input(name) => match input {
                Some(line) => match parse_line(line) {
                    Some(n) => {
                        self.env.insert(name.clone(), n);
                        Action::Continue
                    },
                    None => Action::Report(Diagnostic::InvalidInput),
                },
                None => Action::ReadLine,
            },
            Statement::If { cond, then_branch, else_branch } => {
                proof {
                    assert(repeat(block_view(then_branch@), 1) =~= block_view(then_branch@)) by {
                        reveal_with_fuel(repeat, 2);
                    }
                    assert(repeat(block_view(else_branch@), 1) =~= block_view(else_branch@)) by {
                        reveal_with_fuel(repeat, 2);
                    }
                }
                if self.read(cond) != 0 {
                    push_block(&mut self.stack, then_branch.as_slice(), 1);
                } else {
                    push_block(&mut self.stack, else_branch.as_slice(), 1);
                }
                Action::Continue
            },
            Statement::Loop { count_var, body } => {
                let count = self.read(count_var);
                let times: u32 = if count > 0 {
                    count as u32
                } else {
                    0
                };
                push_block(&mut self.stack, body.as_slice(), times);
                Action::Continue
            },
            Statement::Sleep(ms) => Action::Sleep(*ms),
            Statement::Clear(name) => {
                self.env.remove(name.as_str());
                Action::Continue
            },
        }
    }

    /// Goes on with the execution, up to and with the first step that asks
    /// something of the caller. `input` is the line that was read, after
    /// [`Action::ReadLine`], and `None` otherwise.
    pub fn resume(&mut self, input: Option<&str>) -> (action: Action)
        requires
            old(self).wf(),
        ensures
            final(self).wf(),
            (final(self)@, action@) == run_spec(old(self)@, input_view(input)),
            !(action is Continue),
    {
        let mut action = self.step(input);
        while is_continue(&action)
            invariant
                self.wf(),
                action is Continue ==> run_spec(self@, None) == run_spec(
                    old(self)@,
                    input_view(input),
                ),
                !(action is Continue) ==> (self@, action@) == run_spec(
                    old(self)@,
                    input_view(input),
                ),
            decreases (if action is Continue {
                block_weight(self@.todo) + 1
            } else {
                0
            }),
        {
            proof {
                if step_spec(self@, None).1 is Continue {
                    lemma_step_lightens(self@, None);
                }
            }
            action = self.step(None);
        }
        action
    }

    /// Executes `stmts` before everything that is still to be executed, up
    /// to and with the first step that asks something of the caller.
    pub fn run(&mut self, stmts: &'a [Statement]) -> (action: Action)
        requires
            old(self).wf(),
        ensures
            final(self).wf(),
            (final(self)@, action@) == run_spec(
                schedule(old(self)@, block_view(stmts@)),
                None,
            ),
            !(action is Continue),
    {
        proof {
            assert(repeat(block_view(stmts@), 1) =~= block_view(stmts@)) by {
                reveal_with_fuel(repeat, 2);
            }
        }
        push_block(&mut self.stack, stmts, 1);
        self.resume(None)
    }

    /// Whether the statement that comes next is an `Input`.
    fn reads_next(&self) -> (r: bool)
        requires
            self.wf(),
        ensures
            r == (self@.todo.len() > 0 && self@.todo.first() is Input),
    {
        match next_statement(&self.stack) {
            Some(Statement::Input(_)) => true,
            _ => false,
        }
    }

    /// Executes `stmts`, and then everything that was still to be
    /// executed, to the end, for a caller that holds the input in advance.
    /// Each `Input` statement is given the next of `lines`, and an empty
    /// line once they are used up. Returns what the run asks of the
    /// caller, in order: every value to print, pause and diagnostic.
    pub fn run_to_end(&mut self, stmts: &'a [Statement], lines: &[String]) -> (asked: Vec<Action>)
        requires
            old(self).wf(),
        ensures
            final(self).wf(),
            final(self)@.todo.len() == 0,
            final(self)@.env == whole_run(
                old(self)@.env,
                block_view(stmts@) + old(self)@.todo,
                lines_view(lines@),
            ).env,
            actions_view(asked@) == whole_run(
                old(self)@.env,
                block_view(stmts@) + old(self)@.todo,
                lines_view(lines@),
            ).asked,
    {
        proof {
            assert(repeat(block_view(stmts@), 1) =~= block_view(stmts@)) by {
                reveal_with_fuel(repeat, 2);
            }
            reveal_strlit("");
        }
        push_block(&mut self.stack, stmts, 1);
        let ghost all = lines_view(lines@);
        let ghost total = whole_run(old(self)@.env, block_view(stmts@) + old(self)@.todo, all);
        let mut asked: Vec<Action> = Vec::new();
        let mut used: usize = 0;
        assert(all.skip(0) =~= all);
        assert(actions_view(asked@) + total.asked =~= total.asked);
        while !self.is_done()
            invariant
                self.wf(),
                used <= lines.len(),
                all == lines_view(lines@),
                ""@.len() == 0,
                whole_run(self@.env, self@.todo, all.skip(used as int)).env == total.env,
                actions_view(asked@) + whole_run(
                    self@.env,
                    self@.todo,
                    all.skip(used as int),
                ).asked == total.asked,
            decreases block_weight(self@.todo),
        {
            let ghost before = self@;
            let ghost left = all.skip(used as int);
            let ghost so_far = actions_view(asked@);
            let reads = self.reads_next();
            let action = if reads {
                let line = if used < lines.len() {
                    used += 1;
                    lines[used - 1].as_str()
                } else {
                    ""
                };
                proof {
                    assert(line@ =~= next_line(left));
                    assert(all.skip(used as int) =~= lines_left(left));
                    lemma_step_lightens(before, Some(line@));
                }
                self.step(Some(line))
            } else {
                proof {
                    lemma_step_lightens(before, None);
                }
                self.step(None)
            };
            proof {
                assert(before == Machine { env: before.env, todo: before.todo });
            }
            if !is_continue(&action) {
                proof {
                    let rest = whole_run(self@.env, self@.todo, all.skip(used as int)).asked;
                    assert(actions_view(asked@.push(action)) =~= so_far + seq![action@]);
                    assert(so_far + (seq![action@] + rest) =~= (so_far + seq![action@]) + rest);
                }
                asked.push(action);
            }
        }
        assert(actions_view(asked@) + Seq::<SpecAction>::empty() =~= actions_view(asked@));
        asked
    }
}

} // verus!
