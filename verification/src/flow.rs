//! The control flow of statements, as a step function.
//!
//! The evaluator runs one statement by asking `next_step` what to do, doing it
//! (evaluating an expression, running a body) and handing back what came of it.
//! Every decision about `if`, `while`, `for`, `break`, `continue`, `return` and
//! `try`/`except` is made here; the evaluator only evaluates and reports.
use vstd::prelude::*;
use crate::ast::{op_view, Op, SOp};

verus! {

/// How a statement or a body finished.
#[derive(Clone, Copy, Debug, PartialEq, Eq, Structural)]
pub enum Flow {
    /// It ran to its end.
    Done,
    /// A `return` ran.
    Returned,
    /// A `break` ran.
    Broke,
    /// A `continue` ran.
    Continued,
    /// An error was raised inside a `try` body.
    Raised,
}

/// Where the running of a statement stands.
#[derive(Clone, Copy, Debug, PartialEq, Eq, Structural)]
pub enum Phase {
    /// Nothing has been done yet.
    Start,
    /// A simple statement is being performed.
    Performing,
    /// A condition, or the items to iterate over, are being evaluated.
    Testing,
    /// The main body (of an `if`, a `while` or a `try`) is running.
    InBody,
    /// The `else` body of an `if`, or the `except` body of a `try`, is running.
    InElse,
    /// A `for` body is running for an item; `next` items of `count` have been started.
    Iterating { next: usize, count: usize },
    /// The statement has finished.
    Over,
}

/// What the evaluator reports back.
#[derive(Clone, Copy, Debug, PartialEq, Eq, Structural)]
pub enum Event {
    /// The statement is to be run.
    Begin,
    /// The condition evaluated, with this truth value.
    Truth(bool),
    /// The iterable evaluated, with this many items.
    Items(usize),
    /// What was performed or run finished so.
    Finished(Flow),
}

/// What the evaluator is to do next.
#[derive(Clone, Copy, Debug, PartialEq, Eq, Structural)]
pub enum Step {
    /// Perform the simple statement (assign, print, evaluate, define, or
    /// evaluate the returned value), then report `Finished`.
    Perform,
    /// Evaluate the condition (report `Truth`) or the iterable (report `Items`).
    Evaluate,
    /// Run the main body, then report how it finished.
    RunBody,
    /// Run the `else` or `except` body, then report how it finished.
    RunElse,
    /// Bind the loop variable to the item at this position, run the body, then
    /// report how it finished.
    RunItem(usize),
    /// The statement has finished so.
    Complete(Flow),
}

/// The first step of a statement.
pub open spec fn start_of(op: SOp) -> (Phase, Step) {
    match op {
        SOp::Break => (Phase::Over, Step::Complete(Flow::Broke)),
        SOp::Continue => (Phase::Over, Step::Complete(Flow::Continued)),
        SOp::If(..) | SOp::While(..) | SOp::For(..) => (Phase::Testing, Step::Evaluate),
        SOp::TryExcept(..) => (Phase::InBody, Step::RunBody),
        _ => (Phase::Performing, Step::Perform),
    }
}

/// How a simple statement finishes once performed: a `return` returns, other
/// statements are done, unless performing it raised an error.
pub open spec fn performed(op: SOp, f: Flow) -> Flow {
    if f == Flow::Raised {
        Flow::Raised
    } else if op is Return {
        Flow::Returned
    } else {
        Flow::Done
    }
}

/// What comes after a loop body finished with `f`, when `again` is the step
/// that starts the next round: a `break` ends this loop normally, `continue`
/// and the end of the body go round again, `return` and errors leave the loop.
pub open spec fn after_loop_body(f: Flow, again: (Phase, Step)) -> (Phase, Step) {
    match f {
        Flow::Broke => (Phase::Over, Step::Complete(Flow::Done)),
        Flow::Done | Flow::Continued => again,
        _ => (Phase::Over, Step::Complete(f)),
    }
}

/// The control flow of statement `op`: in `phase`, after `event`, the next phase
/// and what the evaluator is to do. An event that does not fit the phase ends
/// the statement.
pub open spec fn step_of(op: SOp, phase: Phase, event: Event) -> (Phase, Step) {
    match (phase, event) {
        (Phase::Start, Event::Begin) => start_of(op),
        (Phase::Performing, Event::Finished(f)) => (Phase::Over, Step::Complete(performed(op, f))),
        (Phase::Testing, Event::Finished(Flow::Raised)) => (
            Phase::Over,
            Step::Complete(Flow::Raised),
        ),
        (Phase::Testing, Event::Truth(b)) => match op {
            SOp::If(..) => if b {
                (Phase::InBody, Step::RunBody)
            } else {
                (Phase::InElse, Step::RunElse)
            },
            SOp::While(..) => if b {
                (Phase::InBody, Step::RunBody)
            } else {
                (Phase::Over, Step::Complete(Flow::Done))
            },
            _ => (Phase::Over, Step::Complete(Flow::Done)),
        },
        (Phase::Testing, Event::Items(n)) => if op is For && n > 0 {
            (Phase::Iterating { next: 1, count: n }, Step::RunItem(0))
        } else {
            (Phase::Over, Step::Complete(Flow::Done))
        },
        (Phase::InBody, Event::Finished(f)) => match op {
            SOp::While(..) => after_loop_body(f, (Phase::Testing, Step::Evaluate)),
            SOp::TryExcept(..) => if f == Flow::Raised {
                (Phase::InElse, Step::RunElse)
            } else {
                (Phase::Over, Step::Complete(f))
            },
            _ => (Phase::Over, Step::Complete(f)),
        },
        (Phase::InElse, Event::Finished(f)) => (Phase::Over, Step::Complete(f)),
        (Phase::Iterating { next, count }, Event::Finished(f)) => after_loop_body(
            f,
            if next < count {
                (Phase::Iterating { next: (next + 1) as usize, count }, Step::RunItem(next))
            } else {
                (Phase::Over, Step::Complete(Flow::Done))
            },
        ),
        _ => (Phase::Over, Step::Complete(Flow::Done)),
    }
}

/// The next step of statement `op` (see `step_of`).
pub fn next_step(op: &Op, phase: Phase, event: Event) -> (r: (Phase, Step))
    ensures
        r == step_of(op_view(*op), phase, event),
{
    let over = Phase::Over;
    match (phase, event) {
        (Phase::Start, Event::Begin) => match op {
            Op::Break => (over, Step::Complete(Flow::Broke)),
            Op::Continue => (over, Step::Complete(Flow::Continued)),
            Op::If(..) | Op::While(..) | Op::For(..) => (Phase::Testing, Step::Evaluate),
            Op::TryExcept(..) => (Phase::InBody, Step::RunBody),
            _ => (Phase::Performing, Step::Perform),
        },
        (Phase::Performing, Event::Finished(f)) => {
            let g = match f {
                Flow::Raised => Flow::Raised,
                _ => match op {
                    Op::Return(..) => Flow::Returned,
                    _ => Flow::Done,
                },
            };
            (over, Step::Complete(g))
        },
        (Phase::Testing, Event::Finished(Flow::Raised)) => (over, Step::Complete(Flow::Raised)),
        (Phase::Testing, Event::Truth(b)) => match op {
            Op::If(..) => if b {
                (Phase::InBody, Step::RunBody)
            } else {
                (Phase::InElse, Step::RunElse)
            },
            Op::While(..) => if b {
                (Phase::InBody, Step::RunBody)
            } else {
                (over, Step::Complete(Flow::Done))
            },
            _ => (over, Step::Complete(Flow::Done)),
        },
        (Phase::Testing, Event::Items(n)) => match op {
            Op::For(..) => if n > 0 {
                (Phase::Iterating { next: 1, count: n }, Step::RunItem(0))
            } else {
                (over, Step::Complete(Flow::Done))
            },
            _ => (over, Step::Complete(Flow::Done)),
        },
        (Phase::InBody, Event::Finished(f)) => match op {
            Op::While(..) => match f {
                Flow::Broke => (over, Step::Complete(Flow::Done)),
                Flow::Done | Flow::Continued => (Phase::Testing, Step::Evaluate),
                _ => (over, Step::Complete(f)),
            },
            Op::TryExcept(..) => match f {
                Flow::Raised => (Phase::InElse, Step::RunElse),
                _ => (over, Step::Complete(f)),
            },
            _ => (over, Step::Complete(f)),
        },
        (Phase::InElse, Event::Finished(f)) => (over, Step::Complete(f)),
        (Phase::Iterating { next, count }, Event::Finished(f)) => match f {
            Flow::Broke => (over, Step::Complete(Flow::Done)),
            Flow::Done | Flow::Continued => if next < count {
                (Phase::Iterating { next: next + 1, count }, Step::RunItem(next))
            } else {
                (over, Step::Complete(Flow::Done))
            },
            _ => (over, Step::Complete(f)),
        },
        _ => (over, Step::Complete(Flow::Done)),
    }
}

// ------------------------------------------------------------------
// Laws
// ------------------------------------------------------------------

/// A `break` leaves only its own loop: when a loop body breaks, the loop
/// finishes normally; an `if` or `try` body that breaks passes the `break` on.
pub proof fn law_break_leaves_only_its_loop(op: SOp, phase: Phase)
    ensures
        (op is While && phase is InBody) || (op is For && phase is Iterating) ==> step_of(
            op,
            phase,
            Event::Finished(Flow::Broke),
        ).1 == Step::Complete(Flow::Done),
        (op is If || op is TryExcept) && (phase is InBody || phase is InElse) ==> step_of(
            op,
            phase,
            Event::Finished(Flow::Broke),
        ).1 == Step::Complete(Flow::Broke),
{
}

/// An `if` passes on unchanged how its chosen body finished: a `continue`, a
/// `break`, a `return` or an error inside it reaches the enclosing statement.
pub proof fn law_if_passes_its_body_flow_on(op: SOp, phase: Phase, f: Flow)
    requires
        op is If,
        phase is InBody || phase is InElse,
    ensures
        step_of(op, phase, Event::Finished(f)) == (Phase::Over, Step::Complete(f)),
{
}

/// A `return` propagates: whatever statement a body belongs to, a body that
/// returned makes the statement return; and a `return` statement returns unless
/// evaluating its value raised an error.
pub proof fn law_return_propagates(op: SOp, phase: Phase)
    requires
        phase is InBody || phase is InElse || phase is Iterating,
    ensures
        step_of(op, phase, Event::Finished(Flow::Returned)).1 == Step::Complete(Flow::Returned),
        op is Return ==> step_of(op, Phase::Performing, Event::Finished(Flow::Done)).1
            == Step::Complete(Flow::Returned),
{
}

/// The `except` body runs only on an error: a `try` body that finished in any
/// other way finishes the statement the same way.
pub proof fn law_except_runs_only_on_error(op: SOp, f: Flow)
    requires
        op is TryExcept,
    ensures
        step_of(op, Phase::InBody, Event::Finished(f)).1 == Step::RunElse <==> f == Flow::Raised,
        f != Flow::Raised ==> step_of(op, Phase::InBody, Event::Finished(f)).1 == Step::Complete(f),
{
}

/// `continue` goes round again: a `while` evaluates its condition once more, a
/// `for` runs its next item, or finishes when no item is left.
pub proof fn law_continue_goes_round_again(op: SOp, next: usize, count: usize)
    ensures
        op is While ==> step_of(op, Phase::InBody, Event::Finished(Flow::Continued)) == (
            Phase::Testing,
            Step::Evaluate,
        ),
        next < count ==> step_of(
            op,
            Phase::Iterating { next, count },
            Event::Finished(Flow::Continued),
        ).1 == Step::RunItem(next),
        next >= count ==> step_of(
            op,
            Phase::Iterating { next, count },
            Event::Finished(Flow::Continued),
        ).1 == Step::Complete(Flow::Done),
{
}

/// A `for` over `n` items runs them in order, each once: after item `k - 1`
/// finished normally comes item `k`, and after the last the loop is done.
pub proof fn law_for_runs_each_item_in_order(op: SOp, n: usize)
    requires
        op is For,
    ensures
        n > 0 ==> step_of(op, Phase::Testing, Event::Items(n)).1 == Step::RunItem(0),
        n == 0 ==> step_of(op, Phase::Testing, Event::Items(n)).1 == Step::Complete(Flow::Done),
        forall|k: usize|
            0 < k <= n ==> #[trigger] step_of(
                op,
                Phase::Iterating { next: k, count: n },
                Event::Finished(Flow::Done),
            ).1 == (if k < n {
                Step::RunItem(k)
            } else {
                Step::Complete(Flow::Done)
            }),
{
}

} // verus!
