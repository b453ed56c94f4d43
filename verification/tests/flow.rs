use near_python::ast::Op;
use near_python::flow::{next_step, Event, Flow, Phase, Step};
use near_python::parser::Parser;

fn statement(source: &str) -> Op {
    Parser::parse(source).into_iter().next().unwrap()
}

#[test]
fn simple_statements_are_performed() {
    let op = statement("x = 1");
    assert_eq!(next_step(&op, Phase::Start, Event::Begin), (Phase::Performing, Step::Perform));
    assert_eq!(
        next_step(&op, Phase::Performing, Event::Finished(Flow::Done)),
        (Phase::Over, Step::Complete(Flow::Done))
    );
}

#[test]
fn return_returns_unless_raised() {
    let op = statement("return 1");
    assert_eq!(
        next_step(&op, Phase::Performing, Event::Finished(Flow::Done)).1,
        Step::Complete(Flow::Returned)
    );
    assert_eq!(
        next_step(&op, Phase::Performing, Event::Finished(Flow::Raised)).1,
        Step::Complete(Flow::Raised)
    );
}

#[test]
fn break_and_continue_finish_at_once() {
    assert_eq!(next_step(&statement("break"), Phase::Start, Event::Begin).1, Step::Complete(Flow::Broke));
    assert_eq!(
        next_step(&statement("continue"), Phase::Start, Event::Begin).1,
        Step::Complete(Flow::Continued)
    );
}

#[test]
fn if_chooses_a_body_and_passes_its_flow_on() {
    let op = statement("if a:\n    x = 1\nelse:\n    x = 2");
    assert_eq!(next_step(&op, Phase::Start, Event::Begin), (Phase::Testing, Step::Evaluate));
    assert_eq!(next_step(&op, Phase::Testing, Event::Truth(true)), (Phase::InBody, Step::RunBody));
    assert_eq!(next_step(&op, Phase::Testing, Event::Truth(false)), (Phase::InElse, Step::RunElse));
    assert_eq!(
        next_step(&op, Phase::InBody, Event::Finished(Flow::Broke)).1,
        Step::Complete(Flow::Broke)
    );
}

#[test]
fn while_loops_until_false_or_break() {
    let op = statement("while n > 0:\n    n -= 1");
    assert_eq!(next_step(&op, Phase::Testing, Event::Truth(true)), (Phase::InBody, Step::RunBody));
    assert_eq!(
        next_step(&op, Phase::InBody, Event::Finished(Flow::Done)),
        (Phase::Testing, Step::Evaluate)
    );
    assert_eq!(
        next_step(&op, Phase::InBody, Event::Finished(Flow::Continued)),
        (Phase::Testing, Step::Evaluate)
    );
    assert_eq!(
        next_step(&op, Phase::InBody, Event::Finished(Flow::Broke)).1,
        Step::Complete(Flow::Done)
    );
    assert_eq!(
        next_step(&op, Phase::InBody, Event::Finished(Flow::Returned)).1,
        Step::Complete(Flow::Returned)
    );
    assert_eq!(
        next_step(&op, Phase::Testing, Event::Truth(false)).1,
        Step::Complete(Flow::Done)
    );
}

#[test]
fn for_runs_each_item_in_turn() {
    let op = statement("for i in range(3):\n    print(i)");
    assert_eq!(
        next_step(&op, Phase::Testing, Event::Items(3)),
        (Phase::Iterating { next: 1, count: 3 }, Step::RunItem(0))
    );
    assert_eq!(
        next_step(&op, Phase::Iterating { next: 1, count: 3 }, Event::Finished(Flow::Done)),
        (Phase::Iterating { next: 2, count: 3 }, Step::RunItem(1))
    );
    assert_eq!(
        next_step(&op, Phase::Iterating { next: 3, count: 3 }, Event::Finished(Flow::Continued)).1,
        Step::Complete(Flow::Done)
    );
    assert_eq!(
        next_step(&op, Phase::Iterating { next: 1, count: 3 }, Event::Finished(Flow::Broke)).1,
        Step::Complete(Flow::Done)
    );
    assert_eq!(next_step(&op, Phase::Testing, Event::Items(0)).1, Step::Complete(Flow::Done));
}

#[test]
fn except_runs_only_on_an_error() {
    let op = statement("try:\n    x = 1\nexcept:\n    x = 2");
    assert_eq!(next_step(&op, Phase::Start, Event::Begin), (Phase::InBody, Step::RunBody));
    assert_eq!(
        next_step(&op, Phase::InBody, Event::Finished(Flow::Raised)),
        (Phase::InElse, Step::RunElse)
    );
    for f in [Flow::Done, Flow::Broke, Flow::Continued, Flow::Returned] {
        assert_eq!(next_step(&op, Phase::InBody, Event::Finished(f)).1, Step::Complete(f));
    }
    assert_eq!(
        next_step(&op, Phase::InElse, Event::Finished(Flow::Done)).1,
        Step::Complete(Flow::Done)
    );
}

#[test]
fn an_error_while_testing_raises() {
    let op = statement("if a:\n    x = 1");
    assert_eq!(
        next_step(&op, Phase::Testing, Event::Finished(Flow::Raised)).1,
        Step::Complete(Flow::Raised)
    );
}
