//! A batch of expressions: made from the lines of an input and evaluated
//! one by one.

use crate::expression::{
    computes_as, failure_of, lemma_may_run_is_run, may_run, parses_as, run, settled, Arith,
    Expression, ExpressionView, Progress, Reading, Stacks,
};
use crate::token::{is_blank, is_blank_line, split, Operator};
use vstd::prelude::*;

verus! {

/// The expression of a line, before its evaluation.
pub open spec fn fresh(line: Seq<char>) -> ExpressionView {
    ExpressionView { source: line, stacks: Stacks::empty() }
}

/// The lines that hold an expression: those that are not blank.
pub open spec fn holds_text() -> spec_fn(Seq<char>) -> bool {
    |line: Seq<char>| !is_blank(line)
}

/// The batch of a sequence of lines: one expression for each line that is
/// not blank, in the order of the lines.
pub open spec fn batch_of(lines: Seq<Seq<char>>) -> Seq<ExpressionView> {
    lines.filter(holds_text()).map_values(|line: Seq<char>| fresh(line))
}

/// The expression of a line after its evaluation.
pub open spec fn solved(
    line: Seq<char>,
    reading: Reading,
    arith: Arith,
) -> ExpressionView {
    ExpressionView { source: line, stacks: settled(run(line, reading, arith)) }
}

/// `e` is a way in which the expression of a line can come out of its
/// evaluation, given what `parse` and `apply` may return.
pub open spec fn may_solve<P: Fn(&str) -> Option<u64>, A: Fn(Operator, u64, u64) -> u64>(
    parse: P,
    apply: A,
    line: Seq<char>,
    e: ExpressionView,
) -> bool {
    e.source == line && exists|end: Progress| #[trigger]
        may_run(parse, apply, Stacks::empty(), split(line), end) && e.stacks == settled(end)
}

/// Where `parse` and `apply` are functions, the expression of a line can
/// come out of its evaluation in one way only.
pub proof fn lemma_may_solve_is_solved<
    P: Fn(&str) -> Option<u64>,
    A: Fn(Operator, u64, u64) -> u64,
>(
    parse: P,
    apply: A,
    line: Seq<char>,
    e: ExpressionView,
    reading: Reading,
    arith: Arith,
)
    requires
        may_solve(parse, apply, line, e),
        parses_as(parse, reading),
        computes_as(apply, arith),
    ensures
        e == solved(line, reading, arith),
{
    let end = choose|end: Progress| #[trigger]
        may_run(parse, apply, Stacks::empty(), split(line), end) && e.stacks == settled(end);
    lemma_may_run_is_run(parse, apply, Stacks::empty(), split(line), end, reading, arith);
}

/// Makes the batch of the lines of an input: one expression for each line
/// that is not blank.
pub fn build_expression_list(lines: Vec<String>) -> (list: Vec<Expression>)
    ensures
        list.deep_view() == batch_of(lines.deep_view()),
{
    let mut list: Vec<Expression> = Vec::new();
    let ghost texts = lines.deep_view();
    proof {
        assert(texts.take(0) =~= Seq::<Seq<char>>::empty());
        reveal(Seq::filter);
        assert(list.deep_view() =~= batch_of(texts.take(0)));
    }
    for line in it: lines
        invariant
            it.seq() == lines@,
            texts == lines.deep_view(),
            list.deep_view() == batch_of(texts.take(it.index() as int)),
    {
        let ghost done = texts.take(it.index() as int);
        proof {
            assert(texts.take(it.index() + 1) =~= done.push(line@));
            done.lemma_filter_push(line@, holds_text());
        }
        if !is_blank_line(line.as_str()) {
            let ghost before = list.deep_view();
            list.push(Expression::new(line));
            assert(list.deep_view() =~= before.push(fresh(line@)));
            assert(before.push(fresh(line@)) =~= batch_of(done.push(line@)));
        }
    }
    assert(texts.take(texts.len() as int) =~= texts);
    list
}

/// Evaluates every expression of a batch. One that fails, or that does not
/// end with exactly one value, fails alone: it is marked as failed, and the
/// evaluation goes on with the next.
pub fn solve_list<P: Fn(&str) -> Option<u64>, A: Fn(Operator, u64, u64) -> u64>(
    exp_list: &mut Vec<Expression>,
    parse: &P,
    apply: &A,
)
    requires
        forall|text: &str| call_requires(*parse, (text,)),
        forall|o: Operator, a: u64, b: u64| call_requires(*apply, (o, a, b)),
    ensures
        final(exp_list).len() == old(exp_list).len(),
        forall|i: int|
            0 <= i < old(exp_list).len() ==> {
                &&& may_solve(
                    *parse,
                    *apply,
                    old(exp_list)[i]@.source,
                    (#[trigger] final(exp_list)[i])@,
                )
                &&& final(exp_list)[i]@.stacks.values.len() == 1
                &&& final(exp_list)[i]@.well_formed()
            },
        forall|reading: Reading, arith: Arith|
            #![trigger parses_as(*parse, reading), computes_as(*apply, arith)]
            parses_as(*parse, reading) && computes_as(*apply, arith) ==> forall|i: int|
                0 <= i < old(exp_list).len() ==> (#[trigger] final(exp_list)[i])@ == solved(
                    old(exp_list)[i]@.source,
                    reading,
                    arith,
                ),
{
    let count = exp_list.len();
    let mut next: usize = 0;
    while next < count
        invariant
            next <= count,
            count == exp_list.len(),
            count == old(exp_list).len(),
            forall|text: &str| call_requires(*parse, (text,)),
            forall|o: Operator, a: u64, b: u64| call_requires(*apply, (o, a, b)),
            forall|i: int| next <= i < count ==> #[trigger] exp_list[i] == old(exp_list)[i],
            forall|i: int|
                0 <= i < next ==> {
                    &&& may_solve(
                        *parse,
                        *apply,
                        old(exp_list)[i]@.source,
                        (#[trigger] exp_list[i])@,
                    )
                    &&& exp_list[i]@.stacks.values.len() == 1
                    &&& exp_list[i]@.well_formed()
                },
        decreases count - next,
    {
        let ghost before = exp_list@;
        let ghost line = exp_list[next as int]@.source;
        let outcome = exp_list[next].solve(parse, apply);
        let ghost end = Progress {
            stacks: exp_list[next as int]@.stacks,
            failure: failure_of(outcome),
        };
        if outcome.is_err() || exp_list[next].values().len() != 1 {
            exp_list[next].fail();
        }
        proof {
            assert(may_run(*parse, *apply, Stacks::empty(), split(line), end));
            assert(exp_list[next as int]@.stacks == settled(end));
            assert forall|i: int| next < i < count implies #[trigger] exp_list[i] == old(
                exp_list,
            )[i] by {
                assert(exp_list[i] == before[i]);
            }
            assert forall|i: int| 0 <= i < next implies #[trigger] exp_list[i] == before[i] by {}
        }
        next = next + 1;
    }
    proof {
        assert forall|reading: Reading, arith: Arith|
            #![trigger parses_as(*parse, reading), computes_as(*apply, arith)]
            parses_as(*parse, reading) && computes_as(*apply, arith) implies forall|i: int|
            0 <= i < old(exp_list).len() ==> (#[trigger] exp_list[i])@ == solved(
                old(exp_list)[i]@.source,
                reading,
                arith,
            ) by {
            assert forall|i: int| 0 <= i < old(exp_list).len() implies (#[trigger] exp_list[i])@
                == solved(old(exp_list)[i]@.source, reading, arith) by {
                lemma_may_solve_is_solved(
                    *parse,
                    *apply,
                    old(exp_list)[i]@.source,
                    exp_list[i]@,
                    reading,
                    arith,
                );
            }
        }
    }
}

} // verus!
