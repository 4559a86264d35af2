//! From the lines of an input to the lines of the output.

use crate::batch::{
    batch_of, build_expression_list, holds_text, lemma_may_solve_is_solved, may_solve, solve_list,
    solved,
};
use crate::expression::{
    computes_as, failed, lemma_unreadable_operand_fails, parses_as, run, Arith, ExpressionView,
    Reading, Stacks,
};
use crate::format::{
    lemma_may_report_is_report, line_with, may_report, renders_as, report, shown, write_lines,
    Rendering,
};
use crate::order::{
    ascending, distinct_keys, lemma_distinct_keys_ascend, lemma_sort_filter_commute,
    lemma_stable_sort, lemma_stable_sort_members, ordered, sort_list, stable_sort,
};
use crate::token::{is_blank, kind_of, lemma_blank_has_no_tokens, split, Operator};
use crate::value::{is_finite, lemma_keys_order_numbers, scaled, LAST};
use vstd::prelude::*;

verus! {

/// The evaluation of a line, as a function of the line.
pub open spec fn solved_with(
    reading: Reading,
    arith: Arith,
) -> spec_fn(Seq<char>) -> ExpressionView {
    |line: Seq<char>| solved(line, reading, arith)
}

/// The evaluated batch of a sequence of lines, in the order of the lines.
pub open spec fn solved_batch(
    lines: Seq<Seq<char>>,
    reading: Reading,
    arith: Arith,
) -> Seq<ExpressionView> {
    lines.filter(holds_text()).map_values(solved_with(reading, arith))
}

/// The output for a sequence of lines: the lines of the results, ordered by
/// result.
pub open spec fn output(
    lines: Seq<Seq<char>>,
    reading: Reading,
    arith: Arith,
    text: Rendering,
) -> Seq<Seq<char>> {
    report(stable_sort(solved_batch(lines, reading, arith)), text)
}

/// The expressions that have a line in the output, in the order of their
/// lines.
pub open spec fn results(
    lines: Seq<Seq<char>>,
    reading: Reading,
    arith: Arith,
) -> Seq<ExpressionView> {
    stable_sort(solved_batch(lines, reading, arith).filter(shown()))
}

/// `out` is an output that the lines of an input can get, given what
/// `parse`, `apply` and `render` may return: the lines of a batch that
/// holds, for each line that is not blank, a way in which its expression
/// can come out of its evaluation, taken in the order of the results.
pub open spec fn may_output<
    P: Fn(&str) -> Option<u64>,
    A: Fn(Operator, u64, u64) -> u64,
    R: Fn(u64) -> String,
>(parse: P, apply: A, render: R, lines: Seq<Seq<char>>, out: Seq<Seq<char>>) -> bool {
    exists|batch: Seq<ExpressionView>|
        #![trigger stable_sort(batch)]
        {
            &&& batch.len() == lines.filter(holds_text()).len()
            &&& forall|i: int|
                0 <= i < batch.len() ==> may_solve(
                    parse,
                    apply,
                    lines.filter(holds_text())[i],
                    #[trigger] batch[i],
                )
            &&& may_report(render, stable_sort(batch), out)
        }
}

/// The output holds the lines of the expressions that have a result, and
/// holds them in the order of their results.
pub proof fn lemma_output_is_ordered(
    lines: Seq<Seq<char>>,
    reading: Reading,
    arith: Arith,
    text: Rendering,
)
    ensures
        output(lines, reading, arith, text) == results(lines, reading, arith).map_values(
            line_with(text),
        ),
        ordered(results(lines, reading, arith)),
        output(lines, reading, arith, text).len() == solved_batch(lines, reading, arith).filter(
            shown(),
        ).len(),
{
    let batch = solved_batch(lines, reading, arith);
    lemma_sort_filter_commute(batch, shown());
    lemma_stable_sort(batch.filter(shown()));
}

/// Where no two results have the same key, the output is strictly
/// ascending.
pub proof fn lemma_distinct_results_ascend(
    lines: Seq<Seq<char>>,
    reading: Reading,
    arith: Arith,
)
    requires
        distinct_keys(solved_batch(lines, reading, arith).filter(shown())),
    ensures
        ascending(results(lines, reading, arith)),
{
    lemma_distinct_keys_ascend(solved_batch(lines, reading, arith).filter(shown()));
}

/// Every result is a finite number.
pub open spec fn all_finite(s: Seq<ExpressionView>) -> bool {
    forall|i: int| 0 <= i < s.len() ==> is_finite((#[trigger] s[i]).stacks.values[0])
}

/// No two results are the same number.
pub open spec fn distinct_numbers(s: Seq<ExpressionView>) -> bool {
    forall|i: int, j: int|
        #![trigger s[i], s[j]]
        0 <= i < j < s.len() ==> scaled(s[i].stacks.values[0]) != scaled(s[j].stacks.values[0])
}

/// Every result is a smaller number than those behind it.
pub open spec fn ascending_numbers(s: Seq<ExpressionView>) -> bool {
    forall|i: int, j: int|
        #![trigger s[i], s[j]]
        0 <= i < j < s.len() ==> scaled(s[i].stacks.values[0]) < scaled(s[j].stacks.values[0])
}

/// Where the results are finite numbers, no two of them the same number,
/// the output is strictly ascending in the numbers.
pub proof fn lemma_distinct_finite_results_ascend(
    lines: Seq<Seq<char>>,
    reading: Reading,
    arith: Arith,
)
    requires
        all_finite(solved_batch(lines, reading, arith).filter(shown())),
        distinct_numbers(solved_batch(lines, reading, arith).filter(shown())),
    ensures
        all_finite(results(lines, reading, arith)),
        ascending_numbers(results(lines, reading, arith)),
{
    let found = solved_batch(lines, reading, arith).filter(shown());
    let sorted = results(lines, reading, arith);
    assert forall|i: int| 0 <= i < found.len() implies (#[trigger] found[i]).has_result() by {
        solved_batch(lines, reading, arith).lemma_filter_pred(shown(), i);
    }
    assert forall|i: int, j: int| 0 <= i < j < found.len() implies found[i].rank()
        != found[j].rank() by {
        lemma_keys_order_numbers(found[i].stacks.values[0], found[j].stacks.values[0]);
    }
    lemma_distinct_keys_ascend(found);
    assert forall|i: int| 0 <= i < sorted.len() implies is_finite(
        (#[trigger] sorted[i]).stacks.values[0],
    ) && sorted[i].has_result() by {
        assert(sorted.contains(sorted[i]));
        lemma_stable_sort_members(found, sorted[i]);
        let k = choose|k: int| 0 <= k < found.len() && found[k] == sorted[i];
        assert(found[k].has_result());
    }
    assert forall|i: int, j: int|
        #![trigger sorted[i], sorted[j]]
        0 <= i < j < sorted.len() implies scaled(sorted[i].stacks.values[0]) < scaled(
        sorted[j].stacks.values[0],
    ) by {
        lemma_keys_order_numbers(sorted[i].stacks.values[0], sorted[j].stacks.values[0]);
    }
}

/// An input without lines gives an output without lines.
pub proof fn lemma_no_lines_no_output(
    reading: Reading,
    arith: Arith,
    text: Rendering,
)
    ensures
        output(Seq::empty(), reading, arith, text) == Seq::<Seq<char>>::empty(),
{
    let lines = Seq::<Seq<char>>::empty();
    lines.lemma_filter_len(holds_text());
    lemma_output_is_ordered(lines, reading, arith, text);
    solved_batch(lines, reading, arith).lemma_filter_len(shown());
    assert(output(lines, reading, arith, text) =~= Seq::<Seq<char>>::empty());
}

/// A line with a token that is no operator and no number has no result.
pub proof fn lemma_unreadable_line_fails(
    line: Seq<char>,
    i: int,
    reading: Reading,
    arith: Arith,
)
    requires
        0 <= i < split(line).len(),
        kind_of(split(line)[i]) is Operand,
        reading(split(line)[i]) is None,
    ensures
        run(line, reading, arith).failure is Some,
        solved(line, reading, arith).stacks == failed(),
        !solved(line, reading, arith).has_result(),
{
    lemma_unreadable_operand_fails(Stacks::empty(), split(line), i, reading, arith);
}

/// An expression without a result has no line in the output: its key is
/// `LAST`, and the batch holds it behind every expression of a smaller key.
pub proof fn lemma_failed_are_last(
    lines: Seq<Seq<char>>,
    reading: Reading,
    arith: Arith,
    i: int,
    j: int,
)
    requires
        0 <= i < stable_sort(solved_batch(lines, reading, arith)).len(),
        0 <= j < stable_sort(solved_batch(lines, reading, arith)).len(),
        stable_sort(solved_batch(lines, reading, arith))[i].stacks == failed(),
        stable_sort(solved_batch(lines, reading, arith))[j].rank() < LAST,
    ensures
        j < i,
        !stable_sort(solved_batch(lines, reading, arith))[i].has_result(),
{
    lemma_stable_sort(solved_batch(lines, reading, arith));
}

/// Every line of the input that has a result has its line in the output,
/// whatever the other lines of the input hold.
pub proof fn lemma_results_are_shown(
    lines: Seq<Seq<char>>,
    k: int,
    reading: Reading,
    arith: Arith,
    text: Rendering,
)
    requires
        0 <= k < lines.len(),
        solved(lines[k], reading, arith).has_result(),
    ensures
        output(lines, reading, arith, text).contains(
            line_with(text)(solved(lines[k], reading, arith)),
        ),
{
    let line = lines[k];
    let e = solved(line, reading, arith);
    lemma_blank_has_no_tokens(line);
    assert(!is_blank(line));
    let kept = lines.filter(holds_text());
    lines.lemma_filter_contains(holds_text(), k);
    let m = choose|m: int| 0 <= m < kept.len() && kept[m] == line;
    let batch = solved_batch(lines, reading, arith);
    assert(batch[m] == e);
    batch.lemma_filter_contains(shown(), m);
    lemma_stable_sort_members(batch.filter(shown()), e);
    let shown_results = results(lines, reading, arith);
    let n = choose|n: int| 0 <= n < shown_results.len() && shown_results[n] == e;
    lemma_output_is_ordered(lines, reading, arith, text);
    assert(output(lines, reading, arith, text)[n] == line_with(text)(e));
}

/// Every line of the output is the line of a result of some line of the
/// input.
pub proof fn lemma_shown_are_results(
    lines: Seq<Seq<char>>,
    n: int,
    reading: Reading,
    arith: Arith,
    text: Rendering,
) -> (k: int)
    requires
        0 <= n < output(lines, reading, arith, text).len(),
    ensures
        0 <= k < lines.len(),
        solved(lines[k], reading, arith).has_result(),
        output(lines, reading, arith, text)[n] == line_with(text)(
            solved(lines[k], reading, arith),
        ),
{
    lemma_output_is_ordered(lines, reading, arith, text);
    let batch = solved_batch(lines, reading, arith);
    let shown_results = results(lines, reading, arith);
    let e = shown_results[n];
    assert(shown_results.contains(e));
    lemma_stable_sort_members(batch.filter(shown()), e);
    batch.lemma_filter_contains_rev(shown(), e);
    let i = choose|i: int| 0 <= i < batch.filter(shown()).len() && batch.filter(shown())[i] == e;
    batch.lemma_filter_pred(shown(), i);
    let m = choose|m: int| 0 <= m < batch.len() && batch[m] == e;
    let kept = lines.filter(holds_text());
    assert(kept.contains(kept[m]));
    lines.lemma_filter_contains_rev(holds_text(), kept[m]);
    let k = choose|k: int| 0 <= k < lines.len() && lines[k] == kept[m];
    k
}

/// Where `parse`, `apply` and `render` are functions, an input can get one
/// output only.
pub proof fn lemma_may_output_is_output<
    P: Fn(&str) -> Option<u64>,
    A: Fn(Operator, u64, u64) -> u64,
    R: Fn(u64) -> String,
>(
    parse: P,
    apply: A,
    render: R,
    lines: Seq<Seq<char>>,
    out: Seq<Seq<char>>,
    reading: Reading,
    arith: Arith,
    text: Rendering,
)
    requires
        may_output(parse, apply, render, lines, out),
        parses_as(parse, reading),
        computes_as(apply, arith),
        renders_as(render, text),
    ensures
        out == output(lines, reading, arith, text),
{
    let kept = lines.filter(holds_text());
    let batch = choose|batch: Seq<ExpressionView>|
        #![trigger stable_sort(batch)]
        {
            &&& batch.len() == kept.len()
            &&& forall|i: int|
                0 <= i < batch.len() ==> may_solve(parse, apply, kept[i], #[trigger] batch[i])
            &&& may_report(render, stable_sort(batch), out)
        };
    assert forall|i: int| 0 <= i < batch.len() implies batch[i] == solved_batch(
        lines,
        reading,
        arith,
    )[i] by {
        lemma_may_solve_is_solved(parse, apply, kept[i], batch[i], reading, arith);
    }
    assert(batch =~= solved_batch(lines, reading, arith));
    lemma_may_report_is_report(render, stable_sort(batch), out, text);
}

/// The output is determined by the input: where `parse`, `apply` and
/// `render` are functions, two evaluations of the same lines give the same
/// output.
pub proof fn lemma_same_input_same_output<
    P: Fn(&str) -> Option<u64>,
    A: Fn(Operator, u64, u64) -> u64,
    R: Fn(u64) -> String,
>(
    parse: P,
    apply: A,
    render: R,
    lines: Seq<Seq<char>>,
    first: Seq<Seq<char>>,
    second: Seq<Seq<char>>,
    reading: Reading,
    arith: Arith,
    text: Rendering,
)
    requires
        may_output(parse, apply, render, lines, first),
        may_output(parse, apply, render, lines, second),
        parses_as(parse, reading),
        computes_as(apply, arith),
        renders_as(render, text),
    ensures
        first == second,
{
    lemma_may_output_is_output(parse, apply, render, lines, first, reading, arith, text);
    lemma_may_output_is_output(parse, apply, render, lines, second, reading, arith, text);
}

/// Evaluates the expressions of an input, one to a line, and lays out the
/// lines of the output: `<infix> = <value>` for each expression that has a
/// result, ordered by result. Blank lines hold no expression. A line that
/// cannot be evaluated gets no line in the output and does not disturb the
/// others.
pub fn evaluate_lines<
    P: Fn(&str) -> Option<u64>,
    A: Fn(Operator, u64, u64) -> u64,
    R: Fn(u64) -> String,
>(lines: Vec<String>, parse: &P, apply: &A, render: &R) -> (out: Vec<String>)
    requires
        forall|text: &str| call_requires(*parse, (text,)),
        forall|o: Operator, a: u64, b: u64| call_requires(*apply, (o, a, b)),
        forall|value: u64| call_requires(*render, (value,)),
    ensures
        out.len() <= lines.len(),
        may_output(*parse, *apply, *render, lines.deep_view(), out.deep_view()),
        forall|
            reading: Reading,
            arith: Arith,
            text: Rendering,
        |
            #![trigger
                parses_as(*parse, reading),
                computes_as(*apply, arith),
                renders_as(*render, text),
            ]
            parses_as(*parse, reading) && computes_as(*apply, arith) && renders_as(*render, text)
                ==> out.deep_view() == output(lines.deep_view(), reading, arith, text),
{
    let ghost input = lines.deep_view();
    let ghost kept = input.filter(holds_text());
    let mut list = build_expression_list(lines);
    let ghost made = list@;
    let ghost made_views = list.deep_view();
    solve_list(&mut list, parse, apply);
    let ghost solved_list = list@;
    let ghost evaluated = list.deep_view();
    sort_list(&mut list);
    let out = write_lines(&list, render);
    proof {
        input.lemma_filter_len(holds_text());
        assert(made_views.len() == made.len());
        assert(batch_of(input).len() == kept.len());
        assert(evaluated.len() == solved_list.len());
        lemma_stable_sort(evaluated);
        list.deep_view().lemma_filter_len(shown());
        assert forall|i: int| 0 <= i < evaluated.len() implies may_solve(
            *parse,
            *apply,
            kept[i],
            #[trigger] evaluated[i],
        ) by {
            assert(made[i]@ == made_views[i]);
            assert(made[i]@ == batch_of(input)[i]);
            assert(made[i]@.source == kept[i]);
            assert(evaluated[i] == solved_list[i]@);
        }
        assert(may_report(*render, stable_sort(evaluated), out.deep_view()));
        assert(may_output(*parse, *apply, *render, input, out.deep_view()));
        assert forall|
            reading: Reading,
            arith: Arith,
            text: Rendering,
        |
            #![trigger
                parses_as(*parse, reading),
                computes_as(*apply, arith),
                renders_as(*render, text),
            ]
            parses_as(*parse, reading) && computes_as(*apply, arith) && renders_as(
                *render,
                text,
            ) implies out.deep_view() == output(input, reading, arith, text) by {
            lemma_may_output_is_output(
                *parse,
                *apply,
                *render,
                input,
                out.deep_view(),
                reading,
                arith,
                text,
            );
        }
    }
    out
}

} // verus!
