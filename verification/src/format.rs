//! Output: one line for each expression that has a result.

use crate::expression::{infix, Expression, ExpressionView};
use crate::token::{is_space, is_word, Operator};
use crate::value::SENTINEL;
use vstd::prelude::*;

verus! {

/// The text of an operation, as opposed to that of a single operand: it
/// holds a space, which no token does, between parentheses.
pub open spec fn is_compound(display: Seq<char>) -> bool {
    display.len() >= 2 && display.contains(' ')
}

/// An infix text without its outermost pair of parentheses. The text of a
/// single operand has none and stays as it is.
pub open spec fn stripped(display: Seq<char>) -> Seq<char> {
    if is_compound(display) {
        display.subrange(1, display.len() - 1)
    } else {
        display
    }
}

/// The line of a result: the stripped infix text, ` = `, and the number.
pub open spec fn line_of(display: Seq<char>, number: Seq<char>) -> Seq<char> {
    stripped(display) + seq![' ', '=', ' '] + number
}

/// The decimal text of a number.
pub type Rendering = spec_fn(u64) -> Seq<char>;

/// `render` returns nothing but the text that `text` gives for a value.
pub open spec fn renders_as<R: Fn(u64) -> String>(render: R, text: Rendering) -> bool {
    forall|value: u64, rendered: String| #[trigger]
        call_ensures(render, (value,), rendered) ==> rendered@ == text(value)
}

/// The expressions that get a line.
pub open spec fn shown() -> spec_fn(ExpressionView) -> bool {
    |e: ExpressionView| e.has_result()
}

/// The line of an expression that has a result.
pub open spec fn line_with(text: Rendering) -> spec_fn(ExpressionView) -> Seq<char> {
    |e: ExpressionView| line_of(e.stacks.displays[0], text(e.stacks.values[0]))
}

/// The lines of a batch: one for each expression that has a result, in the
/// order of the batch.
pub open spec fn report(list: Seq<ExpressionView>, text: Rendering) -> Seq<Seq<char>> {
    list.filter(shown()).map_values(line_with(text))
}

/// `line` is a line that an expression with a result can get, given what
/// `render` may return for its value.
pub open spec fn may_show<R: Fn(u64) -> String>(
    render: R,
    e: ExpressionView,
    line: Seq<char>,
) -> bool {
    exists|rendered: String| #[trigger]
        call_ensures(render, (e.stacks.values[0],), rendered) && line == line_of(
            e.stacks.displays[0],
            rendered@,
        )
}

/// `lines` are lines that a batch can get, given what `render` may return:
/// one for each expression that has a result, in the order of the batch.
pub open spec fn may_report<R: Fn(u64) -> String>(
    render: R,
    list: Seq<ExpressionView>,
    lines: Seq<Seq<char>>,
) -> bool {
    &&& lines.len() == list.filter(shown()).len()
    &&& forall|i: int|
        0 <= i < lines.len() ==> may_show(render, list.filter(shown())[i], #[trigger] lines[i])
}

/// Stripping the text of an operation leaves its two sides around the
/// operator, with the parentheses of the sides themselves in place.
pub proof fn lemma_strip_operation(lhs: Seq<char>, op: Operator, rhs: Seq<char>)
    ensures
        stripped(infix(lhs, op, rhs)) == lhs + seq![' ', op.symbol(), ' '] + rhs,
{
    let display = infix(lhs, op, rhs);
    assert(display[lhs.len() as int + 1] == ' ');
    assert(display.subrange(1, display.len() - 1) =~= lhs + seq![' ', op.symbol(), ' '] + rhs);
}

/// Stripping leaves a single operand as it is.
pub proof fn lemma_strip_word(word: Seq<char>)
    requires
        is_word(word),
    ensures
        stripped(word) == word,
{
    assert(is_space(' '));
}

/// Where `render` is a function, a batch can get its lines in one way only.
pub proof fn lemma_may_report_is_report<R: Fn(u64) -> String>(
    render: R,
    list: Seq<ExpressionView>,
    lines: Seq<Seq<char>>,
    text: Rendering,
)
    requires
        may_report(render, list, lines),
        renders_as(render, text),
    ensures
        lines == report(list, text),
{
    assert forall|i: int| 0 <= i < lines.len() implies lines[i] == report(list, text)[i] by {
        assert(may_show(render, list.filter(shown())[i], lines[i]));
    }
    assert(lines =~= report(list, text));
}

/// Tells whether a text holds a space.
fn has_space(display: &str) -> (found: bool)
    ensures
        found == display@.contains(' '),
{
    for c in it: display.chars()
        invariant
            it.seq() == display@,
            forall|k: int| 0 <= k < it.index() ==> #[trigger] display@[k] != ' ',
    {
        if c == ' ' {
            assert(display@[it.index() as int] == ' ');
            return true;
        }
    }
    false
}

/// Takes the outermost parentheses off the text of an operation.
pub fn strip_outer(display: &str) -> (inner: &str)
    ensures
        inner@ == stripped(display@),
{
    let len = display.unicode_len();
    if len >= 2 && has_space(display) {
        display.substring_char(1, len - 1)
    } else {
        display
    }
}

/// Lays out the line of a result.
pub fn format_line(display: &str, number: &str) -> (line: String)
    ensures
        line@ == line_of(display@, number@),
{
    let mut line = String::from_str(strip_outer(display));
    line.append(" = ");
    line.append(number);
    proof {
        reveal_strlit(" = ");
        assert(line@ =~= line_of(display@, number@));
    }
    line
}

/// Lays out the lines of a batch, in its order. An expression whose first
/// value is the sentinel gets no line, nor does one without a value or
/// without a text. `render` is asked for the decimal text of each value
/// that is shown.
pub fn write_lines<R: Fn(u64) -> String>(exp_list: &Vec<Expression>, render: &R) -> (lines: Vec<
    String,
>)
    requires
        forall|value: u64| call_requires(*render, (value,)),
    ensures
        may_report(*render, exp_list.deep_view(), lines.deep_view()),
        forall|text: Rendering| #[trigger]
            renders_as(*render, text) ==> lines.deep_view() == report(exp_list.deep_view(), text),
{
    let mut lines: Vec<String> = Vec::new();
    let ghost all = exp_list.deep_view();
    proof {
        reveal(Seq::filter);
        assert(all.take(0) =~= Seq::<ExpressionView>::empty());
    }
    let count = exp_list.len();
    let mut next: usize = 0;
    while next < count
        invariant
            next <= count,
            count == exp_list.len(),
            all == exp_list.deep_view(),
            forall|value: u64| call_requires(*render, (value,)),
            may_report(*render, all.take(next as int), lines.deep_view()),
        decreases count - next,
    {
        let expression = &exp_list[next];
        let values = expression.values();
        let displays = expression.displays();
        let ghost done = all.take(next as int);
        let ghost before = lines.deep_view();
        proof {
            assert(all.take(next + 1) =~= done.push(expression@));
            done.lemma_filter_push(expression@, shown());
        }
        if values.len() > 0 && displays.len() > 0 && values[0] != SENTINEL {
            let number = render(values[0]);
            let line = format_line(displays[0].as_str(), number.as_str());
            lines.push(line);
            proof {
                assert(displays.deep_view()[0] == displays[0]@);
                assert(lines.deep_view() =~= before.push(line@));
                let shown_now = done.push(expression@).filter(shown());
                assert(may_show(*render, expression@, line@));
                assert forall|i: int| 0 <= i < lines.len() implies may_show(
                    *render,
                    shown_now[i],
                    #[trigger] lines.deep_view()[i],
                ) by {
                    if i < before.len() {
                        assert(lines.deep_view()[i] == before[i]);
                        assert(shown_now[i] == done.filter(shown())[i]);
                    }
                }
            }
        }
        next = next + 1;
    }
    proof {
        assert(all.take(count as int) =~= all);
        assert forall|text: Rendering| #[trigger]
            renders_as(*render, text) implies lines.deep_view() == report(all, text) by {
            lemma_may_report_is_report(*render, all, lines.deep_view(), text);
        }
    }
    lines
}

} // verus!
