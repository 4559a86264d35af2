//! What the evaluator computes, said without stacks: a postfix expression
//! is the walk of a tree, operands first and the operator behind them, and
//! its evaluation leaves the value and the infix text of that tree.

use crate::batch::solved;
use crate::expression::{advance, infix, run, run_from, Arith, Progress, Reading, Stacks};
use crate::format::{lemma_strip_operation, lemma_strip_word, line_of, line_with, Rendering};
use crate::token::{
    is_word, joined, kind_of, lemma_split_joined, lemma_tokens_are_words, split, Operator, Token,
};
use crate::value::SENTINEL;
use vstd::prelude::*;

verus! {

/// An arithmetic expression: an operand, written as a token, or an operator
/// applied to two expressions.
pub enum Tree {
    Operand(Seq<char>),
    Operation(Operator, Box<Tree>, Box<Tree>),
}

impl Tree {
    /// The tokens of the expression in postfix order.
    pub open spec fn postfix(self) -> Seq<Seq<char>>
        decreases self,
    {
        match self {
            Tree::Operand(token) => seq![token],
            Tree::Operation(op, lhs, rhs) => lhs.postfix() + rhs.postfix() + seq![
                seq![op.symbol()],
            ],
        }
    }

    /// The expression in infix notation, with every operation in parentheses.
    pub open spec fn infix(self) -> Seq<char>
        decreases self,
    {
        match self {
            Tree::Operand(token) => token,
            Tree::Operation(op, lhs, rhs) => infix(lhs.infix(), op, rhs.infix()),
        }
    }

    /// Every operand is a token that is no operator and that stands for a
    /// number.
    pub open spec fn readable(self, reading: Reading) -> bool
        decreases self,
    {
        match self {
            Tree::Operand(token) => kind_of(token) is Operand && reading(token) is Some,
            Tree::Operation(_, lhs, rhs) => lhs.readable(reading) && rhs.readable(reading),
        }
    }

    /// The value of the expression: that of an operand is the number it
    /// stands for, that of an operation is what the operator makes of the
    /// value of its left side and the value of its right side.
    pub open spec fn value(
        self,
        reading: Reading,
        arith: Arith,
    ) -> u64
        decreases self,
    {
        match self {
            Tree::Operand(token) => reading(token)->0,
            Tree::Operation(op, lhs, rhs) => arith(
                op,
                lhs.value(reading, arith),
                rhs.value(reading, arith),
            ),
        }
    }

    /// Every operand is a word: it can be written as one token.
    pub open spec fn written(self) -> bool
        decreases self,
    {
        match self {
            Tree::Operand(token) => is_word(token),
            Tree::Operation(_, lhs, rhs) => lhs.written() && rhs.written(),
        }
    }

    /// The expression as a line of postfix text.
    pub open spec fn text(self) -> Seq<char> {
        joined(self.postfix())
    }

    /// The expression as it is shown: in infix notation, without
    /// parentheses around the whole.
    pub open spec fn shown(self) -> Seq<char> {
        match self {
            Tree::Operand(token) => token,
            Tree::Operation(op, lhs, rhs) => lhs.infix() + seq![' ', op.symbol(), ' ']
                + rhs.infix(),
        }
    }
}

/// The symbol of an operator, standing alone, is that operator.
pub proof fn lemma_symbol_is_operator(op: Operator)
    ensures
        kind_of(seq![op.symbol()]) == Token::Operator(op),
{
    let token = seq![op.symbol()];
    assert(token[0] == op.symbol());
    assert(seq!['+'][0] == '+');
    assert(seq!['-'][0] == '-');
    assert(seq!['*'][0] == '*');
    assert(seq!['/'][0] == '/');
    match op {
        Operator::Add => assert(token =~= seq!['+']),
        Operator::Subtract => assert(token =~= seq!['-']),
        Operator::Multiply => assert(token =~= seq!['*']),
        Operator::Divide => assert(token =~= seq!['/']),
    }
}

/// The tokens of an expression, met on any stacks, push its value and its
/// infix text and touch nothing below; the evaluation goes on with the
/// tokens that follow.
pub proof fn lemma_run_pushes_tree(
    stacks: Stacks,
    tree: Tree,
    rest: Seq<Seq<char>>,
    reading: Reading,
    arith: Arith,
)
    requires
        tree.readable(reading),
    ensures
        run_from(stacks, tree.postfix() + rest, reading, arith) == run_from(
            stacks.push(tree.value(reading, arith), tree.infix()),
            rest,
            reading,
            arith,
        ),
    decreases tree,
{
    match tree {
        Tree::Operand(token) => {
            let tokens = tree.postfix() + rest;
            assert(tokens[0] == token);
            assert(tokens.drop_first() =~= rest);
        },
        Tree::Operation(op, lhs, rhs) => {
            let symbol = seq![op.symbol()];
            let after_lhs = stacks.push(lhs.value(reading, arith), lhs.infix());
            let after_rhs = after_lhs.push(rhs.value(reading, arith), rhs.infix());
            let tail = seq![symbol] + rest;
            assert(tree.postfix() + rest =~= lhs.postfix() + (rhs.postfix() + tail));
            lemma_run_pushes_tree(stacks, *lhs, rhs.postfix() + tail, reading, arith);
            lemma_run_pushes_tree(after_lhs, *rhs, tail, reading, arith);
            lemma_symbol_is_operator(op);
            assert(tail[0] == symbol);
            assert(tail.drop_first() =~= rest);
            let step = advance(after_rhs, symbol, reading, arith);
            assert(after_rhs.reducible());
            assert(step.stacks.values =~= stacks.push(
                tree.value(reading, arith),
                tree.infix(),
            ).values);
            assert(step.stacks.displays =~= stacks.push(
                tree.value(reading, arith),
                tree.infix(),
            ).displays);
        },
    }
}

/// The evaluation of a well-formed postfix expression does not fail, and
/// leaves one value and one text: the value of the expression and its
/// infix notation.
pub proof fn lemma_run_tree(
    tree: Tree,
    reading: Reading,
    arith: Arith,
)
    requires
        tree.readable(reading),
    ensures
        run_from(Stacks::empty(), tree.postfix(), reading, arith) == (Progress {
            stacks: Stacks {
                values: seq![tree.value(reading, arith)],
                displays: seq![tree.infix()],
            },
            failure: None,
        }),
{
    let none = Seq::<Seq<char>>::empty();
    lemma_run_pushes_tree(Stacks::empty(), tree, none, reading, arith);
    assert(tree.postfix() + none =~= tree.postfix());
    let end = Stacks::empty().push(tree.value(reading, arith), tree.infix());
    assert(end.values =~= seq![tree.value(reading, arith)]);
    assert(end.displays =~= seq![tree.infix()]);
}

/// The postfix tokens of an expression whose operands are words are words.
pub proof fn lemma_postfix_is_words(tree: Tree)
    requires
        tree.written(),
    ensures
        forall|i: int| 0 <= i < tree.postfix().len() ==> is_word(#[trigger] tree.postfix()[i]),
    decreases tree,
{
    match tree {
        Tree::Operand(token) => {},
        Tree::Operation(op, lhs, rhs) => {
            lemma_postfix_is_words(*lhs);
            lemma_postfix_is_words(*rhs);
            let symbol = seq![op.symbol()];
            assert(symbol[0] == op.symbol());
            assert(is_word(symbol));
            let tokens = tree.postfix();
            assert forall|i: int| 0 <= i < tokens.len() implies is_word(#[trigger] tokens[i]) by {
                if i < lhs.postfix().len() {
                    assert(tokens[i] == lhs.postfix()[i]);
                } else if i < lhs.postfix().len() + rhs.postfix().len() {
                    assert(tokens[i] == rhs.postfix()[i - lhs.postfix().len()]);
                } else {
                    assert(tokens[i] == symbol);
                }
            }
        },
    }
}

/// The line of a well-formed expression evaluates, without failure, to one
/// value and one text: the value of the expression and its infix notation.
pub proof fn lemma_run_text(
    tree: Tree,
    reading: Reading,
    arith: Arith,
)
    requires
        tree.written(),
        tree.readable(reading),
    ensures
        run(tree.text(), reading, arith) == (Progress {
            stacks: Stacks {
                values: seq![tree.value(reading, arith)],
                displays: seq![tree.infix()],
            },
            failure: None,
        }),
{
    lemma_postfix_is_words(tree);
    lemma_split_joined(tree.postfix());
    lemma_run_tree(tree, reading, arith);
}

/// The tokens of a row of expressions, one expression after the other.
pub open spec fn row_postfix(row: Seq<Tree>) -> Seq<Seq<char>>
    decreases row.len(),
{
    if row.len() == 0 {
        Seq::empty()
    } else {
        row_postfix(row.drop_last()) + row.last().postfix()
    }
}

/// The stacks that hold the values and the infix texts of a row of
/// expressions, the first at the bottom.
pub open spec fn row_stacks(
    row: Seq<Tree>,
    reading: Reading,
    arith: Arith,
) -> Stacks {
    Stacks {
        values: Seq::new(row.len(), |i: int| row[i].value(reading, arith)),
        displays: Seq::new(row.len(), |i: int| row[i].infix()),
    }
}

/// Every expression of a row is readable.
pub open spec fn row_readable(row: Seq<Tree>, reading: Reading) -> bool {
    forall|i: int| 0 <= i < row.len() ==> (#[trigger] row[i]).readable(reading)
}

/// A token behind a sequence of tokens is met on the stacks that the
/// sequence left, unless the sequence failed.
pub proof fn lemma_run_last(
    stacks: Stacks,
    tokens: Seq<Seq<char>>,
    last: Seq<char>,
    reading: Reading,
    arith: Arith,
)
    ensures
        run_from(stacks, tokens.push(last), reading, arith) == {
            let before = run_from(stacks, tokens, reading, arith);
            if before.failure is Some {
                before
            } else {
                advance(before.stacks, last, reading, arith)
            }
        },
    decreases tokens.len(),
{
    let all = tokens.push(last);
    if tokens.len() == 0 {
        assert(all[0] == last);
        assert(all.drop_first() =~= Seq::<Seq<char>>::empty());
        let step = advance(stacks, last, reading, arith);
        assert(run_from(step.stacks, all.drop_first(), reading, arith) == (Progress {
            stacks: step.stacks,
            failure: None,
        }));
    } else {
        let first = advance(stacks, tokens[0], reading, arith);
        assert(all[0] == tokens[0]);
        assert(all.drop_first() =~= tokens.drop_first().push(last));
        if first.failure is None {
            lemma_run_last(first.stacks, tokens.drop_first(), last, reading, arith);
        }
    }
}

/// An operator token is the symbol of its operator.
pub proof fn lemma_operator_is_symbol(token: Seq<char>)
    ensures
        kind_of(token) matches Token::Operator(op) ==> token == seq![op.symbol()],
{
}

/// An evaluation that does not fail has read a row of expressions: its
/// tokens are theirs, in postfix order, and its stacks hold their values
/// and their infix texts.
pub proof fn lemma_run_reads_row(
    tokens: Seq<Seq<char>>,
    reading: Reading,
    arith: Arith,
) -> (row: Seq<Tree>)
    requires
        run_from(Stacks::empty(), tokens, reading, arith).failure is None,
    ensures
        row_readable(row, reading),
        row_postfix(row) == tokens,
        row_stacks(row, reading, arith) == run_from(Stacks::empty(), tokens, reading, arith).stacks,
    decreases tokens.len(),
{
    if tokens.len() == 0 {
        let row = Seq::<Tree>::empty();
        assert(row_stacks(row, reading, arith).values =~= Stacks::empty().values);
        assert(row_stacks(row, reading, arith).displays =~= Stacks::empty().displays);
        row
    } else {
        let front = tokens.drop_last();
        let last = tokens.last();
        assert(tokens =~= front.push(last));
        lemma_run_last(Stacks::empty(), front, last, reading, arith);
        let before = run_from(Stacks::empty(), front, reading, arith);
        let read = lemma_run_reads_row(front, reading, arith);
        let n = read.len() as int;
        let end = advance(before.stacks, last, reading, arith).stacks;
        match kind_of(last) {
            Token::Operand => {
                let row = read.push(Tree::Operand(last));
                assert(row.drop_last() =~= read);
                assert(row_postfix(row) =~= tokens);
                assert(row_stacks(row, reading, arith).values =~= end.values);
                assert(row_stacks(row, reading, arith).displays =~= end.displays);
                row
            },
            Token::Operator(op) => {
                lemma_operator_is_symbol(last);
                let lhs = read[n - 2];
                let rhs = read[n - 1];
                let below = read.take(n - 2);
                let row = below.push(Tree::Operation(op, Box::new(lhs), Box::new(rhs)));
                assert(row.drop_last() =~= below);
                assert(read.drop_last().drop_last() =~= below);
                assert(read.drop_last().last() == lhs);
                assert(row_postfix(read) == row_postfix(read.drop_last()) + rhs.postfix());
                assert(row_postfix(read.drop_last()) == row_postfix(below) + lhs.postfix());
                assert(row_postfix(row) =~= tokens);
                assert(row_stacks(row, reading, arith).values =~= end.values);
                assert(row_stacks(row, reading, arith).displays =~= end.displays);
                row
            },
        }
    }
}

/// An evaluation that does not fail and leaves exactly one value has read
/// one well-formed expression, and that value and its text are the value
/// and the infix notation of the expression.
pub proof fn lemma_result_is_tree(
    tokens: Seq<Seq<char>>,
    reading: Reading,
    arith: Arith,
) -> (tree: Tree)
    requires
        run_from(Stacks::empty(), tokens, reading, arith).failure is None,
        run_from(Stacks::empty(), tokens, reading, arith).stacks.values.len() == 1,
    ensures
        tree.readable(reading),
        tree.postfix() == tokens,
        run_from(Stacks::empty(), tokens, reading, arith).stacks == (Stacks {
            values: seq![tree.value(reading, arith)],
            displays: seq![tree.infix()],
        }),
{
    let row = lemma_run_reads_row(tokens, reading, arith);
    let tree = row[0];
    assert(row.drop_last() =~= Seq::<Tree>::empty());
    assert(row_postfix(row.drop_last()) =~= Seq::<Seq<char>>::empty());
    assert(row_postfix(row) =~= tree.postfix());
    lemma_run_tree(tree, reading, arith);
    tree
}

/// An expression whose postfix tokens are words has words for operands.
pub proof fn lemma_words_are_written(tree: Tree)
    requires
        forall|i: int| 0 <= i < tree.postfix().len() ==> is_word(#[trigger] tree.postfix()[i]),
    ensures
        tree.written(),
    decreases tree,
{
    match tree {
        Tree::Operand(token) => {
            assert(tree.postfix()[0] == token);
        },
        Tree::Operation(op, lhs, rhs) => {
            let tokens = tree.postfix();
            assert forall|i: int| 0 <= i < lhs.postfix().len() implies is_word(
                #[trigger] lhs.postfix()[i],
            ) by {
                assert(tokens[i] == lhs.postfix()[i]);
            }
            assert forall|i: int| 0 <= i < rhs.postfix().len() implies is_word(
                #[trigger] rhs.postfix()[i],
            ) by {
                assert(tokens[lhs.postfix().len() + i] == rhs.postfix()[i]);
            }
            lemma_words_are_written(*lhs);
            lemma_words_are_written(*rhs);
        },
    }
}

/// A line whose evaluation does not fail and leaves exactly one value is
/// the postfix text of one well-formed expression, and the value and the
/// text that are left are the value and the infix notation of that
/// expression.
pub proof fn lemma_result_of_line_is_tree(
    line: Seq<char>,
    reading: Reading,
    arith: Arith,
) -> (tree: Tree)
    requires
        run(line, reading, arith).failure is None,
        run(line, reading, arith).stacks.values.len() == 1,
    ensures
        tree.written(),
        tree.readable(reading),
        tree.postfix() == split(line),
        run(line, reading, arith).stacks == (Stacks {
            values: seq![tree.value(reading, arith)],
            displays: seq![tree.infix()],
        }),
{
    let tree = lemma_result_is_tree(split(line), reading, arith);
    lemma_tokens_are_words(line);
    lemma_words_are_written(tree);
    tree
}

/// The line of an expression shows it without parentheses around the
/// whole: a single operand as it was written, an operation as its two
/// sides around the operator.
pub proof fn lemma_line_of_tree(tree: Tree, number: Seq<char>)
    requires
        tree.written(),
    ensures
        line_of(tree.infix(), number) == tree.shown() + seq![' ', '=', ' '] + number,
{
    match tree {
        Tree::Operand(token) => {
            lemma_strip_word(token);
        },
        Tree::Operation(op, lhs, rhs) => {
            lemma_strip_operation(lhs.infix(), op, rhs.infix());
        },
    }
}

/// The line of a well-formed expression has the value and the infix
/// notation of the expression for its result. The result is shown unless
/// the value is the sentinel, and its line in the output is the expression
/// without parentheses around the whole, ` = `, and the text of the value.
pub proof fn lemma_tree_has_result(
    line: Seq<char>,
    tree: Tree,
    reading: Reading,
    arith: Arith,
    text: Rendering,
)
    requires
        split(line) == tree.postfix(),
        tree.readable(reading),
    ensures
        solved(line, reading, arith).stacks == (Stacks {
            values: seq![tree.value(reading, arith)],
            displays: seq![tree.infix()],
        }),
        solved(line, reading, arith).has_result() <==> tree.value(reading, arith) != SENTINEL,
        line_with(text)(solved(line, reading, arith)) == tree.shown() + seq![' ', '=', ' '] + text(
            tree.value(reading, arith),
        ),
{
    lemma_run_tree(tree, reading, arith);
    lemma_tokens_are_words(line);
    lemma_words_are_written(tree);
    lemma_line_of_tree(tree, text(tree.value(reading, arith)));
}

/// A line that has a result is the postfix text of a well-formed
/// expression, and its result is the value and the infix notation of that
/// expression.
pub proof fn lemma_result_has_tree(
    line: Seq<char>,
    reading: Reading,
    arith: Arith,
) -> (tree: Tree)
    requires
        solved(line, reading, arith).has_result(),
    ensures
        tree.written(),
        tree.readable(reading),
        tree.postfix() == split(line),
        tree.value(reading, arith) != SENTINEL,
        solved(line, reading, arith).stacks == (Stacks {
            values: seq![tree.value(reading, arith)],
            displays: seq![tree.infix()],
        }),
{
    lemma_result_of_line_is_tree(line, reading, arith)
}

} // verus!
