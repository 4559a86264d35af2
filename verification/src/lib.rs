//! Evaluation of postfix (reverse Polish) arithmetic over the four basic
//! operators, with reconstruction of the parenthesized infix form.
//!
//! An input is a sequence of lines, each a postfix expression whose tokens
//! are separated by whitespace. Every line is evaluated on two stacks, one
//! of values and one of infix texts, that move in lockstep. The results are
//! ordered by value and laid out as lines of the form `<infix> = <value>`.
//!
//! Values are IEEE-754 binary64 numbers, carried through this library as
//! their 64-bit patterns. The library decides everything about tokens, stack
//! discipline, failure, ordering and layout. Reading a number from a token,
//! the arithmetic on two numbers and the decimal text of a number are the
//! caller's: they are handed in as functions on bit patterns, and every
//! contract says what holds whatever these functions return, and what holds
//! exactly where they are functions in the mathematical sense.
//!
//! What the library settles:
//!
//! - A line fails where a token is neither an operator nor a number, where
//!   an operator finds fewer than two operands, and where the line does not
//!   end with exactly one value. A failed line gets no line in the output
//!   and does not disturb the others.
//! - A failed expression holds the sentinel, the pattern of the largest
//!   finite number, as its only value. An expression whose result is that
//!   number is indistinguishable from a failed one and is not shown either.
//! - Division by zero is no failure: an infinity, or what is not a number,
//!   is a result like any other and is shown.
//! - Results are ordered as numbers, negative infinity first and positive
//!   infinity last. What is not a number comes behind every number,
//!   together with the failed expressions. Equal results keep the order of
//!   their lines.
//! - The infix text of an operation is shown without its outermost pair of
//!   parentheses; a single operand is shown as it was written.
//! - Evaluating an expression again starts from empty stacks.
//!
//! The modules, from the leaves up: [`token`] splits and classifies,
//! [`value`] reads bit patterns, [`expression`] evaluates one line,
//! [`tree`] says what an evaluation computes, [`batch`] evaluates many
//! lines, [`order`] sorts, [`format`] lays out, [`pipeline`] joins them.

pub mod batch;
pub mod expression;
pub mod format;
pub mod order;
pub mod pipeline;
pub mod token;
pub mod tree;
pub mod value;
