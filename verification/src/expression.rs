//! The evaluator: a stack of values and a stack of infix texts, moved in
//! lockstep by the tokens of one postfix expression.

use crate::token::{classify, kind_of, split, tokenize, Operator, Token};
use crate::value::{key_of, sort_key, LAST, SENTINEL};
use vstd::prelude::*;

verus! {

/// Why an expression has no result.
#[derive(Debug, PartialEq, Eq)]
pub enum EvalError {
    /// A token that is no operator could not be read as a number.
    InvalidOperand(String),
    /// An operator found fewer than two operands, or the expression did not
    /// end with exactly one result.
    MalformedExpression,
}

/// An `EvalError` as a mathematical value.
pub enum Failure {
    InvalidOperand(Seq<char>),
    MalformedExpression,
}

impl View for EvalError {
    type V = Failure;

    open spec fn view(&self) -> Failure {
        match self {
            EvalError::InvalidOperand(token) => Failure::InvalidOperand(token@),
            EvalError::MalformedExpression => Failure::MalformedExpression,
        }
    }
}

/// The two stacks of an evaluation as mathematical sequences, bottom first.
pub struct Stacks {
    pub values: Seq<u64>,
    pub displays: Seq<Seq<char>>,
}

/// The infix text of an operator applied to two operands.
pub open spec fn infix(lhs: Seq<char>, op: Operator, rhs: Seq<char>) -> Seq<char> {
    seq!['('] + lhs + seq![' ', op.symbol(), ' '] + rhs + seq![')']
}

impl Stacks {
    pub open spec fn empty() -> Stacks {
        Stacks { values: Seq::empty(), displays: Seq::empty() }
    }

    /// Every value has its text and every text its value.
    pub open spec fn lockstep(self) -> bool {
        self.values.len() == self.displays.len()
    }

    /// An operator can be applied: both stacks hold two entries or more.
    pub open spec fn reducible(self) -> bool {
        self.values.len() >= 2 && self.displays.len() >= 2
    }

    /// The left operand of the next operator: the value pushed first.
    pub open spec fn lhs(self) -> u64 {
        self.values[self.values.len() - 2]
    }

    /// The right operand of the next operator: the value pushed last.
    pub open spec fn rhs(self) -> u64 {
        self.values[self.values.len() - 1]
    }

    /// The stacks after an operand was pushed.
    pub open spec fn push(self, value: u64, display: Seq<char>) -> Stacks {
        Stacks { values: self.values.push(value), displays: self.displays.push(display) }
    }

    /// The stacks after `op` replaced the two top entries by `answer` and by
    /// the infix text of the operation.
    pub open spec fn reduce(self, op: Operator, answer: u64) -> Stacks {
        Stacks {
            values: self.values.take(self.values.len() - 2).push(answer),
            displays: self.displays.take(self.displays.len() - 2).push(
                infix(
                    self.displays[self.displays.len() - 2],
                    op,
                    self.displays[self.displays.len() - 1],
                ),
            ),
        }
    }
}

/// Which number a text stands for, if it stands for one.
pub type Reading = spec_fn(Seq<char>) -> Option<u64>;

/// What an operator makes of two numbers, the left one first.
pub type Arith = spec_fn(Operator, u64, u64) -> u64;

/// How far an evaluation got: the stacks, and the failure that stopped it.
pub struct Progress {
    pub stacks: Stacks,
    pub failure: Option<Failure>,
}

/// The effect of an operand token, given what was read from it: the number
/// and the token are pushed, or the token is reported as unreadable and the
/// stacks stay as they were.
pub open spec fn operand_step(stacks: Stacks, token: Seq<char>, parsed: Option<u64>) -> Progress {
    match parsed {
        Some(value) => Progress { stacks: stacks.push(value, token), failure: None },
        None => Progress { stacks, failure: Some(Failure::InvalidOperand(token)) },
    }
}

/// The effect of an operator, given the result of its operation: the result
/// takes the place of the two operands, or, where there are no two
/// operands, the expression is reported as malformed and the stacks stay as
/// they were.
pub open spec fn operator_step(stacks: Stacks, op: Operator, answer: u64) -> Progress {
    if stacks.reducible() {
        Progress { stacks: stacks.reduce(op, answer), failure: None }
    } else {
        Progress { stacks, failure: Some(Failure::MalformedExpression) }
    }
}

/// The effect of one token. `reading` says which number a text stands for,
/// if any; `arith` says what an operator makes of two numbers, the one
/// pushed first on the left.
pub open spec fn advance(
    stacks: Stacks,
    token: Seq<char>,
    reading: Reading,
    arith: Arith,
) -> Progress {
    match kind_of(token) {
        Token::Operator(op) => operator_step(stacks, op, arith(op, stacks.lhs(), stacks.rhs())),
        Token::Operand => operand_step(stacks, token, reading(token)),
    }
}

/// The effect of a sequence of tokens, taken from left to right up to the
/// first one that fails.
pub open spec fn run_from(
    stacks: Stacks,
    tokens: Seq<Seq<char>>,
    reading: Reading,
    arith: Arith,
) -> Progress
    decreases tokens.len(),
{
    if tokens.len() == 0 {
        Progress { stacks, failure: None }
    } else {
        let first = advance(stacks, tokens[0], reading, arith);
        if first.failure is Some {
            first
        } else {
            run_from(first.stacks, tokens.drop_first(), reading, arith)
        }
    }
}

/// The evaluation of a line of text from empty stacks.
pub open spec fn run(
    line: Seq<char>,
    reading: Reading,
    arith: Arith,
) -> Progress {
    run_from(Stacks::empty(), split(line), reading, arith)
}

/// `parse` returns nothing but what `reading` says of the text it is given.
pub open spec fn parses_as<P: Fn(&str) -> Option<u64>>(
    parse: P,
    reading: Reading,
) -> bool {
    forall|text: &str, parsed: Option<u64>| #[trigger]
        call_ensures(parse, (text,), parsed) ==> parsed == reading(text@)
}

/// `apply` returns nothing but what `arith` says of its arguments.
pub open spec fn computes_as<A: Fn(Operator, u64, u64) -> u64>(
    apply: A,
    arith: Arith,
) -> bool {
    forall|op: Operator, lhs: u64, rhs: u64, answer: u64| #[trigger]
        call_ensures(apply, (op, lhs, rhs), answer) ==> answer == arith(op, lhs, rhs)
}

/// `step` is an effect that an operand token can have, given what `parse`
/// may return for its text.
pub open spec fn may_read<P: Fn(&str) -> Option<u64>>(
    parse: P,
    stacks: Stacks,
    token: Seq<char>,
    step: Progress,
) -> bool {
    exists|text: &str, parsed: Option<u64>|
        text@ == token && #[trigger] call_ensures(parse, (text,), parsed) && step == operand_step(
            stacks,
            token,
            parsed,
        )
}

/// `step` is an effect that an operator can have, given what `apply` may
/// return for the two operands. Where there are no two operands, `apply` is
/// not asked.
pub open spec fn may_apply<A: Fn(Operator, u64, u64) -> u64>(
    apply: A,
    stacks: Stacks,
    op: Operator,
    step: Progress,
) -> bool {
    exists|answer: u64|
        #![trigger operator_step(stacks, op, answer)]
        step == operator_step(stacks, op, answer) && (stacks.reducible() ==> call_ensures(
            apply,
            (op, stacks.lhs(), stacks.rhs()),
            answer,
        ))
}

/// `step` is an effect that one token can have, given what `parse` and
/// `apply` may return.
pub open spec fn may_advance<P: Fn(&str) -> Option<u64>, A: Fn(Operator, u64, u64) -> u64>(
    parse: P,
    apply: A,
    stacks: Stacks,
    token: Seq<char>,
    step: Progress,
) -> bool {
    match kind_of(token) {
        Token::Operator(op) => may_apply(apply, stacks, op, step),
        Token::Operand => may_read(parse, stacks, token, step),
    }
}

/// `end` is a way in which the evaluation of `tokens` can end, given what
/// `parse` and `apply` may return. Nothing is asked of the two but that
/// they return: they need not answer the same question twice alike.
pub open spec fn may_run<P: Fn(&str) -> Option<u64>, A: Fn(Operator, u64, u64) -> u64>(
    parse: P,
    apply: A,
    stacks: Stacks,
    tokens: Seq<Seq<char>>,
    end: Progress,
) -> bool
    decreases tokens.len(),
{
    if tokens.len() == 0 {
        end == (Progress { stacks, failure: None })
    } else {
        exists|step: Progress| #[trigger]
            may_advance(parse, apply, stacks, tokens[0], step) && if step.failure is Some {
                end == step
            } else {
                may_run(parse, apply, step.stacks, tokens.drop_first(), end)
            }
    }
}

/// The stacks of an expression that has no usable result: the sentinel
/// alone as its value, and no text.
pub open spec fn failed() -> Stacks {
    Stacks { values: seq![SENTINEL], displays: Seq::empty() }
}

/// What is kept of an evaluation. It has a result where no token failed and
/// exactly one value is left, with its text; every other evaluation has
/// failed.
pub open spec fn settled(end: Progress) -> Stacks {
    if end.failure is None && end.stacks.values.len() == 1 && end.stacks.displays.len() == 1 {
        end.stacks
    } else {
        failed()
    }
}

/// One postfix expression: the line it was written as, and the two stacks
/// of its evaluation.
#[derive(Debug)]
pub struct Expression {
    source: String,
    values: Vec<u64>,
    displays: Vec<String>,
}

/// An `Expression` as a mathematical value.
pub struct ExpressionView {
    pub source: Seq<char>,
    pub stacks: Stacks,
}

impl View for Expression {
    type V = ExpressionView;

    closed spec fn view(&self) -> ExpressionView {
        ExpressionView { source: self.source@, stacks: stacks_of(self.values, self.displays) }
    }
}

impl DeepView for Expression {
    type V = ExpressionView;

    open spec fn deep_view(&self) -> ExpressionView {
        self@
    }
}

impl ExpressionView {
    /// What holds of every expression that this library has made: its
    /// stacks are in lockstep, or it is marked as failed.
    pub open spec fn well_formed(self) -> bool {
        self.stacks.lockstep() || self.stacks == failed()
    }

    /// The key by which an expression is ordered: that of its first value.
    /// An expression without a value is ordered last.
    pub open spec fn rank(self) -> int {
        if self.stacks.values.len() > 0 {
            sort_key(self.stacks.values[0])
        } else {
            LAST as int
        }
    }

    /// The expression has a result to show: a first value that is not the
    /// sentinel, and a text for it.
    pub open spec fn has_result(self) -> bool {
        &&& self.stacks.values.len() > 0
        &&& self.stacks.displays.len() > 0
        &&& self.stacks.values[0] != SENTINEL
    }
}

/// The stacks held by two vectors.
pub open spec fn stacks_of(values: Vec<u64>, displays: Vec<String>) -> Stacks {
    Stacks { values: values@, displays: displays.deep_view() }
}

/// The failure that an outcome reports, if it reports one.
pub open spec fn failure_of(outcome: Result<(), EvalError>) -> Option<Failure> {
    match outcome {
        Ok(_) => None,
        Err(e) => Some(e@),
    }
}

/// What a step on two vectors came to: the stacks they hold now, and the
/// failure that was reported.
pub open spec fn progress_of(
    values: Vec<u64>,
    displays: Vec<String>,
    outcome: Result<(), EvalError>,
) -> Progress {
    Progress { stacks: stacks_of(values, displays), failure: failure_of(outcome) }
}

/// One token keeps the stacks in lockstep.
pub proof fn lemma_advance_keeps_lockstep(
    stacks: Stacks,
    token: Seq<char>,
    reading: Reading,
    arith: Arith,
)
    requires
        stacks.lockstep(),
    ensures
        advance(stacks, token, reading, arith).stacks.lockstep(),
{
}

/// The stacks are in lockstep at every point of an evaluation: whatever
/// the tokens, stacks that start in lockstep end in lockstep, and `tokens`
/// may be any prefix of a line.
pub proof fn lemma_run_keeps_lockstep(
    stacks: Stacks,
    tokens: Seq<Seq<char>>,
    reading: Reading,
    arith: Arith,
)
    requires
        stacks.lockstep(),
    ensures
        run_from(stacks, tokens, reading, arith).stacks.lockstep(),
    decreases tokens.len(),
{
    if tokens.len() > 0 {
        let first = advance(stacks, tokens[0], reading, arith);
        lemma_advance_keeps_lockstep(stacks, tokens[0], reading, arith);
        if first.failure is None {
            lemma_run_keeps_lockstep(first.stacks, tokens.drop_first(), reading, arith);
        }
    }
}

/// An evaluation fails where one of its tokens is no operator and stands
/// for no number.
pub proof fn lemma_unreadable_operand_fails(
    stacks: Stacks,
    tokens: Seq<Seq<char>>,
    i: int,
    reading: Reading,
    arith: Arith,
)
    requires
        0 <= i < tokens.len(),
        kind_of(tokens[i]) is Operand,
        reading(tokens[i]) is None,
    ensures
        run_from(stacks, tokens, reading, arith).failure is Some,
    decreases tokens.len(),
{
    let first = advance(stacks, tokens[0], reading, arith);
    if i > 0 && first.failure is None {
        assert(tokens.drop_first()[i - 1] == tokens[i]);
        lemma_unreadable_operand_fails(first.stacks, tokens.drop_first(), i - 1, reading, arith);
    }
}

/// Where `parse` and `apply` are functions, an evaluation can end in one
/// way only: as `run_from` says.
pub proof fn lemma_may_run_is_run<P: Fn(&str) -> Option<u64>, A: Fn(Operator, u64, u64) -> u64>(
    parse: P,
    apply: A,
    stacks: Stacks,
    tokens: Seq<Seq<char>>,
    end: Progress,
    reading: Reading,
    arith: Arith,
)
    requires
        may_run(parse, apply, stacks, tokens, end),
        parses_as(parse, reading),
        computes_as(apply, arith),
    ensures
        end == run_from(stacks, tokens, reading, arith),
    decreases tokens.len(),
{
    if tokens.len() > 0 {
        let step = choose|step: Progress| #[trigger]
            may_advance(parse, apply, stacks, tokens[0], step) && if step.failure is Some {
                end == step
            } else {
                may_run(parse, apply, step.stacks, tokens.drop_first(), end)
            };
        assert(step == advance(stacks, tokens[0], reading, arith));
        if step.failure is None {
            lemma_may_run_is_run(
                parse,
                apply,
                step.stacks,
                tokens.drop_first(),
                end,
                reading,
                arith,
            );
        }
    }
}

/// An evaluation that goes on after a token can end as the rest of it can.
pub proof fn lemma_may_run_step<P: Fn(&str) -> Option<u64>, A: Fn(Operator, u64, u64) -> u64>(
    parse: P,
    apply: A,
    stacks: Stacks,
    tokens: Seq<Seq<char>>,
    step: Progress,
    end: Progress,
)
    requires
        tokens.len() > 0,
        may_advance(parse, apply, stacks, tokens[0], step),
        step.failure is Some ==> end == step,
        step.failure is None ==> may_run(parse, apply, step.stacks, tokens.drop_first(), end),
    ensures
        may_run(parse, apply, stacks, tokens, end),
{
}

/// Builds the infix text of an operator applied to two operands.
pub fn infix_text(lhs: &str, op: Operator, rhs: &str) -> (text: String)
    ensures
        text@ == infix(lhs@, op, rhs@),
{
    let mut text = String::from_str("(");
    text.append(lhs);
    text.append(" ");
    text.append(op.text());
    text.append(" ");
    text.append(rhs);
    text.append(")");
    proof {
        reveal_strlit("(");
        reveal_strlit(" ");
        reveal_strlit(")");
        assert(text@ =~= infix(lhs@, op, rhs@));
    }
    text
}

/// Pushes an operand that was read from `token`, or fails where the token
/// could not be read as a number.
pub fn push_operand(
    token: &str,
    parsed: Option<u64>,
    values: &mut Vec<u64>,
    displays: &mut Vec<String>,
) -> (outcome: Result<(), EvalError>)
    ensures
        progress_of(*final(values), *final(displays), outcome) == operand_step(
            stacks_of(*old(values), *old(displays)),
            token@,
            parsed,
        ),
{
    match parsed {
        Some(value) => {
            values.push(value);
            displays.push(String::from_str(token));
            assert(displays.deep_view() =~= old(displays).deep_view().push(token@));
            Ok(())
        },
        None => Err(EvalError::InvalidOperand(String::from_str(token))),
    }
}

/// Replaces the two top entries of both stacks by the result of `op`:
/// `answer`, and the infix text of the operation. Fails, and leaves the
/// stacks alone, where either stack holds fewer than two entries.
pub fn reduce(
    op: Operator,
    answer: u64,
    values: &mut Vec<u64>,
    displays: &mut Vec<String>,
) -> (outcome: Result<(), EvalError>)
    ensures
        progress_of(*final(values), *final(displays), outcome) == operator_step(
            stacks_of(*old(values), *old(displays)),
            op,
            answer,
        ),
{
    if values.len() < 2 || displays.len() < 2 {
        return Err(EvalError::MalformedExpression);
    }
    let ghost before = stacks_of(*values, *displays);
    values.pop();
    values.pop();
    values.push(answer);
    let rhs = displays.pop().unwrap();
    let lhs = displays.pop().unwrap();
    displays.push(infix_text(lhs.as_str(), op, rhs.as_str()));
    proof {
        assert(values@ =~= before.reduce(op, answer).values);
        assert(displays.deep_view() =~= before.reduce(op, answer).displays);
    }
    Ok(())
}

/// Applies `op` to the two top values: asks `apply` for the result of the
/// value pushed first and the value pushed last, in that order, and puts
/// the result in their place. Fails, without asking, where either stack
/// holds fewer than two entries.
pub fn perform_op<A: Fn(Operator, u64, u64) -> u64>(
    op: Operator,
    apply: &A,
    values: &mut Vec<u64>,
    displays: &mut Vec<String>,
) -> (outcome: Result<(), EvalError>)
    requires
        forall|o: Operator, a: u64, b: u64| call_requires(*apply, (o, a, b)),
    ensures
        outcome is Ok <==> stacks_of(*old(values), *old(displays)).reducible(),
        may_apply(
            *apply,
            stacks_of(*old(values), *old(displays)),
            op,
            progress_of(*final(values), *final(displays), outcome),
        ),
{
    let depth = values.len();
    if depth < 2 || displays.len() < 2 {
        let ghost before = stacks_of(*values, *displays);
        assert(operator_step(before, op, 0) == (Progress {
            stacks: before,
            failure: Some(Failure::MalformedExpression),
        }));
        return Err(EvalError::MalformedExpression);
    }
    let answer = apply(op, values[depth - 2], values[depth - 1]);
    reduce(op, answer, values, displays)
}

impl Expression {
    /// An expression that was not evaluated yet.
    pub fn new(input_line: String) -> (expression: Expression)
        ensures
            expression@ == (ExpressionView { source: input_line@, stacks: Stacks::empty() }),
            expression@.well_formed(),
    {
        let expression = Expression {
            source: input_line,
            values: Vec::new(),
            displays: Vec::new(),
        };
        assert(expression.displays.deep_view() =~= Seq::<Seq<char>>::empty());
        expression
    }

    /// The line the expression was written as.
    pub fn source(&self) -> (source: &str)
        ensures
            source@ == self@.source,
    {
        self.source.as_str()
    }

    /// The stack of values, bottom first.
    pub fn values(&self) -> (values: &Vec<u64>)
        ensures
            values@ == self@.stacks.values,
    {
        &self.values
    }

    /// The stack of infix texts, bottom first.
    pub fn displays(&self) -> (displays: &Vec<String>)
        ensures
            displays.deep_view() == self@.stacks.displays,
    {
        &self.displays
    }

    /// Marks the expression as one without a usable result.
    pub fn fail(&mut self)
        ensures
            final(self)@ == (ExpressionView { source: old(self)@.source, stacks: failed() }),
            final(self)@.well_formed(),
    {
        self.values.clear();
        self.values.push(SENTINEL);
        self.displays.clear();
        assert(self.values@ =~= seq![SENTINEL]);
        assert(self.displays.deep_view() =~= Seq::<Seq<char>>::empty());
    }

    /// The key by which the expression is ordered.
    pub fn rank(&self) -> (key: i64)
        ensures
            key == self@.rank(),
    {
        if self.values.len() > 0 {
            key_of(self.values[0])
        } else {
            LAST
        }
    }

    /// Evaluates the expression from empty stacks: takes the tokens of the
    /// line from left to right, asks `parse` for the number of each operand
    /// and `apply` for the result of each operator, and stops at the first
    /// token that fails, with the stacks as that token found them.
    pub fn solve<P: Fn(&str) -> Option<u64>, A: Fn(Operator, u64, u64) -> u64>(
        &mut self,
        parse: &P,
        apply: &A,
    ) -> (outcome: Result<(), EvalError>)
        requires
            forall|text: &str| call_requires(*parse, (text,)),
            forall|o: Operator, a: u64, b: u64| call_requires(*apply, (o, a, b)),
        ensures
            final(self)@.source == old(self)@.source,
            final(self)@.stacks.lockstep(),
            may_run(
                *parse,
                *apply,
                Stacks::empty(),
                split(old(self)@.source),
                Progress { stacks: final(self)@.stacks, failure: failure_of(outcome) },
            ),
            forall|reading: Reading, arith: Arith|
                #![trigger parses_as(*parse, reading), computes_as(*apply, arith)]
                parses_as(*parse, reading) && computes_as(*apply, arith) ==> {
                    let end = run(old(self)@.source, reading, arith);
                    &&& final(self)@.stacks == end.stacks
                    &&& failure_of(outcome) == end.failure
                },
    {
        let tokens = tokenize(self.source.as_str());
        self.values.clear();
        self.displays.clear();
        let ghost texts = tokens.deep_view();
        proof {
            assert(texts.skip(0) == texts);
            assert(self.displays.deep_view() =~= Seq::<Seq<char>>::empty());
        }
        let count = tokens.len();
        let mut next: usize = 0;
        let mut outcome: Result<(), EvalError> = Ok(());
        assert(stacks_of(self.values, self.displays) == Stacks::empty());
        while next < count
            invariant_except_break
                outcome is Ok,
                next == count ==> may_run(
                    *parse,
                    *apply,
                    Stacks::empty(),
                    texts,
                    Progress { stacks: stacks_of(self.values, self.displays), failure: None },
                ),
                forall|end: Progress| #[trigger]
                    may_run(
                        *parse,
                        *apply,
                        stacks_of(self.values, self.displays),
                        texts.skip(next as int),
                        end,
                    ) ==> may_run(*parse, *apply, Stacks::empty(), texts, end),
            invariant
                next <= count,
                count == tokens.len(),
                texts == tokens.deep_view(),
                texts == split(self.source@),
                self.source@ == old(self).source@,
                stacks_of(self.values, self.displays).lockstep(),
                forall|text: &str| call_requires(*parse, (text,)),
                forall|o: Operator, a: u64, b: u64| call_requires(*apply, (o, a, b)),
            ensures
                may_run(
                    *parse,
                    *apply,
                    Stacks::empty(),
                    texts,
                    Progress {
                        stacks: stacks_of(self.values, self.displays),
                        failure: failure_of(outcome),
                    },
                ),
            decreases count - next,
        {
            let token = tokens[next];
            let ghost before = stacks_of(self.values, self.displays);
            let ghost rest = texts.skip(next as int);
            assert(rest[0] == token@);
            assert(rest.drop_first() == texts.skip(next + 1));
            let step = match classify(token) {
                Token::Operator(op) => perform_op(op, apply, &mut self.values, &mut self.displays),
                Token::Operand => {
                    let parsed = parse(token);
                    push_operand(token, parsed, &mut self.values, &mut self.displays)
                },
            };
            let ghost after = progress_of(self.values, self.displays, step);
            assert(may_advance(*parse, *apply, before, token@, after));
            if step.is_err() {
                proof {
                    lemma_may_run_step(*parse, *apply, before, rest, after, after);
                }
                outcome = step;
                break ;
            }
            proof {
                assert forall|end: Progress| #[trigger]
                    may_run(
                        *parse,
                        *apply,
                        after.stacks,
                        texts.skip(next + 1),
                        end,
                    ) implies may_run(*parse, *apply, Stacks::empty(), texts, end) by {
                    lemma_may_run_step(*parse, *apply, before, rest, after, end);
                }
                if next + 1 == count {
                    assert(texts.skip(next + 1).len() == 0);
                    assert(may_run(
                        *parse,
                        *apply,
                        after.stacks,
                        texts.skip(next + 1),
                        Progress { stacks: after.stacks, failure: None },
                    ));
                }
            }
            next = next + 1;
        }
        proof {
            let end = Progress {
                stacks: stacks_of(self.values, self.displays),
                failure: failure_of(outcome),
            };
            assert forall|reading: Reading, arith: Arith|
                #![trigger parses_as(*parse, reading), computes_as(*apply, arith)]
                parses_as(*parse, reading) && computes_as(*apply, arith) implies end == run(
                old(self)@.source,
                reading,
                arith,
            ) by {
                lemma_may_run_is_run(*parse, *apply, Stacks::empty(), texts, end, reading, arith);
            }
        }
        outcome
    }
}

} // verus!
