//! Tokens: splitting a line on whitespace and telling operators from operands.

use vstd::prelude::*;

verus! {

/// The characters that separate tokens: the code points that carry the
/// Unicode property `White_Space`.
pub open spec fn is_space(c: char) -> bool {
    let n = c as u32;
    ||| 0x09 <= n <= 0x0D
    ||| n == 0x20
    ||| n == 0x85
    ||| n == 0xA0
    ||| n == 0x1680
    ||| 0x2000 <= n <= 0x200A
    ||| n == 0x2028
    ||| n == 0x2029
    ||| n == 0x202F
    ||| n == 0x205F
    ||| n == 0x3000
}

/// A token: at least one character, none of them a separator.
pub open spec fn is_word(w: Seq<char>) -> bool {
    w.len() > 0 && forall|k: int| 0 <= k < w.len() ==> !is_space(#[trigger] w[k])
}

/// Length of the longest prefix of `s` that holds no separator.
pub open spec fn word_len(s: Seq<char>) -> int
    decreases s.len(),
{
    if s.len() == 0 || is_space(s[0]) {
        0
    } else {
        1 + word_len(s.drop_first())
    }
}

/// The tokens of a line: its maximal runs of characters that are not
/// separators, from left to right.
pub open spec fn split(s: Seq<char>) -> Seq<Seq<char>>
    decreases s.len(),
    via split_decreases
{
    if s.len() == 0 {
        Seq::empty()
    } else if is_space(s[0]) {
        split(s.drop_first())
    } else {
        seq![s.take(word_len(s))] + split(s.skip(word_len(s)))
    }
}

#[via_fn]
proof fn split_decreases(s: Seq<char>) {
    lemma_word_len_bounds(s);
}

/// A line without tokens: every character of it, if it has any, is a separator.
pub open spec fn is_blank(s: Seq<char>) -> bool {
    forall|i: int| 0 <= i < s.len() ==> is_space(#[trigger] s[i])
}

/// The line that holds the given tokens with one space between neighbours.
pub open spec fn joined(tokens: Seq<Seq<char>>) -> Seq<char>
    decreases tokens.len(),
{
    if tokens.len() == 0 {
        Seq::empty()
    } else if tokens.len() == 1 {
        tokens[0]
    } else {
        joined(tokens.drop_last()) + seq![' '] + tokens.last()
    }
}

/// One of the four arithmetic operators.
#[derive(Clone, Copy, Debug, PartialEq, Eq, Structural)]
pub enum Operator {
    Add,
    Subtract,
    Multiply,
    Divide,
}

impl Operator {
    /// The character an operator is written with.
    pub open spec fn symbol(self) -> char {
        match self {
            Operator::Add => '+',
            Operator::Subtract => '-',
            Operator::Multiply => '*',
            Operator::Divide => '/',
        }
    }

    /// The operator as it stands in a line: its symbol alone.
    pub fn text(self) -> (t: &'static str)
        ensures
            t@ == seq![self.symbol()],
    {
        proof {
            reveal_strlit("+");
            reveal_strlit("-");
            reveal_strlit("*");
            reveal_strlit("/");
        }
        let t = match self {
            Operator::Add => "+",
            Operator::Subtract => "-",
            Operator::Multiply => "*",
            Operator::Divide => "/",
        };
        assert(t@ =~= seq![self.symbol()]);
        t
    }
}

/// What a token is: an operator, or a candidate for an operand.
#[derive(Clone, Copy, Debug, PartialEq, Eq, Structural)]
pub enum Token {
    Operand,
    Operator(Operator),
}

/// A token is an operator exactly when it is one of the four operator
/// symbols and nothing else; every other token is an operand candidate.
pub open spec fn kind_of(token: Seq<char>) -> Token {
    if token == seq!['+'] {
        Token::Operator(Operator::Add)
    } else if token == seq!['-'] {
        Token::Operator(Operator::Subtract)
    } else if token == seq!['*'] {
        Token::Operator(Operator::Multiply)
    } else if token == seq!['/'] {
        Token::Operator(Operator::Divide)
    } else {
        Token::Operand
    }
}

/// A word is at most the whole sequence, and is not empty where the
/// sequence starts with a character that is no separator.
pub proof fn lemma_word_len_bounds(s: Seq<char>)
    ensures
        0 <= word_len(s) <= s.len(),
        s.len() > 0 && !is_space(s[0]) ==> word_len(s) >= 1,
    decreases s.len(),
{
    if s.len() > 0 && !is_space(s[0]) {
        lemma_word_len_bounds(s.drop_first());
    }
}

/// The word at the start of `s` ends at `n` exactly when the first `n`
/// characters are no separators and a separator, or the end, follows.
pub proof fn lemma_word_len_is(s: Seq<char>, n: int)
    requires
        0 <= n <= s.len(),
        forall|k: int| 0 <= k < n ==> !is_space(#[trigger] s[k]),
        n < s.len() ==> is_space(s[n]),
    ensures
        word_len(s) == n,
    decreases n,
{
    if n > 0 {
        let rest = s.drop_first();
        assert forall|k: int| 0 <= k < n - 1 implies !is_space(#[trigger] rest[k]) by {
            assert(rest[k] == s[k + 1]);
        }
        lemma_word_len_is(rest, n - 1);
    }
}

/// The characters of the word at the start of `s` are no separators.
pub proof fn lemma_word_is_clean(s: Seq<char>)
    ensures
        forall|k: int| 0 <= k < word_len(s) ==> !is_space(#[trigger] s[k]),
        word_len(s) < s.len() ==> is_space(s[word_len(s)]),
    decreases s.len(),
{
    lemma_word_len_bounds(s);
    if s.len() > 0 && !is_space(s[0]) {
        let rest = s.drop_first();
        lemma_word_is_clean(rest);
        lemma_word_len_bounds(rest);
        assert forall|k: int| 0 <= k < word_len(s) implies !is_space(#[trigger] s[k]) by {
            if k > 0 {
                assert(s[k] == rest[k - 1]);
            }
        }
        if word_len(s) < s.len() {
            assert(s[word_len(s)] == rest[word_len(rest)]);
        }
    }
}

/// No token is empty and no token holds a separator.
pub proof fn lemma_tokens_are_words(s: Seq<char>)
    ensures
        forall|i: int| 0 <= i < split(s).len() ==> is_word(#[trigger] split(s)[i]),
    decreases s.len(),
{
    if s.len() == 0 {
        assert(split(s).len() == 0);
    } else if is_space(s[0]) {
        lemma_tokens_are_words(s.drop_first());
        assert(split(s) == split(s.drop_first()));
    } else {
        let n = word_len(s);
        lemma_word_len_bounds(s);
        lemma_word_is_clean(s);
        lemma_tokens_are_words(s.skip(n));
        assert(split(s) == seq![s.take(n)] + split(s.skip(n)));
        let rest = split(s.skip(n));
        assert(is_word(s.take(n)));
        assert forall|i: int| 0 <= i < split(s).len() implies is_word(#[trigger] split(s)[i]) by {
            if i > 0 {
                assert(split(s)[i] == rest[i - 1]);
            }
        }
    }
}

/// A run of characters without a separator is one token.
pub proof fn lemma_split_word(w: Seq<char>)
    requires
        is_word(w),
    ensures
        split(w) == seq![w],
{
    lemma_word_len_is(w, w.len() as int);
    assert(w.take(w.len() as int) == w);
    assert(split(w.skip(w.len() as int)) == Seq::<Seq<char>>::empty());
    assert(split(w) == seq![w] + Seq::<Seq<char>>::empty());
}

/// A separator between two pieces of text keeps their tokens apart: the
/// tokens of the whole are those of the left piece, then those of the right.
pub proof fn lemma_split_at_space(a: Seq<char>, c: char, b: Seq<char>)
    requires
        is_space(c),
    ensures
        split(a + seq![c] + b) == split(a) + split(b),
    decreases a.len(),
{
    let s = a + seq![c] + b;
    if a.len() == 0 {
        assert(s.drop_first() == b);
        assert(split(a) + split(b) == split(b));
    } else if is_space(a[0]) {
        assert(s.drop_first() == a.drop_first() + seq![c] + b);
        lemma_split_at_space(a.drop_first(), c, b);
    } else {
        let n = word_len(a);
        lemma_word_len_bounds(a);
        lemma_word_is_clean(a);
        assert forall|k: int| 0 <= k < n implies !is_space(#[trigger] s[k]) by {
            assert(s[k] == a[k]);
        }
        if n < a.len() {
            assert(s[n] == a[n]);
        } else {
            assert(s[n] == c);
        }
        lemma_word_len_is(s, n);
        assert(s.take(n) == a.take(n));
        if n < a.len() {
            assert(s.skip(n) == a.skip(n) + seq![c] + b);
            lemma_split_at_space(a.skip(n), c, b);
            assert(split(s) == seq![a.take(n)] + (split(a.skip(n)) + split(b)));
            assert(split(s) == (seq![a.take(n)] + split(a.skip(n))) + split(b));
        } else {
            assert(s.skip(n) == seq![c] + b);
            assert((seq![c] + b).drop_first() == b);
            assert(split(seq![c] + b) == split(b));
            assert(split(a.skip(n)) == Seq::<Seq<char>>::empty());
            assert(split(a) == seq![a.take(n)] + Seq::<Seq<char>>::empty());
            assert(split(s) == seq![a.take(n)] + split(b));
        }
    }
}

/// A line has no token exactly when it is blank.
pub proof fn lemma_blank_has_no_tokens(s: Seq<char>)
    ensures
        is_blank(s) <==> split(s).len() == 0,
    decreases s.len(),
{
    if s.len() == 0 {
    } else if is_space(s[0]) {
        let rest = s.drop_first();
        lemma_blank_has_no_tokens(rest);
        if is_blank(rest) {
            assert forall|i: int| 0 <= i < s.len() implies is_space(#[trigger] s[i]) by {
                if i > 0 {
                    assert(s[i] == rest[i - 1]);
                }
            }
        }
        if is_blank(s) {
            assert forall|i: int| 0 <= i < rest.len() implies is_space(#[trigger] rest[i]) by {
                assert(rest[i] == s[i + 1]);
            }
        }
    } else {
        assert(split(s).len() >= 1);
    }
}

/// Splitting undoes joining: the tokens of a line written from words are
/// those words.
pub proof fn lemma_split_joined(tokens: Seq<Seq<char>>)
    requires
        forall|i: int| 0 <= i < tokens.len() ==> is_word(#[trigger] tokens[i]),
    ensures
        split(joined(tokens)) == tokens,
    decreases tokens.len(),
{
    if tokens.len() == 0 {
        assert(split(joined(tokens)) =~= tokens);
    } else if tokens.len() == 1 {
        lemma_split_word(tokens[0]);
        assert(seq![tokens[0]] =~= tokens);
    } else {
        let front = tokens.drop_last();
        let last = tokens.last();
        assert forall|i: int| 0 <= i < front.len() implies is_word(#[trigger] front[i]) by {
            assert(front[i] == tokens[i]);
        }
        lemma_split_joined(front);
        lemma_split_word(last);
        lemma_split_at_space(joined(front), ' ', last);
        assert(front + seq![last] =~= tokens);
    }
}

/// Tells whether `c` separates tokens.
pub fn is_whitespace(c: char) -> (b: bool)
    ensures
        b == is_space(c),
{
    let n: u32 = c as u32;
    (0x09 <= n && n <= 0x0D) || n == 0x20 || n == 0x85 || n == 0xA0 || n == 0x1680 || (0x2000 <= n
        && n <= 0x200A) || n == 0x2028 || n == 0x2029 || n == 0x202F || n == 0x205F || n == 0x3000
}

/// The token that starts at `start` ends at `end`: what precedes the rest
/// of the line's tokens is the text between the two.
proof fn lemma_split_next(s: Seq<char>, start: int, end: int)
    requires
        0 <= start < end <= s.len(),
        forall|k: int| start <= k < end ==> !is_space(#[trigger] s[k]),
        end < s.len() ==> is_space(s[end]),
    ensures
        split(s.skip(start)) == seq![s.subrange(start, end)] + split(s.skip(end)),
{
    let t = s.skip(start);
    assert forall|k: int| 0 <= k < end - start implies !is_space(#[trigger] t[k]) by {
        assert(t[k] == s[start + k]);
    }
    if end < s.len() {
        assert(t[end - start] == s[end]);
    }
    lemma_word_len_is(t, end - start);
    assert(t.take(end - start) == s.subrange(start, end));
    assert(t.skip(end - start) == s.skip(end));
}

/// Splits a line into its tokens: the runs of characters between
/// separators, from left to right. No token is empty.
pub fn tokenize<'a>(line: &'a str) -> (tokens: Vec<&'a str>)
    ensures
        tokens.deep_view() == split(line@),
        forall|i: int| 0 <= i < tokens.len() ==> is_word(#[trigger] tokens[i]@),
{
    let mut tokens: Vec<&'a str> = Vec::new();
    let mut start: usize = 0;
    let mut in_word = false;
    let mut i: usize = 0;
    let count = line.unicode_len();
    let ghost s = line@;
    proof {
        assert(s.skip(0) == s);
        assert(tokens.deep_view() + split(s.skip(0)) == split(s));
    }
    for c in it: line.chars()
        invariant
            s == line@,
            it.seq() == s,
            i == it.index(),
            count == s.len(),
            in_word ==> start < i,
            in_word ==> forall|k: int| start <= k < i ==> !is_space(#[trigger] s[k]),
            tokens.deep_view() + split(
                s.skip(
                    if in_word {
                        start as int
                    } else {
                        i as int
                    },
                ),
            ) == split(s),
    {
        assert(c == s[i as int]);
        if is_whitespace(c) {
            if in_word {
                let word = line.substring_char(start, i);
                proof {
                    lemma_split_next(s, start as int, i as int);
                    assert(tokens.deep_view().push(word@) + split(s.skip(i as int))
                        == tokens.deep_view() + split(s.skip(start as int)));
                }
                let ghost before = tokens.deep_view();
                tokens.push(word);
                assert(tokens.deep_view() == before.push(word@));
                in_word = false;
            }
            proof {
                assert(s.skip(i as int).drop_first() == s.skip(i + 1));
                assert(split(s.skip(i as int)) == split(s.skip(i + 1)));
            }
        } else if !in_word {
            start = i;
            in_word = true;
        }
        i = i + 1;
    }
    if in_word {
        let word = line.substring_char(start, i);
        proof {
            lemma_split_next(s, start as int, i as int);
            assert(split(s.skip(i as int)) == Seq::<Seq<char>>::empty());
            assert(tokens.deep_view().push(word@) == tokens.deep_view() + split(
                s.skip(start as int),
            ));
        }
        let ghost before = tokens.deep_view();
        tokens.push(word);
        assert(tokens.deep_view() == before.push(word@));
    } else {
        assert(split(s.skip(i as int)) == Seq::<Seq<char>>::empty());
        assert(tokens.deep_view() + Seq::<Seq<char>>::empty() == tokens.deep_view());
    }
    proof {
        lemma_tokens_are_words(s);
        assert forall|i: int| 0 <= i < tokens.len() implies is_word(#[trigger] tokens[i]@) by {
            assert(tokens[i]@ == tokens.deep_view()[i]);
        }
    }
    tokens
}

/// Tells whether a line is blank: empty, or made of separators alone.
pub fn is_blank_line(line: &str) -> (blank: bool)
    ensures
        blank == is_blank(line@),
{
    for c in it: line.chars()
        invariant
            it.seq() == line@,
            forall|k: int| 0 <= k < it.index() ==> is_space(#[trigger] line@[k]),
    {
        if !is_whitespace(c) {
            assert(!is_space(line@[it.index() as int]));
            return false;
        }
    }
    true
}

/// Classifies a token.
pub fn classify(token: &str) -> (kind: Token)
    ensures
        kind == kind_of(token@),
{
    if token.unicode_len() != 1 {
        return Token::Operand;
    }
    let c = token.get_char(0);
    assert(token@ =~= seq![c]);
    if c == '+' {
        Token::Operator(Operator::Add)
    } else if c == '-' {
        Token::Operator(Operator::Subtract)
    } else if c == '*' {
        Token::Operator(Operator::Multiply)
    } else if c == '/' {
        Token::Operator(Operator::Divide)
    } else {
        assert(seq![c][0] == c);
        Token::Operand
    }
}

/// Tells whether a token is one of `+`, `-`, `*`, `/`.
pub fn is_operator(op: &str) -> (b: bool)
    ensures
        b == (kind_of(op@) is Operator),
        b == (op@ == seq!['+'] || op@ == seq!['-'] || op@ == seq!['*'] || op@ == seq!['/']),
{
    match classify(op) {
        Token::Operator(_) => true,
        Token::Operand => false,
    }
}

} // verus!
