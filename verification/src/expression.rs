//! Arithmetic expressions, from text to postfix.
//!
//! An expression is cut into tokens: a run of letters and digits is one
//! token, every other character is a token of its own. The tokens pass
//! through an operator stack that brings them into postfix order, tighter
//! operators first. The postfix tokens are the program of a stack machine:
//! [`operation`] says what each of them asks of that machine. The arithmetic
//! itself is the caller's.

use vstd::prelude::*;
use vstd::string::StringExecFns;
use crate::number::{is_float_literal, is_number};
use crate::text::{chars_of, string_of, views};

verus! {

/// What `char::is_alphabetic` says of a character: whether Unicode gives it
/// the property `Alphabetic`.
pub uninterp spec fn alphabetic(c: char) -> bool;

/// What `char::is_numeric` says of a character: whether it is in one of
/// Unicode's general categories for numbers.
pub uninterp spec fn numeric(c: char) -> bool;

/// `char::is_alphabetic` depends on the character alone. Trusted; which
/// characters it accepts is left to the standard library.
pub assume_specification[ char::is_alphabetic ](c: char) -> (b: bool)
    ensures
        b == alphabetic(c),
;

/// `char::is_numeric` depends on the character alone. Trusted; which
/// characters it accepts is left to the standard library.
pub assume_specification[ char::is_numeric ](c: char) -> (b: bool)
    ensures
        b == numeric(c),
;

/// The tokens of `text`, where `word[i]` says whether `text[i]` belongs in
/// a word: neighbours that both do share a token, every other character
/// stands alone.
pub open spec fn group(text: Seq<char>, word: Seq<bool>) -> Seq<Seq<char>>
    recommends
        word.len() == text.len(),
    decreases text.len(),
{
    if text.len() == 0 {
        Seq::empty()
    } else {
        let before = group(text.drop_last(), word.drop_last());
        let n = text.len() - 1;
        if n >= 1 && word[n] && word[n - 1] {
            before.drop_last().push(before.last().push(text[n]))
        } else {
            before.push(seq![text[n]])
        }
    }
}

/// For every character of `text`, whether it is a letter or a digit.
pub open spec fn words(text: Seq<char>) -> Seq<bool> {
    Seq::new(text.len(), |i: int| alphabetic(text[i]) || numeric(text[i]))
}

/// The tokens of `text`.
pub open spec fn tokens(text: Seq<char>) -> Seq<Seq<char>> {
    group(text, words(text))
}

/// Grouping never yields an empty token, and yields a token at all as soon
/// as there is a character.
pub proof fn lemma_group_nonempty(text: Seq<char>, word: Seq<bool>)
    requires
        word.len() == text.len(),
    ensures
        text.len() > 0 ==> group(text, word).len() > 0,
        forall|k: int| 0 <= k < group(text, word).len() ==> (#[trigger] group(text, word)[k]).len()
            > 0,
    decreases text.len(),
{
    if text.len() > 0 {
        lemma_group_nonempty(text.drop_last(), word.drop_last());
    }
}

/// The tokens, one after the other, spell the text: grouping drops nothing
/// and reorders nothing.
pub proof fn lemma_group_flattens(text: Seq<char>, word: Seq<bool>)
    requires
        word.len() == text.len(),
    ensures
        group(text, word).flatten() == text,
    decreases text.len(),
{
    if text.len() == 0 {
        assert(group(text, word).flatten() =~= text);
    } else {
        let head = text.drop_last();
        let before = group(head, word.drop_last());
        let c = text.last();
        lemma_group_flattens(head, word.drop_last());
        lemma_group_nonempty(head, word.drop_last());
        let n = text.len() - 1;
        if n >= 1 && word[n] && word[n - 1] {
            let all = before.drop_last().push(before.last().push(c));
            assert(before =~= before.drop_last().push(before.last()));
            before.drop_last().lemma_flatten_push(before.last());
            before.drop_last().lemma_flatten_push(before.last().push(c));
            assert(all.flatten() =~= before.flatten().push(c));
            assert(head.push(c) =~= text);
        } else {
            before.lemma_flatten_push(seq![c]);
            assert(before.push(seq![c]).flatten() =~= before.flatten().push(c));
            assert(head.push(c) =~= text);
        }
    }
}

/// Cuts `text` into tokens, given for each character whether it belongs in
/// a word.
pub fn group_tokens(text: &Vec<char>, word: &Vec<bool>) -> (out: Vec<String>)
    requires
        word.len() == text.len(),
    ensures
        views(out@) == group(text@, word@),
{
    let mut out: Vec<String> = Vec::new();
    if text.len() == 0 {
        assert(views(out@) =~= group(text@, word@));
        return out;
    }
    let mut start: usize = 0;
    let mut i: usize = 1;
    proof {
        let first = text@.take(1);
        assert(first.drop_last().len() == 0);
        assert(group(first.drop_last(), word@.take(1).drop_last()) =~= Seq::<Seq<char>>::empty());
        assert(group(first, word@.take(1)) =~~= seq![seq![text@[0]]]);
        assert(views(out@).push(text@.subrange(0, 1)) =~~= seq![seq![text@[0]]]);
    }
    // `text[start..i]` is the token under way.
    while i < text.len()
        invariant
            start < i <= text.len(),
            word.len() == text.len(),
            views(out@).push(text@.subrange(start as int, i as int)) == group(
                text@.take(i as int),
                word@.take(i as int),
            ),
        decreases text.len() - i,
    {
        proof {
            assert(text@.take(i + 1).drop_last() =~= text@.take(i as int));
            assert(word@.take(i + 1).drop_last() =~= word@.take(i as int));
            assert(views(out@).push(text@.subrange(start as int, i as int)).drop_last() =~= views(
                out@,
            ));
            assert(text@.subrange(start as int, i + 1) =~= text@.subrange(
                start as int,
                i as int,
            ).push(text@[i as int]));
            assert(text@.subrange(i as int, i + 1) =~= seq![text@[i as int]]);
        }
        if !(word[i] && word[i - 1]) {
            let token = string_of(text, start, i);
            proof {
                assert(views(out@.push(token)) =~= views(out@).push(token@));
            }
            out.push(token);
            start = i;
        }
        i += 1;
    }
    let token = string_of(text, start, i);
    proof {
        assert(views(out@.push(token)) =~= views(out@).push(token@));
        assert(text@.take(i as int) =~= text@);
        assert(word@.take(i as int) =~= word@);
    }
    out.push(token);
    out
}

/// Cuts `text` into tokens: runs of letters and digits, and single
/// characters of any other kind.
pub fn tokenize(text: &str) -> (out: Vec<String>)
    ensures
        views(out@) == tokens(text@),
{
    let chars = chars_of(text);
    let mut word: Vec<bool> = Vec::new();
    let mut i: usize = 0;
    while i < chars.len()
        invariant
            i <= chars.len(),
            word@ == words(chars@).take(i as int),
        decreases chars.len() - i,
    {
        let c = chars[i];
        let w = c.is_alphabetic() || c.is_numeric();
        assert(words(chars@).take(i + 1) =~= words(chars@).take(i as int).push(w));
        word.push(w);
        i += 1;
    }
    assert(words(chars@).take(i as int) =~= words(chars@));
    group_tokens(&chars, &word)
}

/// `t` is the one character `a`.
pub open spec fn is1(t: Seq<char>, a: char) -> bool {
    t.len() == 1 && t[0] == a
}

/// `t` is the two characters `a`, `b`.
pub open spec fn is2(t: Seq<char>, a: char, b: char) -> bool {
    t.len() == 2 && t[0] == a && t[1] == b
}

/// `t` ends in an opening parenthesis.
pub open spec fn opens(t: Seq<char>) -> bool {
    t.len() > 0 && t.last() == '('
}

/// How tightly a token binds. Operators have a positive priority, higher
/// for tighter ones. A closing parenthesis and every token that ends in an
/// opening one have `-2`. Everything else is an operand, with `-1`.
pub open spec fn priority_of(t: Seq<char>) -> int {
    if is1(t, '~') || is2(t, '-', '+') || is2(t, '_', '-') {
        100
    } else if is1(t, '^') {
        90
    } else if is1(t, '*') || is1(t, '/') {
        80
    } else if is1(t, '+') || is1(t, '-') {
        70
    } else if is1(t, '<') || is2(t, '<', '=') || is2(t, '>', '=') || is1(t, '>') {
        60
    } else if is2(t, '=', '=') || is2(t, '!', '=') {
        50
    } else if is1(t, '&') {
        40
    } else if is1(t, '|') {
        30
    } else if is1(t, ' ') || is1(t, ',') {
        10
    } else if is1(t, ')') || opens(t) {
        -2
    } else {
        -1
    }
}

/// Whether an operator groups from the right: `a ^ b ^ c` is `a ^ (b ^ c)`.
pub open spec fn groups_right(t: Seq<char>) -> bool {
    is1(t, '~') || is2(t, '_', '-') || is1(t, '^')
}

fn priority_chars(t: &Vec<char>) -> (p: i32)
    ensures
        p == priority_of(t@),
{
    let n = t.len();
    if n == 1 {
        let a = t[0];
        if a == '~' {
            100
        } else if a == '^' {
            90
        } else if a == '*' || a == '/' {
            80
        } else if a == '+' || a == '-' {
            70
        } else if a == '<' || a == '>' {
            60
        } else if a == '&' {
            40
        } else if a == '|' {
            30
        } else if a == ' ' || a == ',' {
            10
        } else if a == ')' || a == '(' {
            -2
        } else {
            -1
        }
    } else if n == 2 {
        let a = t[0];
        let b = t[1];
        if (a == '-' && b == '+') || (a == '_' && b == '-') {
            100
        } else if (a == '<' && b == '=') || (a == '>' && b == '=') {
            60
        } else if (a == '=' && b == '=') || (a == '!' && b == '=') {
            50
        } else if b == '(' {
            -2
        } else {
            -1
        }
    } else if n > 0 && t[n - 1] == '(' {
        -2
    } else {
        -1
    }
}

/// How tightly `token` binds; see [`priority_of`].
pub fn priority(token: &str) -> (p: i32)
    ensures
        p == priority_of(token@),
{
    let t = chars_of(token);
    priority_chars(&t)
}

/// Whether `token` is an operator that groups from the right.
pub fn right_to_left_associative(token: &str) -> (right: bool)
    ensures
        right == groups_right(token@),
{
    let t = chars_of(token);
    let n = t.len();
    (n == 1 && (t[0] == '~' || t[0] == '^')) || (n == 2 && t[0] == '_' && t[1] == '-')
}

/// What a postfix token asks of the stack machine.
#[derive(Clone, Copy, Debug, PartialEq, Eq, Structural)]
pub enum Operation {
    /// `+`: replace the two topmost values by their sum.
    Add,
    /// `-`: replace the two topmost values by the lower less the upper.
    Subtract,
    /// `*`: replace the two topmost values by their product.
    Times,
    /// `^`: replace the two topmost values by the lower raised to the upper.
    Power,
    /// `_-`, the sign: replace the topmost value by its negative.
    Minus,
    /// A number: push its value.
    Push,
    /// Anything else: nothing to do but to warn.
    Unknown,
}

/// What the token `t` asks of the stack machine.
pub open spec fn operation_of(t: Seq<char>) -> Operation {
    if is1(t, '+') {
        Operation::Add
    } else if is1(t, '-') {
        Operation::Subtract
    } else if is1(t, '*') {
        Operation::Times
    } else if is1(t, '^') {
        Operation::Power
    } else if is2(t, '_', '-') {
        Operation::Minus
    } else if is_float_literal(t) {
        Operation::Push
    } else {
        Operation::Unknown
    }
}

/// What `token` asks of the stack machine.
pub fn operation(token: &str) -> (op: Operation)
    ensures
        op == operation_of(token@),
{
    let t = chars_of(token);
    let n = t.len();
    if n == 1 && t[0] == '+' {
        Operation::Add
    } else if n == 1 && t[0] == '-' {
        Operation::Subtract
    } else if n == 1 && t[0] == '*' {
        Operation::Times
    } else if n == 1 && t[0] == '^' {
        Operation::Power
    } else if n == 2 && t[0] == '_' && t[1] == '-' {
        Operation::Minus
    } else if is_number(token) {
        Operation::Push
    } else {
        Operation::Unknown
    }
}

/// The state of the conversion between two tokens.
pub struct Shunt {
    /// The operators and opening parentheses that wait for their operands,
    /// the latest last.
    pub stack: Seq<Seq<char>>,
    /// Whether the latest token was an operator or an opening parenthesis,
    /// so that a sign may follow. True at the start.
    pub previous_was_operator: bool,
}

impl Shunt {
    /// The state at the start of an expression.
    pub open spec fn fresh() -> Shunt {
        Shunt { stack: Seq::empty(), previous_was_operator: true }
    }

    /// What a closing parenthesis does to the stack: the operators above
    /// the nearest opening parenthesis leave it, the latest first, and the
    /// parenthesis goes with them. The result is what stays and what is
    /// emitted; a token that ends in a parenthesis without being one, a
    /// function's name, is emitted too. `None` where no parenthesis is open.
    pub open spec fn unwind(stack: Seq<Seq<char>>) -> Option<(Seq<Seq<char>>, Seq<Seq<char>>)>
        decreases stack.len(),
    {
        if stack.len() == 0 {
            None
        } else if is1(stack.last(), '(') {
            Some((stack.drop_last(), Seq::empty()))
        } else if opens(stack.last()) {
            Some((stack.drop_last(), seq![stack.last()]))
        } else {
            match Shunt::unwind(stack.drop_last()) {
                None => None,
                Some((rest, emitted)) => Some((rest, seq![stack.last()] + emitted)),
            }
        }
    }

    /// Whether the operator `top` stays on the stack when an operator of
    /// priority `p` arrives: it does if it binds less tightly, or as tightly
    /// where the newcomer groups from the right.
    pub open spec fn stays(top: Seq<char>, p: int, right: bool) -> bool {
        (right && priority_of(top) <= p) || priority_of(top) < p
    }

    /// What an operator of priority `p` does to the stack before it is
    /// pushed: the operators on top that do not stay leave, the latest
    /// first. The result is what stays and what is emitted.
    pub open spec fn yield_to(stack: Seq<Seq<char>>, p: int, right: bool) -> (Seq<Seq<char>>, Seq<
        Seq<char>,
    >)
        decreases stack.len(),
    {
        if stack.len() == 0 || Shunt::stays(stack.last(), p, right) {
            (stack, Seq::empty())
        } else {
            let (rest, emitted) = Shunt::yield_to(stack.drop_last(), p, right);
            (rest, seq![stack.last()] + emitted)
        }
    }

    /// The token as the stack sees it: a minus where a sign may stand is
    /// the sign `_-`.
    pub open spec fn read(self, token: Seq<char>) -> Seq<char> {
        if self.previous_was_operator && is1(token, '-') {
            seq!['_', '-']
        } else {
            token
        }
    }

    /// One token: the state after it and the postfix tokens it emits, or
    /// `None` where it is a closing parenthesis that nothing opened.
    ///
    /// A blank is skipped, and so is a plus where a sign may stand. An
    /// operand is emitted at once. An opening parenthesis waits on the
    /// stack. An operator first lets the tighter ones leave, then waits.
    pub open spec fn step(self, token: Seq<char>) -> Option<(Shunt, Seq<Seq<char>>)> {
        if is1(token, ' ') {
            Some((self, Seq::empty()))
        } else if is1(token, ')') {
            match Shunt::unwind(self.stack) {
                None => None,
                Some((rest, emitted)) => Some((Shunt { stack: rest, ..self }, emitted)),
            }
        } else if self.previous_was_operator && is1(token, '+') {
            Some((self, Seq::empty()))
        } else {
            let t = self.read(token);
            let p = priority_of(t);
            if p == -1 {
                Some((Shunt { stack: self.stack, previous_was_operator: false }, seq![t]))
            } else if p == -2 {
                Some((Shunt { stack: self.stack.push(t), previous_was_operator: true }, Seq::empty()))
            } else {
                let (rest, emitted) = Shunt::yield_to(self.stack, p, groups_right(t));
                Some((Shunt { stack: rest.push(t), previous_was_operator: true }, emitted))
            }
        }
    }

    /// The tokens `input`, one after the other: the state after them and
    /// all they emit, or `None` as soon as one of them fails.
    pub open spec fn run(self, input: Seq<Seq<char>>) -> Option<(Shunt, Seq<Seq<char>>)>
        decreases input.len(),
    {
        if input.len() == 0 {
            Some((self, Seq::empty()))
        } else {
            match self.run(input.drop_last()) {
                None => None,
                Some((state, emitted)) => match state.step(input.last()) {
                    None => None,
                    Some((after, more)) => Some((after, emitted + more)),
                },
            }
        }
    }

    /// The postfix form of `text`: what its tokens emit, then what is left
    /// on the stack, the latest first.
    pub open spec fn postfix(self, text: Seq<char>) -> Option<Seq<Seq<char>>> {
        match self.run(tokens(text)) {
            None => None,
            Some((state, emitted)) => Some(emitted + state.stack.reverse()),
        }
    }
}

/// Tokens may arrive in pieces: running `first + second` is running
/// `first`, then `second` from the state that `first` left, and what the
/// two emit follows each other. So taking an expression token by token and
/// taking it whole come to the same.
pub proof fn lemma_run_in_pieces(state: Shunt, first: Seq<Seq<char>>, second: Seq<Seq<char>>)
    ensures
        state.run(first + second) == match state.run(first) {
            None => None::<(Shunt, Seq<Seq<char>>)>,
            Some((mid, early)) => match mid.run(second) {
                None => None,
                Some((end, late)) => Some((end, early + late)),
            },
        },
    decreases second.len(),
{
    if second.len() == 0 {
        assert(first + second =~= first);
        match state.run(first) {
            None => {},
            Some((mid, early)) => {
                assert(early + Seq::<Seq<char>>::empty() =~= early);
            },
        }
    } else {
        let all = first + second;
        assert(all.drop_last() =~= first + second.drop_last());
        assert(all.last() == second.last());
        lemma_run_in_pieces(state, first, second.drop_last());
        match state.run(first) {
            None => {},
            Some((mid, early)) => match mid.run(second.drop_last()) {
                None => {},
                Some((then, late)) => match then.step(second.last()) {
                    None => {},
                    Some((end, more)) => {
                        assert((early + late) + more =~= early + (late + more));
                    },
                },
            },
        }
    }
}

/// A blank between tokens changes nothing, and neither does a plus where a
/// sign may stand.
pub proof fn lemma_skipped_tokens(state: Shunt)
    ensures
        state.step(seq![' ']) == Some((state, Seq::<Seq<char>>::empty())),
        state.previous_was_operator ==> state.step(seq!['+']) == Some(
            (state, Seq::<Seq<char>>::empty()),
        ),
{
}

/// An operand is emitted at once and as it is, whatever waits on the stack,
/// and after it no sign may stand.
pub proof fn lemma_operand_passes(state: Shunt, token: Seq<char>)
    requires
        priority_of(token) == -1,
    ensures
        state.step(token) == Some(
            (Shunt { stack: state.stack, previous_was_operator: false }, seq![token]),
        ),
{
}

/// Why an expression has no postfix form.
#[derive(Clone, Copy, Debug, PartialEq, Eq, Structural)]
pub enum ParseError {
    /// A closing parenthesis stands where none is open.
    MismatchedParenthesis,
}

impl ParseError {
    /// The error in words.
    pub fn message(&self) -> (text: String)
        ensures
            text@ == "Mismatched parenthesis, missing '('"@,
    {
        String::from_str("Mismatched parenthesis, missing '('")
    }
}

/// The views of a concatenation are the concatenation of the views.
proof fn lemma_views_add(a: Seq<String>, b: Seq<String>)
    ensures
        views(a + b) == views(a) + views(b),
{
    assert(views(a + b) =~= views(a) + views(b));
}

/// The views of a sequence with one more string.
proof fn lemma_views_push(a: Seq<String>, s: String)
    ensures
        views(a.push(s)) == views(a).push(s@),
{
    assert(views(a.push(s)) =~= views(a).push(s@));
}

/// The views of a sequence without its last string.
proof fn lemma_views_drop_last(a: Seq<String>)
    requires
        a.len() > 0,
    ensures
        views(a.subrange(0, a.len() - 1)) == views(a).drop_last(),
        views(a).last() == a.last()@,
{
    assert(views(a.subrange(0, a.len() - 1)) =~= views(a).drop_last());
}

/// The converter from expressions to postfix: an operator stack, and
/// whether a sign may stand next.
pub struct Parser {
    stack: Vec<String>,
    previous_was_operator: bool,
}

impl View for Parser {
    type V = Shunt;

    closed spec fn view(&self) -> Shunt {
        Shunt { stack: views(self.stack@), previous_was_operator: self.previous_was_operator }
    }
}

impl Parser {
    /// A converter at the start of an expression.
    pub fn new() -> (parser: Parser)
        ensures
            parser@ == Shunt::fresh(),
    {
        let parser = Parser { stack: Vec::new(), previous_was_operator: true };
        assert(views(parser.stack@) =~= Seq::<Seq<char>>::empty());
        parser
    }

    /// Closes a parenthesis; see [`Shunt::unwind`]. Where none is open the
    /// stack ends up empty.
    fn unwind(&mut self) -> (result: Result<Vec<String>, ParseError>)
        ensures
            final(self)@.previous_was_operator == old(self)@.previous_was_operator,
            match (Shunt::unwind(old(self)@.stack), result) {
                (Some((rest, emitted)), Ok(out)) => final(self)@.stack == rest && views(out@)
                    == emitted,
                (None, Err(_)) => final(self)@.stack == Seq::<Seq<char>>::empty(),
                _ => false,
            },
    {
        let mut out: Vec<String> = Vec::new();
        assert(views(out@) =~= Seq::<Seq<char>>::empty());
        loop
            invariant
                self.previous_was_operator == old(self).previous_was_operator,
                Shunt::unwind(old(self)@.stack) == match Shunt::unwind(views(self.stack@)) {
                    None => None::<(Seq<Seq<char>>, Seq<Seq<char>>)>,
                    Some((rest, emitted)) => Some((rest, views(out@) + emitted)),
                },
            decreases self.stack.len(),
        {
            proof {
                if self.stack@.len() > 0 {
                    lemma_views_drop_last(self.stack@);
                }
            }
            let ghost before = views(self.stack@);
            let ghost sent = views(out@);
            match self.stack.pop() {
                None => {
                    assert(views(self.stack@) =~= Seq::<Seq<char>>::empty());
                    return Err(ParseError::MismatchedParenthesis);
                },
                Some(top) => {
                    let t = chars_of(top.as_str());
                    if t.len() == 1 && t[0] == '(' {
                        assert(sent + Seq::<Seq<char>>::empty() =~= sent);
                        return Ok(out);
                    }
                    let last = t.len() > 0 && t[t.len() - 1] == '(';
                    proof {
                        lemma_views_push(out@, top);
                    }
                    out.push(top);
                    if last {
                        assert(sent + seq![before.last()] =~= sent.push(before.last()));
                        return Ok(out);
                    }
                    proof {
                        match Shunt::unwind(before.drop_last()) {
                            None => {},
                            Some((rest, emitted)) => {
                                assert(sent + (seq![before.last()] + emitted) =~= sent.push(
                                    before.last(),
                                ) + emitted);
                            },
                        }
                    }
                },
            }
        }
    }

    /// Lets the operators leave that do not stay before one of priority
    /// `p`; see [`Shunt::yield_to`].
    fn yield_to(&mut self, p: i32, right: bool) -> (out: Vec<String>)
        ensures
            final(self)@.previous_was_operator == old(self)@.previous_was_operator,
            (final(self)@.stack, views(out@)) == Shunt::yield_to(old(self)@.stack, p as int, right),
    {
        let mut out: Vec<String> = Vec::new();
        assert(views(out@) =~= Seq::<Seq<char>>::empty());
        let mut going = true;
        proof {
            let (rest, emitted) = Shunt::yield_to(views(self.stack@), p as int, right);
            assert(views(out@) + emitted =~= emitted);
        }
        while going
            invariant
                self.previous_was_operator == old(self).previous_was_operator,
                Shunt::yield_to(old(self)@.stack, p as int, right) == ({
                    let (rest, emitted) = Shunt::yield_to(views(self.stack@), p as int, right);
                    (rest, views(out@) + emitted)
                }),
                !going ==> Shunt::yield_to(views(self.stack@), p as int, right) == (
                    views(self.stack@),
                    Seq::<Seq<char>>::empty(),
                ),
            decreases self.stack.len() + if going { 1int } else { 0int },
        {
            let n = self.stack.len();
            if n == 0 {
                going = false;
            } else {
                proof {
                    lemma_views_drop_last(self.stack@);
                }
                let above = priority(self.stack[n - 1].as_str());
                if (right && above <= p) || above < p {
                    going = false;
                } else {
                    let ghost before = views(self.stack@);
                    let ghost sent = views(out@);
                    match self.stack.pop() {
                        None => {},
                        Some(top) => {
                            proof {
                                lemma_views_push(out@, top);
                                let (rest, emitted) = Shunt::yield_to(
                                    before.drop_last(),
                                    p as int,
                                    right,
                                );
                                assert(sent + (seq![before.last()] + emitted) =~= sent.push(
                                    before.last(),
                                ) + emitted);
                            }
                            out.push(top);
                        },
                    }
                }
            }
        }
        assert(views(out@) + Seq::<Seq<char>>::empty() =~= views(out@));
        out
    }

    /// Takes the next token of an expression and returns the postfix tokens
    /// that it emits; see [`Shunt::step`]. A closing parenthesis that nothing
    /// opened is an error, and leaves the stack empty.
    pub fn next(&mut self, token: &str) -> (result: Result<Vec<String>, ParseError>)
        ensures
            match (old(self)@.step(token@), result) {
                (Some((state, emitted)), Ok(out)) => final(self)@ == state && views(out@)
                    == emitted,
                (None, Err(e)) => e == ParseError::MismatchedParenthesis && final(self)@ == (Shunt {
                    stack: Seq::empty(),
                    previous_was_operator: old(self)@.previous_was_operator,
                }),
                _ => false,
            },
    {
        let t = chars_of(token);
        let none: Vec<String> = Vec::new();
        assert(views(none@) =~= Seq::<Seq<char>>::empty());
        if t.len() == 1 && t[0] == ' ' {
            return Ok(none);
        }
        if t.len() == 1 && t[0] == ')' {
            return self.unwind();
        }
        let sign = self.previous_was_operator && t.len() == 1;
        if sign && t[0] == '+' {
            return Ok(none);
        }
        let read = if sign && t[0] == '-' {
            String::from_str("_-")
        } else {
            String::from_str(token)
        };
        proof {
            reveal_strlit("_-");
            assert("_-"@ =~= seq!['_', '-']);
        }
        let p = priority(read.as_str());
        if p == -1 {
            self.previous_was_operator = false;
            let mut out = none;
            proof {
                lemma_views_push(out@, read);
                assert(Seq::<Seq<char>>::empty().push(read@) =~= seq![read@]);
            }
            out.push(read);
            return Ok(out);
        }
        self.previous_was_operator = true;
        if p == -2 {
            proof {
                lemma_views_push(self.stack@, read);
            }
            self.stack.push(read);
            return Ok(none);
        }
        let right = right_to_left_associative(read.as_str());
        let out = self.yield_to(p, right);
        proof {
            lemma_views_push(self.stack@, read);
        }
        self.stack.push(read);
        Ok(out)
    }

    /// Ends an expression: returns what is left on the stack, the latest
    /// first, and is ready for the next expression.
    pub fn close(&mut self) -> (out: Vec<String>)
        ensures
            views(out@) == old(self)@.stack.reverse(),
            final(self)@ == Shunt::fresh(),
    {
        let mut out: Vec<String> = Vec::new();
        let ghost all = views(self.stack@);
        assert(views(out@) =~= all.reverse().take(0));
        while self.stack.len() > 0
            invariant
                self.stack@.len() <= all.len(),
                views(self.stack@) == all.take(self.stack@.len() as int),
                views(out@) == all.reverse().take(all.len() - self.stack@.len()),
            decreases self.stack.len(),
        {
            proof {
                lemma_views_drop_last(self.stack@);
            }
            let ghost n = self.stack@.len();
            match self.stack.pop() {
                None => {},
                Some(top) => {
                    proof {
                        lemma_views_push(out@, top);
                        assert(all.take(n as int).drop_last() =~= all.take(n - 1));
                        assert(all.reverse().take(all.len() - n + 1) =~= all.reverse().take(
                            all.len() - n,
                        ).push(all[n - 1]));
                    }
                    out.push(top);
                },
            }
        }
        self.previous_was_operator = true;
        assert(all.reverse().take(all.len() as int) =~= all.reverse());
        assert(views(self.stack@) =~= Seq::<Seq<char>>::empty());
        out
    }

    /// Converts an expression to postfix; see [`Shunt::postfix`]. The
    /// converter is ready for the next expression afterwards, whether the
    /// conversion succeeded or not.
    pub fn parse_text(&mut self, text: &str) -> (result: Result<Vec<String>, ParseError>)
        ensures
            final(self)@ == Shunt::fresh(),
            match (old(self)@.postfix(text@), result) {
                (Some(program), Ok(out)) => views(out@) == program,
                (None, Err(e)) => e == ParseError::MismatchedParenthesis,
                _ => false,
            },
    {
        let input = tokenize(text);
        let mut out: Vec<String> = Vec::new();
        assert(views(out@) =~= Seq::<Seq<char>>::empty());
        assert(views(input@).take(0) =~= Seq::<Seq<char>>::empty());
        let mut i: usize = 0;
        while i < input.len()
            invariant
                i <= input.len(),
                views(input@) == tokens(text@),
                old(self)@.run(views(input@).take(i as int)) == Some((self@, views(out@))),
            decreases input.len() - i,
        {
            proof {
                let more = views(input@).take(i + 1);
                assert(more.drop_last() =~= views(input@).take(i as int));
                assert(more.last() == input@[i as int]@);
            }
            let ghost state = self@;
            match self.next(input[i].as_str()) {
                Err(e) => {
                    self.previous_was_operator = true;
                    proof {
                        assert(state.step(input@[i as int]@) is None);
                        assert(old(self)@.run(views(input@).take(i + 1)) is None);
                        lemma_run_fails(
                            old(self)@,
                            views(input@),
                            i + 1,
                        );
                    }
                    return Err(e);
                },
                Ok(mut more) => {
                    proof {
                        lemma_views_add(out@, more@);
                    }
                    out.append(&mut more);
                },
            }
            i += 1;
        }
        assert(views(input@).take(i as int) =~= views(input@));
        let mut rest = self.close();
        proof {
            lemma_views_add(out@, rest@);
        }
        out.append(&mut rest);
        Ok(out)
    }
}

/// Once a prefix of the input has failed, the whole input fails.
proof fn lemma_run_fails(state: Shunt, input: Seq<Seq<char>>, n: int)
    requires
        0 <= n <= input.len(),
        state.run(input.take(n)) is None,
    ensures
        state.run(input) is None,
    decreases input.len() - n,
{
    if n < input.len() {
        assert(input.take(n + 1).drop_last() =~= input.take(n));
        lemma_run_fails(state, input, n + 1);
    } else {
        assert(input.take(n) =~= input);
    }
}

} // verus!
