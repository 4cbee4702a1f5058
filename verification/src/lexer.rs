//! Tokens, and the tokenizer that reads them from a text.

use crate::chars::{
    char_is_whitespace, chars_of, digit, digit_value, is_digit, is_word_char, word_char,
};
use crate::environment::{valid_identifier, Identifier};
use crate::error::Error;
use vstd::prelude::*;
use vstd::string::*;

verus! {

/// One token of an expression.
#[derive(Debug, Clone, PartialEq, Eq)]
pub enum Token {
    Integer(u64),
    Identifier(Identifier),
    Operator(char),
    LeftBracket,
    RightBracket,
}

/// What a token stands for.
pub enum Lexeme {
    Integer(u64),
    Identifier(Seq<char>),
    Operator(char),
    LeftBracket,
    RightBracket,
}

impl View for Token {
    type V = Lexeme;

    open spec fn view(&self) -> Lexeme {
        match self {
            Token::Integer(n) => Lexeme::Integer(*n),
            Token::Identifier(id) => Lexeme::Identifier(id@),
            Token::Operator(op) => Lexeme::Operator(*op),
            Token::LeftBracket => Lexeme::LeftBracket,
            Token::RightBracket => Lexeme::RightBracket,
        }
    }
}

/// One of the characters that are operators by themselves.
pub open spec fn is_operator_char(c: char) -> bool {
    c == '+' || c == '-' || c == '*' || c == '/' || c == '^' || c == '='
}

/// How many whitespace characters the text starts with.
pub open spec fn space_len(s: Seq<char>) -> nat
    decreases s.len(),
{
    if s.len() > 0 && char_is_whitespace(s[0]) {
        1 + space_len(s.drop_first())
    } else {
        0
    }
}

/// How many decimal digits the text starts with.
pub open spec fn digits_len(s: Seq<char>) -> nat
    decreases s.len(),
{
    if s.len() > 0 && is_digit(s[0]) {
        1 + digits_len(s.drop_first())
    } else {
        0
    }
}

/// How many characters of an identifier the text starts with.
pub open spec fn word_len(s: Seq<char>) -> nat
    decreases s.len(),
{
    if s.len() > 0 && is_word_char(s[0]) {
        1 + word_len(s.drop_first())
    } else {
        0
    }
}

/// The number that a sequence of decimal digits stands for.
pub open spec fn digits_value(s: Seq<char>) -> nat
    decreases s.len(),
{
    if s.len() == 0 {
        0
    } else {
        (digits_value(s.drop_last()) * 10 + digit_value(s.last())) as nat
    }
}

/// The first token of a text and what follows it; nothing at the end of the text.
/// Whitespace before the token is skipped. Fails on digits that stand for a number
/// beyond 64 bits, and on anything that is no bracket, operator, number, result
/// name or identifier.
pub open spec fn next_lexeme(input: Seq<char>) -> Result<Option<(Lexeme, Seq<char>)>, Error> {
    let s = input.skip(space_len(input) as int);
    if s.len() == 0 {
        Ok(None)
    } else if s[0] == '(' {
        Ok(Some((Lexeme::LeftBracket, s.skip(1))))
    } else if s[0] == ')' {
        Ok(Some((Lexeme::RightBracket, s.skip(1))))
    } else if is_operator_char(s[0]) {
        Ok(Some((Lexeme::Operator(s[0]), s.skip(1))))
    } else if is_digit(s[0]) {
        let n = digits_len(s) as int;
        if digits_value(s.take(n)) <= u64::MAX {
            Ok(Some((Lexeme::Integer(digits_value(s.take(n)) as u64), s.skip(n))))
        } else {
            Err(Error::Lex)
        }
    } else if s[0] == '$' {
        Ok(Some((Lexeme::Identifier("$"@), s.skip(1))))
    } else {
        let n = word_len(s) as int;
        if valid_identifier(s.take(n)) {
            Ok(Some((Lexeme::Identifier(s.take(n)), s.skip(n))))
        } else {
            Err(Error::Lex)
        }
    }
}

/// The prefixes that the three counts measure lie within the text.
pub proof fn lemma_prefix_lengths(s: Seq<char>)
    ensures
        space_len(s) <= s.len(),
        digits_len(s) <= s.len(),
        word_len(s) <= s.len(),
        s.len() > 0 && is_digit(s[0]) ==> digits_len(s) >= 1,
        valid_identifier(s.take(word_len(s) as int)) ==> word_len(s) >= 1,
    decreases s.len(),
{
    if s.len() > 0 {
        lemma_prefix_lengths(s.drop_first());
    }
}

/// A token takes at least one character of the text.
pub proof fn lemma_lexeme_consumes(input: Seq<char>)
    ensures
        next_lexeme(input) matches Ok(Some(pair)) ==> pair.1.len() < input.len(),
{
    lemma_prefix_lengths(input);
    let s = input.skip(space_len(input) as int);
    lemma_prefix_lengths(s);
}

/// Reads the tokens of a text one after another.
pub struct Tokenizer {
    text: String,
    chars: Vec<char>,
    position: usize,
}

impl Tokenizer {
    /// The characters are those of the text, and the position lies within them.
    pub closed spec fn wf(&self) -> bool {
        self.chars@ == self.text@ && self.position <= self.chars@.len()
    }

    /// The text that has not been read yet.
    pub closed spec fn remaining(&self) -> Seq<char> {
        self.chars@.skip(self.position as int)
    }

    /// A tokenizer at the start of `raw`.
    pub fn new(raw: &str) -> (t: Self)
        ensures
            t.wf(),
            t.remaining() == raw@,
    {
        let chars = chars_of(raw);
        let t = Tokenizer { text: String::from_str(raw), chars, position: 0 };
        assert(t.remaining() =~= raw@);
        t
    }

    /// The text between two positions.
    fn slice(&self, from: usize, to: usize) -> (s: String)
        requires
            self.wf(),
            from <= to <= self.chars@.len(),
        ensures
            s@ == self.chars@.subrange(from as int, to as int),
    {
        String::from_str(self.text.as_str().substring_char(from, to))
    }

    /// Moves past the whitespace at the position.
    fn skip_whitespace(&mut self)
        requires
            old(self).wf(),
        ensures
            final(self).wf(),
            final(self).remaining() == old(self).remaining().skip(
                space_len(old(self).remaining()) as int,
            ),
            final(self).chars == old(self).chars,
            final(self).text == old(self).text,
    {
        let ghost start = self.position;
        let ghost input = self.remaining();
        while self.position < self.chars.len() && self.chars[self.position].is_whitespace()
            invariant
                self.wf(),
                self.chars == old(self).chars,
                self.text == old(self).text,
                start <= self.position,
                input == self.chars@.skip(start as int),
                space_len(input) == (self.position - start) + space_len(
                    self.chars@.skip(self.position as int),
                ),
            decreases self.chars.len() - self.position,
        {
            assert(self.chars@.skip(self.position as int).drop_first() =~= self.chars@.skip(
                self.position + 1,
            ));
            self.position += 1;
        }
        assert(space_len(self.chars@.skip(self.position as int)) == 0);
        assert(self.remaining() =~= input.skip(space_len(input) as int));
    }

    /// Where the digits that start at `from` end.
    fn digits_end(&self, from: usize) -> (to: usize)
        requires
            self.wf(),
            from <= self.chars@.len(),
        ensures
            from <= to <= self.chars@.len(),
            to - from == digits_len(self.chars@.skip(from as int)),
    {
        let mut to = from;
        while to < self.chars.len() && digit(self.chars[to])
            invariant
                from <= to <= self.chars@.len(),
                digits_len(self.chars@.skip(from as int)) == (to - from) + digits_len(
                    self.chars@.skip(to as int),
                ),
            decreases self.chars.len() - to,
        {
            assert(self.chars@.skip(to as int).drop_first() =~= self.chars@.skip(to + 1));
            to += 1;
        }
        to
    }

    /// Where the identifier characters that start at `from` end.
    fn word_end(&self, from: usize) -> (to: usize)
        requires
            self.wf(),
            from <= self.chars@.len(),
        ensures
            from <= to <= self.chars@.len(),
            to - from == word_len(self.chars@.skip(from as int)),
    {
        let mut to = from;
        while to < self.chars.len() && word_char(self.chars[to])
            invariant
                from <= to <= self.chars@.len(),
                word_len(self.chars@.skip(from as int)) == (to - from) + word_len(
                    self.chars@.skip(to as int),
                ),
            decreases self.chars.len() - to,
        {
            assert(self.chars@.skip(to as int).drop_first() =~= self.chars@.skip(to + 1));
            to += 1;
        }
        to
    }

    /// The number that the digits between two positions stand for, if it fits in
    /// 64 bits.
    fn number(&self, from: usize, to: usize) -> (r: Option<u64>)
        requires
            self.wf(),
            from <= to <= self.chars@.len(),
            forall|k: int| from <= k < to ==> is_digit(#[trigger] self.chars@[k]),
        ensures
            match r {
                Some(n) => n == digits_value(self.chars@.subrange(from as int, to as int)),
                None => digits_value(self.chars@.subrange(from as int, to as int)) > u64::MAX,
            },
    {
        let ghost digits = self.chars@.subrange(from as int, to as int);
        let mut value: u64 = 0;
        let mut k = from;
        assert(digits.take(0) =~= Seq::<char>::empty());
        while k < to
            invariant
                from <= k <= to <= self.chars@.len(),
                digits == self.chars@.subrange(from as int, to as int),
                forall|i: int| from <= i < to ==> is_digit(#[trigger] self.chars@[i]),
                value == digits_value(digits.take(k - from)),
            decreases to - k,
        {
            let c = self.chars[k];
            let d: u64 = (c as u32 - '0' as u32) as u64;
            proof {
                let longer = digits.take(k - from + 1);
                assert(longer.drop_last() =~= digits.take(k - from));
                assert(longer.last() == c);
                assert(digits_value(longer) == value * 10 + d);
                lemma_digits_grow(digits, k - from + 1);
                assert(digits.take(digits.len() as int) =~= digits);
            }
            value = match value.checked_mul(10) {
                None => { return None; },
                Some(v) => match v.checked_add(d) {
                    None => { return None; },
                    Some(w) => w,
                },
            };
            k += 1;
        }
        assert(digits.take(to - from) =~= digits);
        Some(value)
    }

    /// The next token; nothing at the end of the text.
    pub fn next_token(&mut self) -> (r: Result<Option<Token>, Error>)
        requires
            old(self).wf(),
        ensures
            final(self).wf(),
            match next_lexeme(old(self).remaining()) {
                Err(e) => r matches Err(f) && f == e,
                Ok(None) => r matches Ok(None) && final(self).remaining().len() == 0,
                Ok(Some(pair)) => r matches Ok(Some(t)) && t@ == pair.0 && final(self).remaining()
                    == pair.1,
            },
    {
        let ghost input = self.remaining();
        self.skip_whitespace();
        let ghost s = self.remaining();
        let start = self.position;
        if start >= self.chars.len() {
            return Ok(None);
        }
        assert(s.len() > 0 && s[0] == self.chars@[start as int]);
        assert(s.skip(1) =~= self.chars@.skip(start + 1));
        let c = self.chars[start];
        if c == '(' {
            self.position = start + 1;
            Ok(Some(Token::LeftBracket))
        } else if c == ')' {
            self.position = start + 1;
            Ok(Some(Token::RightBracket))
        } else if c == '+' || c == '-' || c == '*' || c == '/' || c == '^' || c == '=' {
            self.position = start + 1;
            Ok(Some(Token::Operator(c)))
        } else if digit(c) {
            let end = self.digits_end(start);
            proof {
                lemma_digits_prefix(s);
                assert(s.take(end - start) =~= self.chars@.subrange(start as int, end as int));
                assert(s.skip(end - start) =~= self.chars@.skip(end as int));
                assert forall|k: int| start <= k < end implies is_digit(
                    #[trigger] self.chars@[k],
                ) by {
                    assert(self.chars@[k] == s[k - start]);
                }
            }
            match self.number(start, end) {
                None => Err(Error::Lex),
                Some(n) => {
                    self.position = end;
                    Ok(Some(Token::Integer(n)))
                },
            }
        } else if c == '$' {
            self.position = start + 1;
            Ok(Some(Token::Identifier(Identifier::result())))
        } else {
            let end = self.word_end(start);
            proof {
                assert(s.take(end - start) =~= self.chars@.subrange(start as int, end as int));
                assert(s.skip(end - start) =~= self.chars@.skip(end as int));
            }
            match Identifier::new(self.slice(start, end)) {
                Err(_) => Err(Error::Lex),
                Ok(id) => {
                    self.position = end;
                    Ok(Some(Token::Identifier(id)))
                },
            }
        }
    }
}

/// The digits that a text starts with are digits.
pub proof fn lemma_digits_prefix(s: Seq<char>)
    ensures
        digits_len(s) <= s.len(),
        forall|k: int| 0 <= k < digits_len(s) ==> is_digit(#[trigger] s[k]),
    decreases s.len(),
{
    lemma_prefix_lengths(s);
    if s.len() > 0 && is_digit(s[0]) {
        lemma_digits_prefix(s.drop_first());
        assert forall|k: int| 0 <= k < digits_len(s) implies is_digit(#[trigger] s[k]) by {
            if k > 0 {
                assert(s[k] == s.drop_first()[k - 1]);
            }
        }
    }
}

/// More digits never stand for a smaller number.
pub proof fn lemma_digits_grow(s: Seq<char>, n: int)
    requires
        0 <= n <= s.len(),
        forall|k: int| 0 <= k < s.len() ==> is_digit(#[trigger] s[k]),
    ensures
        digits_value(s.take(n)) <= digits_value(s),
    decreases s.len() - n,
{
    if n < s.len() {
        lemma_digits_grow(s.drop_last(), n);
        assert(s.drop_last().take(n) =~= s.take(n));
        assert(is_digit(s.last()));
    } else {
        assert(s.take(n) =~= s);
    }
}

} // verus!
