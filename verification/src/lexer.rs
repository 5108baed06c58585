//! Converting characters into tokens.

use crate::error::{Error, ErrorSpec};
use crate::text::push_char;
use crate::tok::{Tok, TokSpec};
use vstd::prelude::*;

verus! {

/// Whether `char::is_whitespace` holds of the character.
pub uninterp spec fn whitespace(c: char) -> bool;

/// Whether `char::is_alphanumeric` holds of the character.
pub uninterp spec fn alphanumeric(c: char) -> bool;

/// Whether `char::is_lowercase` holds of the character.
pub uninterp spec fn lowercase(c: char) -> bool;

/// Whether `char::is_uppercase` holds of the character.
pub uninterp spec fn uppercase(c: char) -> bool;

/// Calls `char::is_whitespace`, which tells whether the character has the
/// Unicode property White_Space. The contract names what it returns and
/// says no more of it.
#[verifier::external_body]
fn is_whitespace(c: char) -> (r: bool)
    ensures
        r == whitespace(c),
{
    c.is_whitespace()
}

/// Calls `char::is_alphanumeric`, which tells whether the character is a
/// letter or a number in the sense of Unicode. The contract names what it
/// returns and says no more of it.
#[verifier::external_body]
fn is_alphanumeric(c: char) -> (r: bool)
    ensures
        r == alphanumeric(c),
{
    c.is_alphanumeric()
}

/// Calls `char::is_lowercase`, which tells whether the character has the
/// Unicode property Lowercase. The contract names what it returns and says
/// no more of it.
#[verifier::external_body]
fn is_lowercase(c: char) -> (r: bool)
    ensures
        r == lowercase(c),
{
    c.is_lowercase()
}

/// Calls `char::is_uppercase`, which tells whether the character has the
/// Unicode property Uppercase. The contract names what it returns and says
/// no more of it.
#[verifier::external_body]
fn is_uppercase(c: char) -> (r: bool)
    ensures
        r == uppercase(c),
{
    c.is_uppercase()
}

/// Whether the character can stand in an identifier.
pub open spec fn ident_char(c: char) -> bool {
    alphanumeric(c) || c == '_'
}

/// The text without the whitespace at its start.
pub open spec fn skip_spaces(s: Seq<char>) -> Seq<char>
    decreases s.len(),
{
    if s.len() > 0 && whitespace(s[0]) {
        skip_spaces(s.drop_first())
    } else {
        s
    }
}

/// How many characters at the start of the text can stand in an identifier.
pub open spec fn ident_len(s: Seq<char>) -> nat
    decreases s.len(),
{
    if s.len() > 0 && ident_char(s[0]) {
        1 + ident_len(s.drop_first())
    } else {
        0
    }
}

/// The error for a character that no token starts with.
pub open spec fn unrecognized(c: char) -> ErrorSpec {
    ErrorSpec::Lexer("unrecognized character: "@.push(c))
}

/// The error for a character that cannot follow what came before it.
pub open spec fn unexpected(c: char) -> ErrorSpec {
    ErrorSpec::Lexer("unexpected character: "@.push(c))
}

/// One step of the lexer: a token, an error or the end, and the text that
/// is left.
pub struct Lexed {
    pub token: Option<Result<TokSpec, ErrorSpec>>,
    pub rest: Seq<char>,
}

/// The first token of a text. Whitespace before the token is skipped. An
/// atom starts with a lowercase character, a variable with an uppercase
/// one, and both go on for as long as letters, numbers and underscores
/// follow. A character that starts no token is an error and stays where it
/// is; a colon without a hyphen behind it is an error too, or the end of
/// the tokens where the text ends with it.
pub open spec fn lex_spec(input: Seq<char>) -> Lexed {
    let s = skip_spaces(input);
    if s.len() == 0 {
        Lexed { token: None, rest: s }
    } else if s[0] == ',' {
        Lexed { token: Some(Ok(TokSpec::Comma)), rest: s.drop_first() }
    } else if s[0] == '.' {
        Lexed { token: Some(Ok(TokSpec::Dot)), rest: s.drop_first() }
    } else if s[0] == ':' {
        if s.len() == 1 {
            Lexed { token: None, rest: s.drop_first() }
        } else if s[1] == '-' {
            Lexed { token: Some(Ok(TokSpec::Means)), rest: s.skip(2) }
        } else {
            Lexed { token: Some(Err(unexpected(s[1]))), rest: s.drop_first() }
        }
    } else if s[0] == '?' {
        Lexed { token: Some(Ok(TokSpec::Query)), rest: s.drop_first() }
    } else if s[0] == '(' {
        Lexed { token: Some(Ok(TokSpec::OpenParen)), rest: s.drop_first() }
    } else if s[0] == ')' {
        Lexed { token: Some(Ok(TokSpec::CloseParen)), rest: s.drop_first() }
    } else if lowercase(s[0]) {
        Lexed {
            token: Some(Ok(TokSpec::Atom(s.take(ident_len(s) as int)))),
            rest: s.skip(ident_len(s) as int),
        }
    } else if uppercase(s[0]) {
        Lexed {
            token: Some(Ok(TokSpec::Variable(s.take(ident_len(s) as int)))),
            rest: s.skip(ident_len(s) as int),
        }
    } else {
        Lexed { token: Some(Err(unrecognized(s[0]))), rest: s }
    }
}

/// What the lexer handed out, as contracts see it.
pub open spec fn lexed_view(r: Option<Result<Tok, Error>>) -> Option<Result<TokSpec, ErrorSpec>> {
    match r {
        None => None,
        Some(Ok(t)) => Some(Ok(t@)),
        Some(Err(e)) => Some(Err(e@)),
    }
}

/// Turns the characters of a text into tokens, one at a time.
#[derive(Debug)]
pub struct Lexer {
    chars: Vec<char>,
    position: usize,
}

impl Lexer {
    /// The whole text.
    pub closed spec fn source(&self) -> Seq<char> {
        self.chars@
    }

    /// The part of the text that is still to be read.
    pub closed spec fn remaining(&self) -> Seq<char> {
        self.chars@.skip(self.position as int)
    }

    /// The lexer has not read past the end of its text.
    pub closed spec fn wf(&self) -> bool {
        self.position <= self.chars.len()
    }

    /// A lexer at the start of the given text.
    pub fn new(chars: Vec<char>) -> (r: Lexer)
        ensures
            r.wf(),
            r.source() == chars@,
            r.remaining() == chars@,
    {
        let r = Lexer { chars, position: 0 };
        assert(r.chars@.skip(0) =~= r.chars@);
        r
    }

    /// The character that is read next, if one is left.
    fn peek(&self) -> (r: Option<char>)
        requires
            self.wf(),
        ensures
            match r {
                Some(c) => self.remaining().len() > 0 && c == self.remaining()[0],
                None => self.remaining().len() == 0,
            },
    {
        if self.position < self.chars.len() {
            Some(self.chars[self.position])
        } else {
            None
        }
    }

    /// Steps over one character and returns the one behind it, if there
    /// is one.
    fn next_char(&mut self) -> (r: Option<char>)
        requires
            old(self).wf(),
            old(self).remaining().len() > 0,
        ensures
            final(self).wf(),
            final(self).source() == old(self).source(),
            final(self).remaining() == old(self).remaining().drop_first(),
            match r {
                Some(c) => final(self).remaining().len() > 0 && c == final(self).remaining()[0],
                None => final(self).remaining().len() == 0,
            },
    {
        self.position = self.position + 1;
        assert(self.remaining() =~= old(self).remaining().drop_first());
        self.peek()
    }

    /// Steps over the whitespace that comes next.
    fn skip_whitespace(&mut self)
        requires
            old(self).wf(),
        ensures
            final(self).wf(),
            final(self).source() == old(self).source(),
            final(self).remaining() == skip_spaces(old(self).remaining()),
    {
        while self.position < self.chars.len() && is_whitespace(self.chars[self.position])
            invariant
                self.wf(),
                self.source() == old(self).source(),
                skip_spaces(self.remaining()) == skip_spaces(old(self).remaining()),
            decreases self.chars.len() - self.position,
        {
            let ghost before = self.remaining();
            self.position = self.position + 1;
            assert(self.remaining() =~= before.drop_first());
        }
    }

    /// Moves the characters of the identifier that comes next to the end of
    /// `result`.
    fn append_ident(&mut self, result: &mut String)
        requires
            old(self).wf(),
        ensures
            final(self).wf(),
            final(self).source() == old(self).source(),
            final(result)@ == old(result)@ + old(self).remaining().take(
                ident_len(old(self).remaining()) as int,
            ),
            final(self).remaining() == old(self).remaining().skip(
                ident_len(old(self).remaining()) as int,
            ),
    {
        let ghost start = self.remaining();
        let ghost text = result@;
        let ghost mut k: int = 0;
        assert(text + start.take(0) =~= text);
        assert(start.skip(0) =~= start);
        loop
            invariant
                self.wf(),
                self.source() == old(self).source(),
                start == old(self).remaining(),
                text == old(result)@,
                0 <= k <= start.len(),
                self.remaining() == start.skip(k),
                result@ == text + start.take(k),
                ident_len(start) == k + ident_len(self.remaining()),
            decreases self.chars.len() - self.position,
        {
            let c = match self.peek() {
                Some(c) => c,
                None => {
                    return ;
                },
            };
            if !(is_alphanumeric(c) || c == '_') {
                return ;
            }
            push_char(result, c);
            let ghost before = self.remaining();
            self.position = self.position + 1;
            proof {
                assert(self.remaining() =~= before.drop_first());
                assert(start.skip(k + 1) =~= start.skip(k).drop_first());
                assert((text + start.take(k)).push(c) =~= text + start.take(k + 1));
                k = k + 1;
            }
        }
    }

    /// The identifier that comes next.
    fn lex_ident(&mut self) -> (r: String)
        requires
            old(self).wf(),
        ensures
            final(self).wf(),
            final(self).source() == old(self).source(),
            r@ == old(self).remaining().take(ident_len(old(self).remaining()) as int),
            final(self).remaining() == old(self).remaining().skip(
                ident_len(old(self).remaining()) as int,
            ),
    {
        let mut result = String::new();
        self.append_ident(&mut result);
        assert(Seq::<char>::empty() + old(self).remaining().take(
            ident_len(old(self).remaining()) as int,
        ) =~= old(self).remaining().take(ident_len(old(self).remaining()) as int));
        result
    }

    fn unrecognized(c: char) -> (e: Error)
        ensures
            e@ == unrecognized(c),
    {
        let mut message = String::from_str("unrecognized character: ");
        push_char(&mut message, c);
        Error::Lexer(message)
    }

    fn unexpected(c: char) -> (e: Error)
        ensures
            e@ == unexpected(c),
    {
        let mut message = String::from_str("unexpected character: ");
        push_char(&mut message, c);
        Error::Lexer(message)
    }

    /// The next token, an error for what starts no token, or `None` at the
    /// end of the text.
    pub fn next(&mut self) -> (r: Option<Result<Tok, Error>>)
        requires
            old(self).wf(),
        ensures
            final(self).wf(),
            final(self).source() == old(self).source(),
            lexed_view(r) == lex_spec(old(self).remaining()).token,
            final(self).remaining() == lex_spec(old(self).remaining()).rest,
    {
        self.skip_whitespace();
        let ghost s = self.remaining();
        let c = match self.peek() {
            Some(c) => c,
            None => {
                return None;
            },
        };
        if c == ',' {
            self.next_char();
            Some(Ok(Tok::Comma))
        } else if c == '.' {
            self.next_char();
            Some(Ok(Tok::Dot))
        } else if c == ':' {
            match self.next_char() {
                None => None,
                Some(c) => {
                    if c == '-' {
                        self.next_char();
                        assert(self.remaining() =~= s.skip(2));
                        Some(Ok(Tok::Means))
                    } else {
                        Some(Err(Self::unexpected(c)))
                    }
                },
            }
        } else if c == '?' {
            self.next_char();
            Some(Ok(Tok::Query))
        } else if c == '(' {
            self.next_char();
            Some(Ok(Tok::OpenParen))
        } else if c == ')' {
            self.next_char();
            Some(Ok(Tok::CloseParen))
        } else if is_lowercase(c) {
            Some(Ok(Tok::Atom(self.lex_ident())))
        } else if is_uppercase(c) {
            Some(Ok(Tok::Variable(self.lex_ident())))
        } else {
            Some(Err(Self::unrecognized(c)))
        }
    }
}

} // verus!
