//! Scanning: white space is skipped, and the end of the input is a token.

use vstd::prelude::*;
use crate::erlang::tokens::Token;
use crate::erlang::tokens::TokenType;

verus! {

/// Whether a character is white space: whether it is one of the code points
/// to which Unicode gives the property White_Space.
pub open spec fn char_is_whitespace(c: char) -> bool {
    let code = c as u32;
    ||| 0x09 <= code <= 0x0d
    ||| code == 0x20
    ||| code == 0x85
    ||| code == 0xa0
    ||| code == 0x1680
    ||| 0x2000 <= code <= 0x200a
    ||| code == 0x2028
    ||| code == 0x2029
    ||| code == 0x202f
    ||| code == 0x205f
    ||| code == 0x3000
}

/// `char::is_whitespace`: whether `c` has the Unicode property White_Space.
#[verifier::external_body]
fn is_whitespace(c: char) -> (b: bool)
    ensures
        b == char_is_whitespace(c),
{
    c.is_whitespace()
}

/// Why an input could not be scanned, and where.
#[derive(Debug)]
pub struct ScanError {
    pub filename: String,
    pub line: u32,
    pub col: u32,
    pub message: String,
}

/// The character at `pos`, or the character with code 0 behind the input.
pub open spec fn char_at(src: Seq<char>, pos: int) -> char {
    if 0 <= pos < src.len() {
        src[pos]
    } else {
        '\0'
    }
}

/// How many characters from `pos` on are white space.
pub open spec fn blank_len(src: Seq<char>, pos: int) -> int
    decreases src.len() - pos,
{
    if 0 <= pos < src.len() && char_is_whitespace(src[pos]) {
        1 + blank_len(src, pos + 1)
    } else {
        0
    }
}

/// The line and the column, both counted from 1, of the character behind
/// the first `count` characters: a line feed begins a new line.
pub open spec fn place_after(src: Seq<char>, count: int) -> (int, int)
    decreases count,
{
    if count <= 0 || count > src.len() {
        (1, 1)
    } else {
        let before = place_after(src, count - 1);
        if src[count - 1] == '\n' {
            (before.0 + 1, 1)
        } else {
            (before.0, before.1 + 1)
        }
    }
}

/// Whether the input can be scanned: behind the white space at its start it
/// ends, or the character with code 0 stands.
pub open spec fn scans(src: Seq<char>) -> bool {
    char_at(src, blank_len(src, 0)) == '\0'
}

/// What the scanner is about to do.
enum State {
    Ready,
    SkipWhitespace,
    Eof,
}

/// The input, the place in it, and the tokens found so far.
struct Scanner {
    filename: String,
    src: Vec<char>,
    pos: usize,
    state: State,
    tokens: Vec<Token>,
    curr_line: u32,
    curr_col: u32,
    saved_line: u32,
    saved_col: u32,
}

impl Scanner {
    /// The scanner has skipped white space only, and knows where it is.
    spec fn valid(self) -> bool {
        &&& self.src.len() < u32::MAX
        &&& self.pos <= self.src.len()
        &&& blank_len(self.src@, 0) == self.pos + blank_len(self.src@, self.pos as int)
        &&& place_after(self.src@, self.pos as int) == (
            self.curr_line as int,
            self.curr_col as int,
        )
        &&& 1 <= self.curr_line <= self.pos + 1
        &&& 1 <= self.curr_col <= self.pos + 1
        &&& self.tokens@.len() == 0
        &&& self.state is Eof ==> char_at(self.src@, self.pos as int) == '\0'
    }

    /// How far the scanner is from its end.
    spec fn steps_left(self) -> int {
        let blank = char_is_whitespace(char_at(self.src@, self.pos as int));
        match self.state {
            State::Eof => 0,
            State::Ready => if blank {
                2 * (self.src.len() - self.pos) + 3
            } else {
                1
            },
            State::SkipWhitespace => if blank {
                2 * (self.src.len() - self.pos) + 2
            } else {
                2
            },
        }
    }

    /// Scans the whole input.
    fn run(&mut self) -> (r: Result<(), ScanError>)
        requires
            old(self).valid(),
            old(self).pos == 0,
            old(self).state is Ready,
        ensures
            final(self).src@ == old(self).src@,
            r is Ok == scans(old(self).src@),
            r is Ok ==> final(self).tokens@.len() == 1 && final(self).tokens@[0].ty is Eof
                && final(self).tokens@[0].lexeme is None,
            r is Ok ==> (final(self).tokens@[0].line as int, final(self).tokens@[0].col as int)
                == place_after(old(self).src@, blank_len(old(self).src@, 0)),
            r matches Err(e) ==> e.filename@ == old(self).filename@ && e.message@
                == "unknown character"@ && (e.line as int, e.col as int) == place_after(
                old(self).src@,
                blank_len(old(self).src@, 0),
            ),
    {
        loop
            invariant
                self.valid(),
                self.src@ == old(self).src@,
                self.filename@ == old(self).filename@,
            decreases self.steps_left(),
        {
            let c = self.peek();
            let blank = is_whitespace(c);
            match self.state {
                State::Ready => {
                    self.saved_line = self.curr_line;
                    self.saved_col = self.curr_col;
                    if blank {
                        self.state = State::SkipWhitespace;
                    } else if c == '\0' {
                        self.state = State::Eof;
                    } else {
                        return self.err("unknown character");
                    }
                },
                State::SkipWhitespace => {
                    if blank {
                        self.advance();
                    } else {
                        self.state = State::Ready;
                    }
                },
                State::Eof => {
                    if c == '\0' {
                        self.tok(TokenType::Eof);
                        return Ok(());
                    } else {
                        return self.err("expected Eof");
                    }
                },
            }
        }
    }

    /// An error at the present place.
    fn err(&self, msg: &str) -> (r: Result<(), ScanError>)
        ensures
            r matches Err(e) && e.filename@ == self.filename@ && e.line == self.curr_line && e.col
                == self.curr_col && e.message@ == msg@,
    {
        Err(
            ScanError {
                filename: self.filename.clone(),
                line: self.curr_line,
                col: self.curr_col,
                message: msg.to_owned(),
            },
        )
    }

    /// The character at the present place.
    fn peek(&self) -> (c: char)
        ensures
            c == char_at(self.src@, self.pos as int),
    {
        if self.pos >= self.src.len() {
            '\0'
        } else {
            self.src[self.pos]
        }
    }

    /// Goes past one character of white space.
    fn advance(&mut self)
        requires
            old(self).valid(),
            old(self).pos < old(self).src.len(),
            char_is_whitespace(old(self).src@[old(self).pos as int]),
            !(old(self).state is Eof),
        ensures
            final(self).valid(),
            final(self).pos == old(self).pos + 1,
            final(self).src@ == old(self).src@,
            final(self).filename@ == old(self).filename@,
            final(self).state == old(self).state,
    {
        proof {
            let after = place_after(self.src@, self.pos + 1);
            let before = place_after(self.src@, self.pos as int);
            assert(after == if self.src@[self.pos as int] == '\n' {
                (before.0 + 1, 1int)
            } else {
                (before.0, before.1 + 1)
            });
            assert(blank_len(self.src@, self.pos as int) == 1 + blank_len(
                self.src@,
                self.pos + 1,
            ));
        }
        if self.peek() == '\n' {
            self.curr_line += 1;
            self.curr_col = 1;
        } else {
            self.curr_col += 1;
        }
        self.pos += 1;
    }

    /// Adds a token at the present place.
    fn tok(&mut self, ty: TokenType)
        ensures
            final(self).tokens@ == old(self).tokens@.push(
                (Token { ty, lexeme: None, line: old(self).curr_line, col: old(self).curr_col }),
            ),
            final(self).src@ == old(self).src@,
            final(self).filename@ == old(self).filename@,
    {
        self.tokens.push(Token { ty, lexeme: None, line: self.curr_line, col: self.curr_col });
    }
}

/// Scans `src`. White space at the start is skipped. Where the input ends
/// behind it, or the character with code 0 stands there, the result is the
/// one token for the end of the input, with its line and column; any other
/// character is an error at its line and column, under the name `filename`.
pub fn scan(filename: &str, src: Vec<char>) -> (r: Result<Vec<Token>, ScanError>)
    requires
        src.len() < u32::MAX,
    ensures
        r is Ok == scans(src@),
        r matches Ok(tokens) ==> tokens@.len() == 1 && tokens@[0].ty is Eof && tokens@[0].lexeme
            is None && (tokens@[0].line as int, tokens@[0].col as int) == place_after(
            src@,
            blank_len(src@, 0),
        ),
        r matches Err(e) ==> e.filename@ == filename@ && e.message@ == "unknown character"@ && (
            e.line as int,
            e.col as int,
        ) == place_after(src@, blank_len(src@, 0)),
{
    let mut scanner = Scanner {
        filename: filename.to_owned(),
        src: src,
        pos: 0,
        state: State::Ready,
        tokens: Vec::new(),
        curr_line: 1,
        curr_col: 1,
        saved_line: 0,
        saved_col: 0,
    };
    match scanner.run() {
        Ok(()) => Ok(scanner.tokens),
        Err(e) => Err(e),
    }
}

} // verus!
