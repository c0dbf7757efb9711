//! Lexer and recursive-descent parser for VimFlavor manifest text.
//!
//! The manifest grammar is
//! ```text
//! manifest    := (comment | flavor-stmt)* EOF
//! comment     := '#' <rest of line ignored>
//! flavor-stmt := FLAVOR STRING (attr-clause)*
//! attr-clause := ',' BRANCH ':' STRING
//! ```
//! The lexer walks the UTF-8 bytes of the input behind a cursor with a byte
//! offset; the parser consumes one token of lookahead and accumulates the
//! `Flavor` entries in textual order.

use vstd::prelude::*;
use vstd::string::StrSliceExecFns;
use vstd::string::StringExecFns;
use vstd::utf8::decode_utf8;
use vstd::utf8::encode_utf8;
use vstd::utf8::encode_utf8_decode_utf8;
use vstd::utf8::is_leading_byte_width_1;
use vstd::utf8::partial_valid_utf8;
use vstd::utf8::partial_valid_utf8_extend_ascii_block;
use vstd::utf8::valid_utf8;

verus! {

/// One lexical token of a manifest.
#[derive(Debug, PartialEq)]
pub enum Token {
    /// A byte that no token begins with.
    Illegal,
    /// `#`, the comment marker.
    Hash,
    /// A run of ASCII letters that is not a keyword.
    Ident(String),
    /// A single-quoted string literal, quotes removed.
    Str(String),
    /// `,`.
    Comma,
    /// `:`.
    Colon,
    /// The keyword `flavor`.
    Flavor,
    /// The keyword `group`.
    Group,
    /// The keyword `branch`.
    Branch,
}

/// Mathematical model of a [`Token`]: text is a sequence of characters.
#[verifier::ext_equal]
pub enum TokenView {
    /// Model of [`Token::Illegal`].
    Illegal,
    /// Model of [`Token::Hash`].
    Hash,
    /// Model of [`Token::Ident`].
    Ident(Seq<char>),
    /// Model of [`Token::Str`].
    Str(Seq<char>),
    /// Model of [`Token::Comma`].
    Comma,
    /// Model of [`Token::Colon`].
    Colon,
    /// Model of [`Token::Flavor`].
    Flavor,
    /// Model of [`Token::Group`].
    Group,
    /// Model of [`Token::Branch`].
    Branch,
}

impl View for Token {
    type V = TokenView;

    open spec fn view(&self) -> TokenView {
        match self {
            Token::Illegal => TokenView::Illegal,
            Token::Hash => TokenView::Hash,
            Token::Ident(s) => TokenView::Ident(s@),
            Token::Str(s) => TokenView::Str(s@),
            Token::Comma => TokenView::Comma,
            Token::Colon => TokenView::Colon,
            Token::Flavor => TokenView::Flavor,
            Token::Group => TokenView::Group,
            Token::Branch => TokenView::Branch,
        }
    }
}

/// One parsed manifest entry: a repository reference as written, and the
/// branch to check out, `"master"` unless an attribute clause set it.
#[derive(Debug, PartialEq, Clone)]
pub struct Flavor {
    /// The repository reference, un-normalized.
    pub repo: String,
    /// The branch to check out.
    pub branch: String,
}

/// Mathematical model of a [`Flavor`].
#[verifier::ext_equal]
pub struct FlavorView {
    /// Model of the repository reference.
    pub repo: Seq<char>,
    /// Model of the branch.
    pub branch: Seq<char>,
}

impl View for Flavor {
    type V = FlavorView;

    open spec fn view(&self) -> FlavorView {
        FlavorView { repo: self.repo@, branch: self.branch@ }
    }
}

impl DeepView for Flavor {
    type V = FlavorView;

    open spec fn deep_view(&self) -> FlavorView {
        self@
    }
}

/// Why a manifest failed to parse.
#[derive(Debug, PartialEq)]
pub enum ParseError {
    /// A string literal holds bytes that are not valid UTF-8.
    Utf8,
    /// The input ended before the closing quote of a string literal.
    Terminate,
    /// The input ended where a construct still required a token.
    EOF,
    /// A token stood where a string literal was required.
    TypeMismatch,
    /// A token other than the required one; carries the token found and the
    /// token that was required.
    Unexpected(Token, Token),
}

/// Mathematical model of a [`ParseError`].
#[verifier::ext_equal]
pub enum ParseErrorView {
    /// Model of [`ParseError::Utf8`].
    Utf8,
    /// Model of [`ParseError::Terminate`].
    Terminate,
    /// Model of [`ParseError::EOF`].
    Eof,
    /// Model of [`ParseError::TypeMismatch`].
    TypeMismatch,
    /// Model of [`ParseError::Unexpected`].
    Unexpected(TokenView, TokenView),
}

impl View for ParseError {
    type V = ParseErrorView;

    open spec fn view(&self) -> ParseErrorView {
        match self {
            ParseError::Utf8 => ParseErrorView::Utf8,
            ParseError::Terminate => ParseErrorView::Terminate,
            ParseError::EOF => ParseErrorView::Eof,
            ParseError::TypeMismatch => ParseErrorView::TypeMismatch,
            ParseError::Unexpected(g, w) => ParseErrorView::Unexpected(g@, w@),
        }
    }
}

impl ParseError {
    /// True exactly for the end-of-input error.
    pub fn is_eof_error(&self) -> (r: bool)
        ensures
            r == (self@ == ParseErrorView::Eof),
    {
        match self {
            ParseError::EOF => true,
            _ => false,
        }
    }
}

/// The byte value of `' '`.
pub const BYTE_SPACE: u8 = 32;

/// The byte value of `'\n'`.
pub const BYTE_NEWLINE: u8 = 10;

/// The byte value of `'\''`, the string-literal quote.
pub const BYTE_QUOTE: u8 = 39;

/// The byte value of `'#'`, the comment marker.
pub const BYTE_HASH: u8 = 35;

/// The byte value of `','`.
pub const BYTE_COMMA: u8 = 44;

/// The byte value of `':'`.
pub const BYTE_COLON: u8 = 58;

/// The byte value of `'a'`.
pub const BYTE_LOWER_A: u8 = 97;

/// The byte value of `'z'`.
pub const BYTE_LOWER_Z: u8 = 122;

/// The byte value of `'A'`.
pub const BYTE_UPPER_A: u8 = 65;

/// The byte value of `'Z'`.
pub const BYTE_UPPER_Z: u8 = 90;

/// True when `b` is an ASCII letter.
pub open spec fn is_alpha(b: u8) -> bool {
    (BYTE_LOWER_A <= b && b <= BYTE_LOWER_Z) || (BYTE_UPPER_A <= b && b <= BYTE_UPPER_Z)
}

/// End of the maximal run of ASCII letters starting at `pos`: the first
/// index at or after `pos` that holds no letter, or `s.len()`.
pub open spec fn ident_end(s: Seq<u8>, pos: int) -> int
    decreases s.len() - pos
    when 0 <= pos <= s.len()
{
    if pos >= s.len() {
        pos
    } else if !is_alpha(s[pos]) {
        pos
    } else {
        ident_end(s, pos + 1)
    }
}

/// Index of the first quote at or after `pos`, or `s.len()` when none is
/// left.
pub open spec fn quote_end(s: Seq<u8>, pos: int) -> int
    decreases s.len() - pos
    when 0 <= pos <= s.len()
{
    if pos >= s.len() {
        s.len() as int
    } else if s[pos] == BYTE_QUOTE {
        pos
    } else {
        quote_end(s, pos + 1)
    }
}

/// Index just past the first newline at or after `pos`, or `s.len()` when no
/// newline is left.
pub open spec fn line_end(s: Seq<u8>, pos: int) -> int
    decreases s.len() - pos
    when 0 <= pos <= s.len()
{
    if pos >= s.len() {
        s.len() as int
    } else if s[pos] == BYTE_NEWLINE {
        pos + 1
    } else {
        line_end(s, pos + 1)
    }
}

/// Classification of a run of ASCII letters: one of the three keywords when
/// the run spells it, else an identifier holding the run's characters.
pub open spec fn classify_word(run: Seq<u8>) -> TokenView {
    if run == encode_utf8("flavor"@) {
        TokenView::Flavor
    } else if run == encode_utf8("group"@) {
        TokenView::Group
    } else if run == encode_utf8("branch"@) {
        TokenView::Branch
    } else {
        TokenView::Ident(decode_utf8(run))
    }
}

/// What the lexer yields at a position: the end of the input, a token with
/// the position just past it, or a lexical error with the position where the
/// lexer stopped.
#[verifier::ext_equal]
pub enum LexResult {
    /// The input is exhausted (any trailing whitespace consumed).
    End,
    /// A token, and the position just past it.
    Tok(TokenView, int),
    /// A lexical error, and the position where the lexer stopped.
    Fail(ParseErrorView, int),
}

/// The next token of `s` at or after `pos`, skipping spaces and newlines.
pub open spec fn spec_next_token(s: Seq<u8>, pos: int) -> LexResult
    decreases s.len() - pos
    when 0 <= pos <= s.len()
{
    if pos >= s.len() {
        LexResult::End
    } else {
        let b = s[pos];
        if is_alpha(b) {
            LexResult::Tok(classify_word(s.subrange(pos, ident_end(s, pos))), ident_end(s, pos))
        } else if b == BYTE_SPACE || b == BYTE_NEWLINE {
            spec_next_token(s, pos + 1)
        } else if b == BYTE_QUOTE {
            let e = quote_end(s, pos + 1);
            if e == s.len() {
                LexResult::Fail(ParseErrorView::Terminate, s.len() as int)
            } else {
                let content = s.subrange(pos + 1, e);
                if valid_utf8(content) {
                    LexResult::Tok(TokenView::Str(decode_utf8(content)), e + 1)
                } else {
                    LexResult::Fail(ParseErrorView::Utf8, e + 1)
                }
            }
        } else if b == BYTE_HASH {
            LexResult::Tok(TokenView::Hash, pos + 1)
        } else if b == BYTE_COMMA {
            LexResult::Tok(TokenView::Comma, pos + 1)
        } else if b == BYTE_COLON {
            LexResult::Tok(TokenView::Colon, pos + 1)
        } else {
            LexResult::Tok(TokenView::Illegal, pos + 1)
        }
    }
}

proof fn lemma_ident_end(s: Seq<u8>, pos: int)
    requires
        0 <= pos <= s.len(),
    ensures
        pos <= ident_end(s, pos) <= s.len(),
        pos < s.len() && is_alpha(s[pos]) ==> pos < ident_end(s, pos),
    decreases s.len() - pos,
{
    if pos < s.len() && is_alpha(s[pos]) {
        lemma_ident_end(s, pos + 1);
    }
}

proof fn lemma_quote_end(s: Seq<u8>, pos: int)
    requires
        0 <= pos <= s.len(),
    ensures
        pos <= quote_end(s, pos) <= s.len(),
        quote_end(s, pos) < s.len() ==> s[quote_end(s, pos)] == BYTE_QUOTE,
    decreases s.len() - pos,
{
    if pos < s.len() && s[pos] != BYTE_QUOTE {
        lemma_quote_end(s, pos + 1);
    }
}

/// The end of a line never lies before its start, nor past the input.
pub proof fn lemma_line_end(s: Seq<u8>, pos: int)
    requires
        0 <= pos <= s.len(),
    ensures
        pos <= line_end(s, pos) <= s.len(),
    decreases s.len() - pos,
{
    if pos < s.len() && s[pos] != BYTE_NEWLINE {
        lemma_line_end(s, pos + 1);
    }
}

/// A token or a lexical failure always advances the position, never past
/// the end of the input; a lexical failure is an unterminated literal or a
/// malformed one, never the end-of-input condition.
pub proof fn lemma_next_token_bounds(s: Seq<u8>, pos: int)
    requires
        0 <= pos <= s.len(),
    ensures
        match spec_next_token(s, pos) {
            LexResult::End => true,
            LexResult::Tok(_, p) => pos < p <= s.len(),
            LexResult::Fail(e, p) => pos < p <= s.len() && (e == ParseErrorView::Terminate || e
                == ParseErrorView::Utf8),
        },
    decreases s.len() - pos,
{
    if pos < s.len() {
        let b = s[pos];
        if is_alpha(b) {
            lemma_ident_end(s, pos);
        } else if b == BYTE_SPACE || b == BYTE_NEWLINE {
            lemma_next_token_bounds(s, pos + 1);
        } else if b == BYTE_QUOTE {
            lemma_quote_end(s, pos + 1);
        }
    }
}

proof fn lemma_ascii_run_valid_utf8(run: Seq<u8>)
    requires
        forall|i: int| 0 <= i < run.len() ==> is_alpha(#[trigger] run[i]),
    ensures
        valid_utf8(run),
{
    assert(run.subrange(0, 0) =~= Seq::<u8>::empty());
    assert(valid_utf8(run.subrange(0, 0)));
    assert(partial_valid_utf8(run, 0));
    assert forall|i: int| 0 <= i < run.len() implies #[trigger] is_leading_byte_width_1(run[i]) by {
        assert(is_alpha(run[i]));
    }
    partial_valid_utf8_extend_ascii_block(run, 0, run.len() as int);
    assert(run.subrange(0, run.len() as int) =~= run);
}

/// Relies on `String::from_utf8`: it succeeds exactly when the bytes are
/// valid UTF-8, and then returns the string whose UTF-8 encoding is those
/// bytes.
#[verifier::external_body]
fn string_from_utf8(v: Vec<u8>) -> (r: Option<String>)
    ensures
        r is Some <==> valid_utf8(v@),
        r matches Some(s) ==> encode_utf8(s@) == v@,
{
    String::from_utf8(v).ok()
}

fn alpha(b: u8) -> (r: bool)
    ensures
        r == is_alpha(b),
{
    (BYTE_LOWER_A <= b && b <= BYTE_LOWER_Z) || (BYTE_UPPER_A <= b && b <= BYTE_UPPER_Z)
}

fn bytes_eq(a: &Vec<u8>, b: &[u8]) -> (r: bool)
    ensures
        r == (a@ == b@),
{
    if a.len() != b.len() {
        return false;
    }
    let n = a.len();
    let mut i: usize = 0;
    while i < n
        invariant
            i <= n,
            n == a@.len(),
            n == b@.len(),
            forall|j: int| 0 <= j < i ==> a@[j] == b@[j],
        decreases n - i,
    {
        if a[i] != b[i] {
            return false;
        }
        i += 1;
    }
    proof {
        assert(a@ =~= b@);
    }
    true
}

/// A cursor-based parser over the UTF-8 bytes of a manifest.
pub struct Parser {
    /// The bytes of the manifest text.
    pub buffer: Vec<u8>,
    /// The current byte offset: how many bytes have been consumed.
    pub offset: usize,
}

impl Parser {
    /// The bytes being parsed.
    pub open spec fn bytes(&self) -> Seq<u8> {
        self.buffer@
    }

    /// Well-formedness: the cursor never leaves the buffer.
    pub open spec fn wf(&self) -> bool {
        self.offset <= self.bytes().len()
    }

    /// The byte under the cursor, or `None` at the end of the input.
    pub open spec fn spec_byte(&self) -> Option<u8> {
        if self.offset < self.bytes().len() {
            Some(self.bytes()[self.offset as int])
        } else {
            None
        }
    }

    /// Builds a parser over the bytes of `buffer`, with the cursor at the
    /// start.
    pub fn new(buffer: &str) -> (p: Parser)
        ensures
            p.bytes() == encode_utf8(buffer@),
            p.offset == 0,
            p.wf(),
    {
        Parser { buffer: buffer.as_bytes_vec(), offset: 0 }
    }

    /// Reads the byte under the cursor without advancing.
    pub fn byte(&self) -> (b: Option<u8>)
        ensures
            b == self.spec_byte(),
    {
        if self.offset < self.buffer.len() {
            Some(self.buffer[self.offset])
        } else {
            None
        }
    }

    /// Advances the cursor one byte; at the end of the input the cursor
    /// stays put.
    pub fn next(&mut self)
        requires
            old(self).wf(),
        ensures
            final(self).wf(),
            final(self).bytes() == old(self).bytes(),
            old(self).offset < old(self).bytes().len() ==> final(self).offset == old(self).offset
                + 1,
            old(self).offset >= old(self).bytes().len() ==> final(self).offset == old(
                self,
            ).offset,
    {
        if self.offset < self.buffer.len() {
            self.offset = self.offset + 1;
        }
    }

    /// Moves the cursor just past the next newline, or to the end of the
    /// input when no newline is left.
    pub fn skip_to_next_line(&mut self)
        requires
            old(self).wf(),
        ensures
            final(self).wf(),
            final(self).bytes() == old(self).bytes(),
            final(self).offset == line_end(old(self).bytes(), old(self).offset as int),
    {
        let ghost s = self.buffer@;
        let ghost start = self.offset as int;
        while self.offset < self.buffer.len()
            invariant
                self.buffer@ == s,
                s == old(self).bytes(),
                start == old(self).offset as int,
                start <= self.offset <= s.len(),
                line_end(s, start) == line_end(s, self.offset as int),
            decreases s.len() - self.offset,
        {
            let b = self.buffer[self.offset];
            self.offset = self.offset + 1;
            if b == BYTE_NEWLINE {
                return;
            }
        }
    }

    fn read_ident(&mut self) -> (t: Token)
        requires
            old(self).wf(),
            old(self).offset < old(self).bytes().len(),
            is_alpha(old(self).bytes()[old(self).offset as int]),
        ensures
            final(self).wf(),
            final(self).bytes() == old(self).bytes(),
            final(self).offset == ident_end(old(self).bytes(), old(self).offset as int),
            t@ == classify_word(
                old(self).bytes().subrange(
                    old(self).offset as int,
                    ident_end(old(self).bytes(), old(self).offset as int),
                ),
            ),
    {
        let ghost s = self.buffer@;
        let ghost start = self.offset as int;
        let mut run: Vec<u8> = Vec::new();
        while self.offset < self.buffer.len() && alpha(self.buffer[self.offset])
            invariant
                self.buffer@ == s,
                s == old(self).bytes(),
                start == old(self).offset as int,
                start <= self.offset <= s.len(),
                ident_end(s, start) == ident_end(s, self.offset as int),
                run@ == s.subrange(start, self.offset as int),
                forall|j: int| 0 <= j < run@.len() ==> is_alpha(#[trigger] run@[j]),
            decreases s.len() - self.offset,
        {
            let b = self.buffer[self.offset];
            run.push(b);
            self.offset = self.offset + 1;
            proof {
                assert(s.subrange(start, self.offset as int) =~= s.subrange(
                    start,
                    self.offset - 1,
                ).push(b));
            }
        }
        proof {
            assert(ident_end(s, self.offset as int) == self.offset as int);
        }
        if bytes_eq(&run, "flavor".as_bytes()) {
            return Token::Flavor;
        }
        if bytes_eq(&run, "group".as_bytes()) {
            return Token::Group;
        }
        if bytes_eq(&run, "branch".as_bytes()) {
            return Token::Branch;
        }
        proof {
            lemma_ascii_run_valid_utf8(run@);
        }
        match string_from_utf8(run) {
            Some(st) => {
                proof {
                    encode_utf8_decode_utf8(st@);
                }
                Token::Ident(st)
            },
            None => {
                assert(false);
                Token::Illegal
            },
        }
    }

    fn read_string(&mut self) -> (r: Result<Token, ParseError>)
        requires
            old(self).wf(),
        ensures
            final(self).wf(),
            final(self).bytes() == old(self).bytes(),
            ({
                let s = old(self).bytes();
                let start = old(self).offset as int;
                let e = quote_end(s, start);
                if e == s.len() {
                    &&& r matches Err(er) && er@ == ParseErrorView::Terminate
                    &&& final(self).offset == s.len()
                } else {
                    let content = s.subrange(start, e);
                    if valid_utf8(content) {
                        &&& r matches Ok(t) && t@ == TokenView::Str(decode_utf8(content))
                        &&& final(self).offset == e + 1
                    } else {
                        &&& r matches Err(er) && er@ == ParseErrorView::Utf8
                        &&& final(self).offset == e + 1
                    }
                }
            }),
    {
        let ghost s = self.buffer@;
        let ghost start = self.offset as int;
        let mut content: Vec<u8> = Vec::new();
        while self.offset < self.buffer.len() && self.buffer[self.offset] != BYTE_QUOTE
            invariant
                self.buffer@ == s,
                s == old(self).bytes(),
                start == old(self).offset as int,
                start <= self.offset <= s.len(),
                quote_end(s, start) == quote_end(s, self.offset as int),
                content@ == s.subrange(start, self.offset as int),
            decreases s.len() - self.offset,
        {
            let b = self.buffer[self.offset];
            content.push(b);
            self.offset = self.offset + 1;
            proof {
                assert(s.subrange(start, self.offset as int) =~= s.subrange(
                    start,
                    self.offset - 1,
                ).push(b));
            }
        }
        if self.offset == self.buffer.len() {
            return Err(ParseError::Terminate);
        }
        proof {
            assert(quote_end(s, self.offset as int) == self.offset as int);
        }
        self.offset = self.offset + 1;
        match string_from_utf8(content) {
            Some(st) => {
                proof {
                    encode_utf8_decode_utf8(st@);
                }
                Ok(Token::Str(st))
            },
            None => Err(ParseError::Utf8),
        }
    }

    /// Produces the next token, skipping spaces and newlines; at the end of
    /// the input, fails with the end-of-input error.
    pub fn next_token(&mut self) -> (r: Result<Token, ParseError>)
        requires
            old(self).wf(),
        ensures
            final(self).wf(),
            final(self).bytes() == old(self).bytes(),
            ({
                match spec_next_token(old(self).bytes(), old(self).offset as int) {
                    LexResult::End => {
                        &&& r matches Err(er) && er@ == ParseErrorView::Eof
                        &&& final(self).offset == old(self).bytes().len()
                    },
                    LexResult::Tok(t, p) => {
                        &&& r matches Ok(tok) && tok@ == t
                        &&& final(self).offset == p
                    },
                    LexResult::Fail(e, p) => {
                        &&& r matches Err(er) && er@ == e
                        &&& final(self).offset == p
                    },
                }
            }),
    {
        let ghost s = self.buffer@;
        let ghost start = self.offset as int;
        while self.offset < self.buffer.len() && (self.buffer[self.offset] == BYTE_SPACE
            || self.buffer[self.offset] == BYTE_NEWLINE)
            invariant
                self.buffer@ == s,
                s == old(self).bytes(),
                start == old(self).offset as int,
                start <= self.offset <= s.len(),
                spec_next_token(s, start) == spec_next_token(s, self.offset as int),
            decreases s.len() - self.offset,
        {
            self.offset = self.offset + 1;
        }
        if self.offset == self.buffer.len() {
            return Err(ParseError::EOF);
        }
        let b = self.buffer[self.offset];
        if alpha(b) {
            let t = self.read_ident();
            return Ok(t);
        }
        self.offset = self.offset + 1;
        if b == BYTE_QUOTE {
            return self.read_string();
        }
        if b == BYTE_HASH {
            return Ok(Token::Hash);
        }
        if b == BYTE_COMMA {
            return Ok(Token::Comma);
        }
        if b == BYTE_COLON {
            return Ok(Token::Colon);
        }
        Ok(Token::Illegal)
    }
}


/// What parsing yields: the accumulated entries and the final offset, or the
/// first error and the offset where parsing stopped.
#[verifier::ext_equal]
pub enum ParseOutcome {
    /// A successful parse: the entries in textual order, and the final
    /// offset, which is the length of the input.
    Done(Seq<FlavorView>, int),
    /// A failed parse: the first error, and the offset where it arose.
    Fail(ParseErrorView, int),
}

/// The string literal a construct requires next: its characters and the
/// position past it, or the error met instead.
pub open spec fn spec_expect_str(s: Seq<u8>, pos: int) -> Result<
    (Seq<char>, int),
    (ParseErrorView, int),
> {
    match spec_next_token(s, pos) {
        LexResult::End => Err((ParseErrorView::Eof, s.len() as int)),
        LexResult::Fail(e, p) => Err((e, p)),
        LexResult::Tok(t, p) => match t {
            TokenView::Str(cs) => Ok((cs, p)),
            _ => Err((ParseErrorView::TypeMismatch, p)),
        },
    }
}

/// The `branch` keyword a construct requires next: the position past it, or
/// the error met instead.
pub open spec fn spec_expect_branch(s: Seq<u8>, pos: int) -> Result<int, (ParseErrorView, int)> {
    match spec_next_token(s, pos) {
        LexResult::End => Err((ParseErrorView::Eof, s.len() as int)),
        LexResult::Fail(e, p) => Err((e, p)),
        LexResult::Tok(t, p) => match t {
            TokenView::Branch => Ok(p),
            _ => Err((ParseErrorView::Unexpected(t, TokenView::Branch), p)),
        },
    }
}

/// The colon a construct requires next: the position past it, or the error
/// met instead.
pub open spec fn spec_expect_colon(s: Seq<u8>, pos: int) -> Result<int, (ParseErrorView, int)> {
    match spec_next_token(s, pos) {
        LexResult::End => Err((ParseErrorView::Eof, s.len() as int)),
        LexResult::Fail(e, p) => Err((e, p)),
        LexResult::Tok(t, p) => match t {
            TokenView::Colon => Ok(p),
            _ => Err((ParseErrorView::Unexpected(t, TokenView::Colon), p)),
        },
    }
}

/// An attribute clause after its introducing comma: `branch ':' STRING`,
/// which overwrites the branch of the most recently appended entry. With no
/// preceding entry the comma itself was unexpected.
pub open spec fn spec_parse_attrs(s: Seq<u8>, pos: int, acc: Seq<FlavorView>) -> Result<
    (Seq<FlavorView>, int),
    (ParseErrorView, int),
> {
    match spec_expect_branch(s, pos) {
        Err(ep) => Err(ep),
        Ok(p1) => {
            if acc.len() == 0 {
                Err((ParseErrorView::Unexpected(TokenView::Comma, TokenView::Flavor), p1))
            } else {
                match spec_expect_colon(s, p1) {
                    Err(ep) => Err(ep),
                    Ok(p2) => match spec_expect_str(s, p2) {
                        Err(ep) => Err(ep),
                        Ok((cs, p3)) => Ok(
                            (
                                acc.update(
                                    acc.len() - 1,
                                    FlavorView { repo: acc.last().repo, branch: cs },
                                ),
                                p3,
                            ),
                        ),
                    },
                }
            }
        },
    }
}

/// Reading a required string literal advances the position within bounds.
pub proof fn lemma_expect_str_bounds(s: Seq<u8>, pos: int)
    requires
        0 <= pos <= s.len(),
    ensures
        match spec_expect_str(s, pos) {
            Ok((_, p)) => pos < p <= s.len(),
            Err((_, p)) => pos <= p <= s.len(),
        },
{
    lemma_next_token_bounds(s, pos);
}

proof fn lemma_expect_branch_bounds(s: Seq<u8>, pos: int)
    requires
        0 <= pos <= s.len(),
    ensures
        match spec_expect_branch(s, pos) {
            Ok(p) => pos < p <= s.len(),
            Err((_, p)) => pos <= p <= s.len(),
        },
{
    lemma_next_token_bounds(s, pos);
}

proof fn lemma_expect_colon_bounds(s: Seq<u8>, pos: int)
    requires
        0 <= pos <= s.len(),
    ensures
        match spec_expect_colon(s, pos) {
            Ok(p) => pos < p <= s.len(),
            Err((_, p)) => pos <= p <= s.len(),
        },
{
    lemma_next_token_bounds(s, pos);
}

/// Reading an attribute clause advances the position within bounds.
pub proof fn lemma_parse_attrs_bounds(s: Seq<u8>, pos: int, acc: Seq<FlavorView>)
    requires
        0 <= pos <= s.len(),
    ensures
        match spec_parse_attrs(s, pos, acc) {
            Ok((_, p)) => pos < p <= s.len(),
            Err((_, p)) => pos <= p <= s.len(),
        },
{
    lemma_expect_branch_bounds(s, pos);
    match spec_expect_branch(s, pos) {
        Err(_) => {},
        Ok(p1) => {
            lemma_expect_colon_bounds(s, p1);
            match spec_expect_colon(s, p1) {
                Err(_) => {},
                Ok(p2) => {
                    lemma_expect_str_bounds(s, p2);
                },
            }
        },
    }
}

/// The manifest grammar from position `pos` with the entries `acc` already
/// accumulated: statements are read until the input ends at a statement
/// boundary, which succeeds, or until the first error, which is returned
/// with the offset where it arose.
pub open spec fn spec_parse(s: Seq<u8>, pos: int, acc: Seq<FlavorView>) -> ParseOutcome
    decreases (s.len() - pos)
    when (0 <= pos <= s.len())
{
    match spec_next_token(s, pos) {
        LexResult::End => ParseOutcome::Done(acc, s.len() as int),
        LexResult::Fail(e, p) => ParseOutcome::Fail(e, p),
        LexResult::Tok(t, p) => {
            proof {
                lemma_next_token_bounds(s, pos);
                lemma_line_end(s, p);
                lemma_expect_str_bounds(s, p);
                lemma_parse_attrs_bounds(s, p, acc);
            }
            match t {
                TokenView::Hash => spec_parse(s, line_end(s, p), acc),
            TokenView::Flavor => match spec_expect_str(s, p) {
                Err((e, p2)) => ParseOutcome::Fail(e, p2),
                Ok((repo, p2)) => spec_parse(
                    s,
                    p2,
                    acc.push(FlavorView { repo, branch: "master"@ }),
                ),
            },
            TokenView::Comma => match spec_parse_attrs(s, p, acc) {
                Err((e, p2)) => ParseOutcome::Fail(e, p2),
                Ok((acc2, p2)) => spec_parse(s, p2, acc2),
            },
            _ => ParseOutcome::Fail(ParseErrorView::Unexpected(t, TokenView::Flavor), p),
            }
        },
    }
}

impl Parser {
    fn parse_str(&mut self) -> (r: Result<String, ParseError>)
        requires
            old(self).wf(),
        ensures
            final(self).wf(),
            final(self).bytes() == old(self).bytes(),
            ({
                match spec_expect_str(old(self).bytes(), old(self).offset as int) {
                    Ok((cs, p)) => {
                        &&& r matches Ok(st) && st@ == cs
                        &&& final(self).offset == p
                    },
                    Err((e, p)) => {
                        &&& r matches Err(er) && er@ == e
                        &&& final(self).offset == p
                    },
                }
            }),
    {
        match self.next_token() {
            Err(e) => Err(e),
            Ok(t) => match t {
                Token::Str(st) => Ok(st),
                _ => Err(ParseError::TypeMismatch),
            },
        }
    }

    fn parse_branch(&mut self) -> (r: Result<(), ParseError>)
        requires
            old(self).wf(),
        ensures
            final(self).wf(),
            final(self).bytes() == old(self).bytes(),
            ({
                match spec_expect_branch(old(self).bytes(), old(self).offset as int) {
                    Ok(p) => r is Ok && final(self).offset == p,
                    Err((e, p)) => {
                        &&& r matches Err(er) && er@ == e
                        &&& final(self).offset == p
                    },
                }
            }),
    {
        match self.next_token() {
            Err(e) => Err(e),
            Ok(t) => match t {
                Token::Branch => Ok(()),
                t2 => Err(ParseError::Unexpected(t2, Token::Branch)),
            },
        }
    }

    fn parse_colon(&mut self) -> (r: Result<(), ParseError>)
        requires
            old(self).wf(),
        ensures
            final(self).wf(),
            final(self).bytes() == old(self).bytes(),
            ({
                match spec_expect_colon(old(self).bytes(), old(self).offset as int) {
                    Ok(p) => r is Ok && final(self).offset == p,
                    Err((e, p)) => {
                        &&& r matches Err(er) && er@ == e
                        &&& final(self).offset == p
                    },
                }
            }),
    {
        match self.next_token() {
            Err(e) => Err(e),
            Ok(t) => match t {
                Token::Colon => Ok(()),
                t2 => Err(ParseError::Unexpected(t2, Token::Colon)),
            },
        }
    }

    fn parse_attrs(&mut self, vec: &mut Vec<Flavor>) -> (r: Result<(), ParseError>)
        requires
            old(self).wf(),
        ensures
            final(self).wf(),
            final(self).bytes() == old(self).bytes(),
            ({
                match spec_parse_attrs(
                    old(self).bytes(),
                    old(self).offset as int,
                    old(vec).deep_view(),
                ) {
                    Ok((acc2, p)) => {
                        &&& r is Ok
                        &&& final(vec).deep_view() == acc2
                        &&& final(self).offset == p
                    },
                    Err((e, p)) => {
                        &&& r matches Err(er) && er@ == e
                        &&& final(self).offset == p
                    },
                }
            }),
    {
        let ghost acc = old(vec).deep_view();
        match self.parse_branch() {
            Ok(()) => {},
            Err(e) => {
                return Err(e);
            },
        }
        let f = match vec.pop() {
            Some(f) => f,
            None => {
                return Err(ParseError::Unexpected(Token::Comma, Token::Flavor));
            },
        };
        match self.parse_colon() {
            Ok(()) => {},
            Err(e) => {
                return Err(e);
            },
        }
        let b = match self.parse_str() {
            Ok(x) => x,
            Err(e) => {
                return Err(e);
            },
        };
        let f2 = Flavor { repo: f.repo, branch: b };
        vec.push(f2);
        proof {
            assert(vec.deep_view() =~= acc.update(
                acc.len() - 1,
                FlavorView { repo: acc.last().repo, branch: f2.branch@ },
            ));
        }
        Ok(())
    }

    fn parse1(&mut self, vec: &mut Vec<Flavor>) -> (r: Result<(), ParseError>)
        requires
            old(self).wf(),
        ensures
            final(self).wf(),
            final(self).bytes() == old(self).bytes(),
            ({
                match spec_parse(
                    old(self).bytes(),
                    old(self).offset as int,
                    old(vec).deep_view(),
                ) {
                    ParseOutcome::Done(es, p) => {
                        &&& r is Ok
                        &&& final(vec).deep_view() == es
                        &&& final(self).offset == p
                    },
                    ParseOutcome::Fail(e, p) => {
                        &&& r matches Err(er) && er@ == e
                        &&& final(self).offset == p
                    },
                }
            }),
    {
        let ghost s = self.buffer@;
        let ghost pos0 = self.offset as int;
        let ghost acc0 = vec.deep_view();
        loop
            invariant
                self.buffer@ == s,
                s == old(self).bytes(),
                pos0 == old(self).offset as int,
                acc0 == old(vec).deep_view(),
                self.offset <= s.len(),
                spec_parse(s, pos0, acc0) == spec_parse(s, self.offset as int, vec.deep_view()),
            decreases s.len() - self.offset,
        {
            let ghost prev = self.offset as int;
            let ghost accv = vec.deep_view();
            proof {
                lemma_next_token_bounds(s, prev);
            }
            let tr = self.next_token();
            let t = match tr {
                Ok(t) => t,
                Err(e) => {
                    if e.is_eof_error() {
                        return Ok(());
                    }
                    return Err(e);
                },
            };
            let ghost ptok = self.offset as int;
            match t {
                Token::Hash => {
                    proof {
                        lemma_line_end(s, ptok);
                    }
                    self.skip_to_next_line();
                },
                Token::Flavor => {
                    proof {
                        lemma_expect_str_bounds(s, ptok);
                    }
                    let repo = match self.parse_str() {
                        Ok(x) => x,
                        Err(e) => {
                            return Err(e);
                        },
                    };
                    let branch = String::from_str("master");
                    let f = Flavor { repo, branch };
                    vec.push(f);
                    proof {
                        assert(vec.deep_view() =~= accv.push(f@));
                    }
                },
                Token::Comma => {
                    proof {
                        lemma_parse_attrs_bounds(s, ptok, accv);
                    }
                    match self.parse_attrs(vec) {
                        Ok(()) => {},
                        Err(e) => {
                            return Err(e);
                        },
                    }
                },
                t2 => {
                    return Err(ParseError::Unexpected(t2, Token::Flavor));
                },
            }
        }
    }

    /// Parses the whole manifest from the cursor onward: the entries of its
    /// `flavor` statements in textual order, or the first error met.
    pub fn parse(&mut self) -> (r: Result<Vec<Flavor>, ParseError>)
        requires
            old(self).wf(),
        ensures
            final(self).wf(),
            final(self).bytes() == old(self).bytes(),
            ({
                match spec_parse(
                    old(self).bytes(),
                    old(self).offset as int,
                    Seq::<FlavorView>::empty(),
                ) {
                    ParseOutcome::Done(es, p) => {
                        &&& r matches Ok(v) && v.deep_view() == es
                        &&& final(self).offset == p
                    },
                    ParseOutcome::Fail(e, p) => {
                        &&& r matches Err(er) && er@ == e
                        &&& final(self).offset == p
                    },
                }
            }),
    {
        let mut vec: Vec<Flavor> = Vec::new();
        proof {
            assert(vec.deep_view() =~= Seq::<FlavorView>::empty());
        }
        match self.parse1(&mut vec) {
            Ok(()) => Ok(vec),
            Err(e) => Err(e),
        }
    }
}

/// No entry is silently dropped or reordered. Whatever further parsing does
/// to the entries already accumulated, a successful parse keeps every one of
/// their repositories in place and in textual order, leaves every entry but
/// the most recently appended one untouched, and only appends new entries
/// after them.
pub proof fn lemma_parse_keeps_entries(s: Seq<u8>, pos: int, acc: Seq<FlavorView>)
    requires
        0 <= pos <= s.len(),
    ensures
        spec_parse(s, pos, acc) matches ParseOutcome::Done(es, _) ==> {
            &&& es.len() >= acc.len()
            &&& forall|i: int| 0 <= i < acc.len() ==> es[i].repo == acc[i].repo
            &&& forall|i: int| 0 <= i < acc.len() - 1 ==> es[i] == acc[i]
        },
    decreases s.len() - pos,
{
    lemma_next_token_bounds(s, pos);
    match spec_next_token(s, pos) {
        LexResult::End => {},
        LexResult::Fail(e, p) => {},
        LexResult::Tok(t, p) => {
            lemma_line_end(s, p);
            lemma_expect_str_bounds(s, p);
            lemma_parse_attrs_bounds(s, p, acc);
            match t {
                TokenView::Hash => {
                    lemma_parse_keeps_entries(s, line_end(s, p), acc);
                },
                TokenView::Flavor => {
                    match spec_expect_str(s, p) {
                        Ok((repo, p2)) => {
                            lemma_parse_keeps_entries(
                                s,
                                p2,
                                acc.push(FlavorView { repo, branch: "master"@ }),
                            );
                        },
                        Err(ep) => {},
                    }
                },
                TokenView::Comma => {
                    match spec_parse_attrs(s, p, acc) {
                        Ok((acc2, p2)) => {
                            lemma_parse_keeps_entries(s, p2, acc2);
                        },
                        Err(ep) => {},
                    }
                },
                _ => {},
            }
        },
    }
}

/// A comment anywhere a statement may start is fully ignored: parsing from
/// its `#` marker gives exactly the entries, the error, and the offsets that
/// parsing from just past the comment's line gives.
pub proof fn lemma_comment_is_ignored(s: Seq<u8>, pos: int, acc: Seq<FlavorView>)
    requires
        0 <= pos < s.len(),
        s[pos] == BYTE_HASH,
    ensures
        spec_parse(s, pos, acc) == spec_parse(s, line_end(s, pos + 1), acc),
{
    lemma_next_token_bounds(s, pos);
    lemma_line_end(s, pos + 1);
    assert(spec_next_token(s, pos) == LexResult::Tok(TokenView::Hash, pos + 1));
}

} // verus!
