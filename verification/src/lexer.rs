//! Lexical scanning: source text to a sequence of tokens.
//!
//! The scanner skips whitespace, turns each fixed punctuation glyph into its
//! token, captures quoted spans (delimiters included) and identifier runs as
//! `Ident` tokens, and fails on the first character that fits no production.
//! Exactly one end-of-input token is appended after the scan.

use crate::types::{char_lexeme, lexemes, wf_lexemes, Lexeme, Token};
use vstd::prelude::*;

verus! {

/// Whether `c` counts as alphanumeric, exactly as `char::is_alphanumeric`
/// of std decides it. The answer depends on the character alone.
pub uninterp spec fn is_alphanum(c: char) -> bool;

/// Relies on `char::is_alphanumeric`: a pure classification of the
/// character, named here by `is_alphanum`.
pub assume_specification[ char::is_alphanumeric ](c: char) -> (r: bool)
    ensures
        r == is_alphanum(c),
;

/// Whitespace characters skipped between tokens.
pub open spec fn is_ws(c: char) -> bool {
    c == ' ' || c == '\t' || c == '\n' || c == '\r'
}

/// Quote characters that open and close a quoted identifier.
pub open spec fn is_quote(c: char) -> bool {
    c == '"' || c == '\''
}

/// Whether `c` is one of the fixed single-character punctuation glyphs.
pub open spec fn is_punct(c: char) -> bool {
    char_lexeme(c) is Some && c != '\0'
}

/// The lexeme of a punctuation glyph.
pub open spec fn punct_lexeme(c: char) -> Lexeme {
    char_lexeme(c)->Some_0
}

/// Characters that may stand in an identifier run.
pub open spec fn spec_ident_char(c: char) -> bool {
    is_alphanum(c) || c == '_' || c == '-'
}

/// The index just past the first occurrence of the quote `q` at or after
/// `j`, or the input length when no such occurrence follows.
pub open spec fn scan_quote(s: Seq<char>, q: char, j: int) -> int
    decreases s.len() - j,
{
    if j < 0 || j >= s.len() {
        s.len() as int
    } else if s[j] == q {
        j + 1
    } else {
        scan_quote(s, q, j + 1)
    }
}

/// The index just past a quoted span that opens at `i`: past the matching
/// closing quote, or the input length when the span is unterminated.
pub open spec fn quote_end(s: Seq<char>, i: int) -> int {
    scan_quote(s, s[i], i + 1)
}

/// The index of the first character at or after `i` that cannot stand in an
/// identifier, or the input length.
pub open spec fn ident_end(s: Seq<char>, i: int) -> int
    decreases s.len() - i,
{
    if i < 0 || i >= s.len() {
        s.len() as int
    } else if spec_ident_char(s[i]) {
        ident_end(s, i + 1)
    } else {
        i
    }
}

/// An unrecognized character and the index at which it stood.
#[verifier::ext_equal]
pub struct LexErrModel {
    pub ch: char,
    pub offset: int,
}

/// The scanning error: a character that fits no token production, reported
/// with its offset in the input.
#[derive(Debug, PartialEq, Eq, Clone, Copy)]
pub struct LexError {
    pub ch: char,
    pub offset: usize,
}

impl View for LexError {
    type V = LexErrModel;

    open spec fn view(&self) -> LexErrModel {
        LexErrModel { ch: self.ch, offset: self.offset as int }
    }
}

/// The token sequence scanned from index `i` of the source on, without the
/// final end-of-input token; or the first unrecognized character.
pub open spec fn lex_from(s: Seq<char>, i: int) -> Result<Seq<Lexeme>, LexErrModel>
    decreases s.len() - i,
{
    if i < 0 || i >= s.len() {
        Ok(Seq::empty())
    } else if is_ws(s[i]) {
        lex_from(s, i + 1)
    } else if is_punct(s[i]) {
        match lex_from(s, i + 1) {
            Ok(rest) => Ok(seq![punct_lexeme(s[i])] + rest),
            Err(e) => Err(e),
        }
    } else if is_quote(s[i]) {
        let j = quote_end(s, i);
        if i < j && j <= s.len() {
            match lex_from(s, j) {
                Ok(rest) => Ok(seq![Lexeme::Ident(s.subrange(i, j))] + rest),
                Err(e) => Err(e),
            }
        } else {
            Err(LexErrModel { ch: s[i], offset: i })
        }
    } else if spec_ident_char(s[i]) {
        let j = ident_end(s, i);
        if i < j && j <= s.len() {
            match lex_from(s, j) {
                Ok(rest) => Ok(seq![Lexeme::Ident(s.subrange(i, j))] + rest),
                Err(e) => Err(e),
            }
        } else {
            Err(LexErrModel { ch: s[i], offset: i })
        }
    } else {
        Err(LexErrModel { ch: s[i], offset: i })
    }
}

/// The whole scan: the token sequence of the source, terminated by exactly
/// one end-of-input lexeme; or the first unrecognized character.
pub open spec fn spec_tokenize(s: Seq<char>) -> Result<Seq<Lexeme>, LexErrModel> {
    match lex_from(s, 0) {
        Ok(ts) => Ok(ts.push(Lexeme::Eof)),
        Err(e) => Err(e),
    }
}

/// A successful scan yields no end-of-input lexeme of its own.
proof fn lemma_lex_from_no_eof(s: Seq<char>, i: int)
    ensures
        lex_from(s, i) matches Ok(ts) ==> forall|k: int|
            0 <= k < ts.len() ==> ts[k] != Lexeme::Eof,
    decreases s.len() - i,
{
    if i < 0 || i >= s.len() {
    } else if is_ws(s[i]) {
        lemma_lex_from_no_eof(s, i + 1);
    } else if is_punct(s[i]) {
        lemma_lex_from_no_eof(s, i + 1);
    } else if is_quote(s[i]) {
        let j = quote_end(s, i);
        if i < j && j <= s.len() {
            lemma_lex_from_no_eof(s, j);
        }
    } else if spec_ident_char(s[i]) {
        let j = ident_end(s, i);
        if i < j && j <= s.len() {
            lemma_lex_from_no_eof(s, j);
        }
    }
}

/// `scan_quote` never looks backwards and never runs past the input.
proof fn lemma_scan_quote_bounds(s: Seq<char>, q: char, j: int)
    requires
        0 <= j <= s.len(),
    ensures
        j <= scan_quote(s, q, j) <= s.len(),
    decreases s.len() - j,
{
    if j < s.len() && s[j] != q {
        lemma_scan_quote_bounds(s, q, j + 1);
    }
}

/// `ident_end` never looks backwards and never runs past the input.
proof fn lemma_ident_end_bounds(s: Seq<char>, i: int)
    requires
        0 <= i <= s.len(),
    ensures
        i <= ident_end(s, i) <= s.len(),
    decreases s.len() - i,
{
    if i < s.len() && spec_ident_char(s[i]) {
        lemma_ident_end_bounds(s, i + 1);
    }
}

/// Whether `c` is one of the whitespace characters skipped between tokens.
fn is_whitespace_char(c: char) -> (r: bool)
    ensures
        r == is_ws(c),
{
    c == ' ' || c == '\t' || c == '\n' || c == '\r'
}

/// Whether `c` may stand in an identifier run.
fn is_valid_ident_char(ch: char) -> (r: bool)
    ensures
        r == spec_ident_char(ch),
{
    ch.is_alphanumeric() || ch == '_' || ch == '-'
}

/// A cursor over the characters of one source text.
pub struct Lexer {
    input: String,
    length: usize,
    position: usize,
}

impl Lexer {
    /// The cursor is inside the input, whose cached length is right.
    pub closed spec fn wf(&self) -> bool {
        self.length == self.input@.len() && self.position <= self.length
    }

    /// The character sequence being scanned.
    pub closed spec fn src(&self) -> Seq<char> {
        self.input@
    }

    /// The current cursor index.
    pub closed spec fn pos(&self) -> int {
        self.position as int
    }

    /// Builds a scanner over `input` with the cursor at the start.
    pub fn new(input: String) -> (l: Lexer)
        ensures
            l.wf(),
            l.src() == input@,
            l.pos() == 0,
    {
        let length = input.as_str().unicode_len();
        Lexer { input, length, position: 0 }
    }

    /// Moves the cursor one character forward, stopping at the end.
    fn read_char(&mut self)
        requires
            old(self).wf(),
        ensures
            final(self).wf(),
            final(self).src() == old(self).src(),
            final(self).pos() == if old(self).pos() < old(self).src().len() {
                old(self).pos() + 1
            } else {
                old(self).pos()
            },
    {
        if self.position < self.length {
            self.position = self.position + 1;
        }
    }

    /// Captures a quoted span (delimiters included) or an identifier run,
    /// starting at the cursor, and leaves the cursor just past it.
    fn read_identifier(&mut self) -> (r: String)
        requires
            old(self).wf(),
            old(self).pos() < old(self).src().len(),
            is_quote(old(self).src()[old(self).pos()]) || spec_ident_char(
                old(self).src()[old(self).pos()],
            ),
        ensures
            final(self).wf(),
            final(self).src() == old(self).src(),
            ({
                let s = old(self).src();
                let i = old(self).pos();
                let j = if is_quote(s[i]) {
                    quote_end(s, i)
                } else {
                    ident_end(s, i)
                };
                final(self).pos() == j && i < j && r@ == s.subrange(i, j)
            }),
    {
        let ghost s = self.input@;
        let start = self.position;
        let c = self.input.as_str().get_char(self.position);
        if c == '"' || c == '\'' {
            self.read_char();
            proof {
                lemma_scan_quote_bounds(s, c, start + 1);
            }
            while self.position < self.length && self.input.as_str().get_char(self.position) != c
                invariant
                    self.wf(),
                    self.src() == s,
                    start + 1 <= self.pos() <= s.len(),
                    c == s[start as int],
                    scan_quote(s, c, start + 1) == scan_quote(s, c, self.pos()),
                decreases s.len() - self.pos(),
            {
                self.read_char();
            }
            if self.position < self.length {
                self.read_char();
            }
            proof {
                assert(self.pos() == quote_end(s, start as int));
            }
        } else {
            proof {
                lemma_ident_end_bounds(s, start + 1);
            }
            while self.position < self.length && is_valid_ident_char(
                self.input.as_str().get_char(self.position),
            )
                invariant
                    self.wf(),
                    self.src() == s,
                    start <= self.pos() <= s.len(),
                    ident_end(s, start as int) == ident_end(s, self.pos()),
                decreases s.len() - self.pos(),
            {
                self.read_char();
            }
            proof {
                assert(self.pos() == ident_end(s, start as int));
            }
        }
        let text = self.input.as_str().substring_char(start, self.position);
        text.to_owned()
    }

    /// Skips whitespace and scans the next token; `Eof` when only
    /// whitespace is left. The token scanned is the one `lex_from` sees at
    /// the old cursor, and the cursor ends where the rest of the scan
    /// begins.
    pub fn next_token(&mut self) -> (r: Result<Token, LexError>)
        requires
            old(self).wf(),
        ensures
            final(self).wf(),
            final(self).src() == old(self).src(),
            match r {
                Ok(t) => {
                    &&& (t@ is Eof ==> lex_from(old(self).src(), old(self).pos())
                        == Ok::<Seq<Lexeme>, LexErrModel>(Seq::empty()))
                    &&& (!(t@ is Eof) ==> final(self).pos() > old(self).pos() && lex_from(
                        old(self).src(),
                        old(self).pos(),
                    ) == (match lex_from(final(self).src(), final(self).pos()) {
                        Ok(rest) => Ok::<Seq<Lexeme>, LexErrModel>(seq![t@] + rest),
                        Err(e) => Err(e),
                    }))
                },
                Err(e) => lex_from(old(self).src(), old(self).pos()) == Err::<
                    Seq<Lexeme>,
                    LexErrModel,
                >(e@),
            },
    {
        let ghost s = self.input@;
        let ghost p0 = self.pos();
        while self.position < self.length && is_whitespace_char(
            self.input.as_str().get_char(self.position),
        )
            invariant
                self.wf(),
                self.src() == s,
                p0 <= self.pos(),
                lex_from(s, p0) == lex_from(s, self.pos()),
            decreases s.len() - self.pos(),
        {
            self.read_char();
        }
        if self.position >= self.length {
            return Ok(Token::Eof);
        }
        let ch = self.input.as_str().get_char(self.position);
        match Token::from_str(ch) {
            Some(tok) => {
                if !matches!(tok, Token::Eof) {
                    proof {
                        assert(is_punct(ch));
                    }
                    self.read_char();
                    return Ok(tok);
                }
            },
            None => {},
        }
        // Here `ch` matches no punctuation glyph (a nul character, which
        // `from_str` reads as end of input, is treated like any other
        // unrecognized character).
        if ch == '"' || ch == '\'' {
            let text = self.read_identifier();
            return Ok(Token::Ident(text));
        }
        if is_valid_ident_char(ch) {
            let text = self.read_identifier();
            return Ok(Token::Ident(text));
        }
        Err(LexError { ch, offset: self.position })
    }

    /// Scans the whole input: every token in order with exactly one
    /// end-of-input token appended, or the first unrecognized character.
    pub fn get_tokens(&mut self) -> (r: Result<Vec<Token>, LexError>)
        requires
            old(self).wf(),
        ensures
            final(self).wf(),
            final(self).src() == old(self).src(),
            match r {
                Ok(v) => {
                    &&& lex_from(old(self).src(), old(self).pos()) matches Ok(ts) && lexemes(v@)
                        == ts.push(Lexeme::Eof)
                    &&& wf_lexemes(lexemes(v@))
                    &&& old(self).pos() == 0 ==> spec_tokenize(old(self).src()) == Ok::<
                        Seq<Lexeme>,
                        LexErrModel,
                    >(lexemes(v@))
                },
                Err(e) => {
                    &&& lex_from(old(self).src(), old(self).pos()) == Err::<
                        Seq<Lexeme>,
                        LexErrModel,
                    >(e@)
                    &&& old(self).pos() == 0 ==> spec_tokenize(old(self).src()) == Err::<
                        Seq<Lexeme>,
                        LexErrModel,
                    >(e@)
                },
            },
    {
        let ghost s = self.input@;
        let ghost p0 = self.pos();
        let mut tokens: Vec<Token> = Vec::new();
        proof {
            lemma_lex_from_no_eof(s, p0);
        }
        loop
            invariant
                self.wf(),
                self.src() == s,
                s == old(self).src(),
                p0 == old(self).pos(),
                forall|k: int| 0 <= k < tokens@.len() ==> lexemes(tokens@)[k] != Lexeme::Eof,
                match lex_from(s, self.pos()) {
                    Ok(rest) => lex_from(s, p0) == Ok::<Seq<Lexeme>, LexErrModel>(
                        lexemes(tokens@) + rest,
                    ),
                    Err(e) => lex_from(s, p0) == Err::<Seq<Lexeme>, LexErrModel>(e),
                },
            decreases s.len() - self.pos(),
        {
            let ghost tokens_before = tokens@;
            let ghost pos_before = self.pos();
            match self.next_token() {
                Ok(t) => {
                    let at_end = matches!(t, Token::Eof);
                    let ghost tl = t@;
                    tokens.push(t);
                    proof {
                        assert(lexemes(tokens@) =~= lexemes(tokens_before).push(tl));
                    }
                    if at_end {
                        proof {
                            assert(lex_from(s, pos_before) == Ok::<Seq<Lexeme>, LexErrModel>(
                                Seq::empty(),
                            ));
                            assert(lexemes(tokens_before) + Seq::empty() =~= lexemes(
                                tokens_before,
                            ));
                            lemma_lex_from_no_eof(s, p0);
                        }
                        return Ok(tokens);
                    }
                    proof {
                        if lex_from(s, self.pos()) is Ok {
                            let rest = lex_from(s, self.pos())->Ok_0;
                            assert(lexemes(tokens_before) + (seq![tl] + rest) =~= lexemes(
                                tokens@,
                            ) + rest);
                        }
                    }
                },
                Err(e) => {
                    return Err(e);
                },
            }
        }
    }
}

/// Tokenizing a one-character input that consists of a single punctuation
/// glyph yields exactly that glyph's token followed by end-of-input.
pub proof fn lemma_punct_round_trip(c: char)
    requires
        is_punct(c),
    ensures
        spec_tokenize(seq![c]) == Ok::<Seq<Lexeme>, LexErrModel>(
            seq![punct_lexeme(c), Lexeme::Eof],
        ),
{
    let s = seq![c];
    assert(!is_ws(c));
    assert(lex_from(s, 1) == Ok::<Seq<Lexeme>, LexErrModel>(Seq::empty()));
    assert(lex_from(s, 0) == Ok::<Seq<Lexeme>, LexErrModel>(seq![punct_lexeme(c)] + Seq::empty()));
    assert(seq![punct_lexeme(c)] + Seq::empty() =~= seq![punct_lexeme(c)]);
    assert(seq![punct_lexeme(c)].push(Lexeme::Eof) =~= seq![punct_lexeme(c), Lexeme::Eof]);
}

} // verus!
