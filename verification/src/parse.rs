//! Recursive-descent parsing: a token sequence to a tree of blocks.
//!
//! A block is a run of selector tokens, an opening brace, a body, and a
//! closing brace. Inside a body, one token of lookahead decides each item:
//! when the token after the current one is a colon, a `name: value;`
//! declaration follows; otherwise a nested block does.

use crate::types::{
    blocks_model, is_ident_lex, is_sel_lex, lemma_blocks_model_push, lemma_styles_model_push,
    lexemes, lexeme_text, styles_model, wf_lexemes, Block, BlockModel, Lexeme, Style, StyleModel,
    Token,
};
use vstd::prelude::*;

verus! {

/// The parsing error: the token found where another kind was required, or
/// an input that ended where a further token was required.
#[verifier::ext_equal]
pub enum ParseErrModel {
    Unexpected { expected: Lexeme, found: Lexeme },
    ExpectedIdent { found: Lexeme },
    UnexpectedEnd,
}

/// An expected-token mismatch (carrying the token kind expected and the
/// token actually found), a missing identifier, or a premature end of
/// input.
#[derive(Debug, PartialEq, Eq, Clone)]
pub enum ParseError {
    Unexpected { expected: Token, found: Token },
    ExpectedIdent { found: Token },
    UnexpectedEnd,
}

impl View for ParseError {
    type V = ParseErrModel;

    open spec fn view(&self) -> ParseErrModel {
        match self {
            ParseError::Unexpected { expected, found } => ParseErrModel::Unexpected {
                expected: expected@,
                found: found@,
            },
            ParseError::ExpectedIdent { found } => ParseErrModel::ExpectedIdent { found: found@ },
            ParseError::UnexpectedEnd => ParseErrModel::UnexpectedEnd,
        }
    }
}

/// The selector text read from index `i` on: the concatenated text of the
/// longest run of selector-punctuation and identifier tokens, and the index
/// of the first token past that run.
pub open spec fn parse_selector_spec(toks: Seq<Lexeme>, i: int) -> (Seq<char>, int)
    decreases toks.len() - i, 0int,
{
    if i < 0 || i >= toks.len() {
        (Seq::empty(), i)
    } else if is_sel_lex(toks[i]) || is_ident_lex(toks[i]) {
        let (rest, j) = parse_selector_spec(toks, i + 1);
        (lexeme_text(toks[i]) + rest, j)
    } else {
        (Seq::empty(), i)
    }
}

/// One declaration read from index `i` on: an identifier, a colon, an
/// identifier and a semicolon give the (name, value) pair and the index
/// past the semicolon; any other shape gives the error met first.
pub open spec fn parse_style_spec(toks: Seq<Lexeme>, i: int) -> Result<
    (StyleModel, int),
    ParseErrModel,
> {
    if i < 0 || i >= toks.len() {
        Err(ParseErrModel::UnexpectedEnd)
    } else if !(toks[i] is Ident) {
        Err(ParseErrModel::ExpectedIdent { found: toks[i] })
    } else if i + 1 >= toks.len() {
        Err(ParseErrModel::UnexpectedEnd)
    } else if !(toks[i + 1] is Colon) {
        Err(ParseErrModel::Unexpected { expected: Lexeme::Colon, found: toks[i + 1] })
    } else if i + 2 >= toks.len() {
        Err(ParseErrModel::UnexpectedEnd)
    } else if !(toks[i + 2] is Ident) {
        Err(ParseErrModel::ExpectedIdent { found: toks[i + 2] })
    } else if i + 3 >= toks.len() {
        Err(ParseErrModel::UnexpectedEnd)
    } else if !(toks[i + 3] is SemiColon) {
        Err(ParseErrModel::Unexpected { expected: Lexeme::SemiColon, found: toks[i + 3] })
    } else {
        Ok((StyleModel { name: toks[i]->Ident_0, value: toks[i + 2]->Ident_0 }, i + 4))
    }
}

/// One block read from index `i` on: a selector run, an opening brace, a
/// body and a closing brace give the block and the index past the closing
/// brace.
pub open spec fn parse_block_spec(toks: Seq<Lexeme>, i: int) -> Result<
    (BlockModel, int),
    ParseErrModel,
>
    decreases toks.len() - i, 1int,
{
    let (sel, j) = parse_selector_spec(toks, i);
    if j < i || j >= toks.len() {
        Err(ParseErrModel::UnexpectedEnd)
    } else if !(toks[j] is LBrace) {
        Err(ParseErrModel::Unexpected { expected: Lexeme::LBrace, found: toks[j] })
    } else {
        match parse_body_spec(toks, j + 1) {
            Err(e) => Err(e),
            Ok((styles, children, k)) => if k < toks.len() && toks[k] is RBrace {
                Ok((BlockModel { selector: sel, styles, children }, k + 1))
            } else {
                Err(ParseErrModel::UnexpectedEnd)
            },
        }
    }
}

/// A block body read from index `i` on, up to (not past) the closing
/// brace: the declarations and nested blocks in order, and the index of
/// the closing brace. An end-of-input token inside a body is premature.
pub open spec fn parse_body_spec(toks: Seq<Lexeme>, i: int) -> Result<
    (Seq<StyleModel>, Seq<BlockModel>, int),
    ParseErrModel,
>
    decreases toks.len() - i, 2int,
{
    if i < 0 || i >= toks.len() {
        Err(ParseErrModel::UnexpectedEnd)
    } else if toks[i] is RBrace {
        Ok((Seq::empty(), Seq::empty(), i))
    } else if toks[i] is Eof {
        Err(ParseErrModel::UnexpectedEnd)
    } else if i + 1 < toks.len() && toks[i + 1] is Colon {
        match parse_style_spec(toks, i) {
            Err(e) => Err(e),
            Ok((st, j)) => if i < j && j <= toks.len() {
                match parse_body_spec(toks, j) {
                    Err(e) => Err(e),
                    Ok((styles, children, k)) => Ok((seq![st] + styles, children, k)),
                }
            } else {
                Err(ParseErrModel::UnexpectedEnd)
            },
        }
    } else {
        match parse_block_spec(toks, i) {
            Err(e) => Err(e),
            Ok((b, j)) => if i < j && j <= toks.len() {
                match parse_body_spec(toks, j) {
                    Err(e) => Err(e),
                    Ok((styles, children, k)) => Ok((styles, seq![b] + children, k)),
                }
            } else {
                Err(ParseErrModel::UnexpectedEnd)
            },
        }
    }
}

/// The top level read from index `i` on: blocks, one after the other,
/// until the end-of-input token.
pub open spec fn parse_top_spec(toks: Seq<Lexeme>, i: int) -> Result<
    Seq<BlockModel>,
    ParseErrModel,
>
    decreases toks.len() - i, 3int,
{
    if i < 0 || i >= toks.len() {
        Err(ParseErrModel::UnexpectedEnd)
    } else if toks[i] is Eof {
        Ok(Seq::empty())
    } else {
        match parse_block_spec(toks, i) {
            Err(e) => Err(e),
            Ok((b, j)) => if i < j && j <= toks.len() {
                match parse_top_spec(toks, j) {
                    Err(e) => Err(e),
                    Ok(rest) => Ok(seq![b] + rest),
                }
            } else {
                Err(ParseErrModel::UnexpectedEnd)
            },
        }
    }
}

/// The whole parse of a well-formed token sequence: the top-level blocks
/// in order, or the first error met.
pub open spec fn parse_spec(toks: Seq<Lexeme>) -> Result<Seq<BlockModel>, ParseErrModel> {
    parse_top_spec(toks, 0)
}

/// An owned copy of a token, equal to it in value.
fn clone_token(t: &Token) -> (r: Token)
    ensures
        r@ == t@,
{
    match t {
        Token::LBrace => Token::LBrace,
        Token::RBrace => Token::RBrace,
        Token::SemiColon => Token::SemiColon,
        Token::Colon => Token::Colon,
        Token::LBracket => Token::LBracket,
        Token::RBracket => Token::RBracket,
        Token::Equals => Token::Equals,
        Token::Eof => Token::Eof,
        Token::Ident(s) => Token::Ident(s.clone()),
        Token::Class => Token::Class,
        Token::DirectChild => Token::DirectChild,
        Token::All => Token::All,
        Token::And => Token::And,
        Token::After => Token::After,
        Token::Before => Token::Before,
        Token::Root => Token::Root,
    }
}

/// Whether `t` is a token of the same fixed kind as `expected`, which must
/// not be an identifier; for such kinds this is value equality.
fn token_matches(t: &Token, expected: &Token) -> (r: bool)
    requires
        !(expected@ is Ident),
    ensures
        r == (t@ == expected@),
{
    match (t, expected) {
        (Token::LBrace, Token::LBrace) => true,
        (Token::RBrace, Token::RBrace) => true,
        (Token::SemiColon, Token::SemiColon) => true,
        (Token::Colon, Token::Colon) => true,
        (Token::LBracket, Token::LBracket) => true,
        (Token::RBracket, Token::RBracket) => true,
        (Token::Equals, Token::Equals) => true,
        (Token::Eof, Token::Eof) => true,
        (Token::Class, Token::Class) => true,
        (Token::DirectChild, Token::DirectChild) => true,
        (Token::All, Token::All) => true,
        (Token::And, Token::And) => true,
        (Token::After, Token::After) => true,
        (Token::Before, Token::Before) => true,
        (Token::Root, Token::Root) => true,
        _ => false,
    }
}

/// A cursor over one token sequence.
struct Parser {
    tokens: Vec<Token>,
    position: usize,
}

impl Parser {
    /// The lexemes of the token sequence being parsed.
    spec fn toks(&self) -> Seq<Lexeme> {
        lexemes(self.tokens@)
    }

    /// The current cursor index.
    spec fn pos(&self) -> int {
        self.position as int
    }

    /// The token sequence is well formed, fits in memory, and the cursor
    /// is on a token.
    spec fn wf(&self) -> bool {
        &&& wf_lexemes(self.toks())
        &&& self.position < self.tokens@.len()
        &&& self.tokens@.len() <= usize::MAX
    }

    /// Builds a parser over `tokens` with the cursor at the start.
    fn new(tokens: Vec<Token>) -> (p: Parser)
        requires
            wf_lexemes(lexemes(tokens@)),
        ensures
            p.wf(),
            p.toks() == lexemes(tokens@),
            p.pos() == 0,
    {
        // The call bounds the sequence length by a machine size, which the
        // cursor arithmetic depends on.
        let _n = tokens.len();
        Parser { tokens, position: 0 }
    }

    /// The token under the cursor.
    fn current_token(&self) -> (t: &Token)
        requires
            self.position < self.tokens@.len(),
        ensures
            t@ == self.toks()[self.pos()],
    {
        let t = &self.tokens[self.position];
        proof {
            assert(self.toks()[self.pos()] == self.tokens@[self.pos()]@);
        }
        t
    }

    /// Consumes the token under the cursor when it is of the expected fixed
    /// kind; otherwise reports the mismatch and moves nothing.
    fn expect(&mut self, expected: &Token) -> (r: Result<(), ParseError>)
        requires
            old(self).wf(),
            !(expected@ is Ident),
            !(expected@ is Eof),
        ensures
            final(self).toks() == old(self).toks(),
            match r {
                Ok(_) => {
                    &&& old(self).toks()[old(self).pos()] == expected@
                    &&& final(self).pos() == old(self).pos() + 1
                    &&& final(self).wf()
                },
                Err(e) => {
                    &&& *final(self) == *old(self)
                    &&& old(self).toks()[old(self).pos()] != expected@
                    &&& e@ == (ParseErrModel::Unexpected {
                        expected: expected@,
                        found: old(self).toks()[old(self).pos()],
                    })
                },
            },
    {
        if token_matches(self.current_token(), expected) {
            proof {
                assert(self.toks()[self.pos()] != Lexeme::Eof);
                assert(self.pos() < self.toks().len() - 1);
            }
            self.position = self.position + 1;
            Ok(())
        } else {
            let found = clone_token(self.current_token());
            Err(ParseError::Unexpected { expected: clone_token(expected), found })
        }
    }

    /// Consumes an identifier token and hands its text out; otherwise
    /// reports the token found and moves nothing.
    fn parse_ident(&mut self) -> (r: Result<String, ParseError>)
        requires
            old(self).wf(),
        ensures
            final(self).toks() == old(self).toks(),
            match r {
                Ok(name) => {
                    &&& old(self).toks()[old(self).pos()] == Lexeme::Ident(name@)
                    &&& final(self).pos() == old(self).pos() + 1
                    &&& final(self).wf()
                },
                Err(e) => {
                    &&& *final(self) == *old(self)
                    &&& !(old(self).toks()[old(self).pos()] is Ident)
                    &&& e@ == (ParseErrModel::ExpectedIdent {
                        found: old(self).toks()[old(self).pos()],
                    })
                },
            },
    {
        match self.current_token() {
            Token::Ident(s) => {
                let name = s.clone();
                proof {
                    assert(self.toks()[self.pos()] != Lexeme::Eof);
                    assert(self.pos() < self.toks().len() - 1);
                }
                self.position = self.position + 1;
                Ok(name)
            },
            t => {
                let found = clone_token(t);
                Err(ParseError::ExpectedIdent { found })
            },
        }
    }

    /// Reads the longest selector run under the cursor and hands back its
    /// concatenated text; the cursor ends on the first token past the run.
    fn parse_selector(&mut self) -> (r: String)
        requires
            old(self).wf(),
        ensures
            final(self).wf(),
            final(self).toks() == old(self).toks(),
            old(self).pos() <= final(self).pos(),
            parse_selector_spec(old(self).toks(), old(self).pos()) == (r@, final(self).pos()),
    {
        let ghost t0 = self.toks();
        let ghost p0 = self.pos();
        let mut selector = String::new();
        while self.current_token().is_selector() || self.current_token().is_ident()
            invariant
                self.wf(),
                self.toks() == t0,
                t0 == old(self).toks(),
                p0 == old(self).pos(),
                p0 <= self.pos(),
                parse_selector_spec(t0, p0) == (
                    selector@ + parse_selector_spec(t0, self.pos()).0,
                    parse_selector_spec(t0, self.pos()).1,
                ),
            decreases t0.len() - self.pos(),
        {
            let ghost pw = self.pos();
            let ghost sel_before = selector@;
            let text = self.current_token().to_string();
            selector.append(text);
            proof {
                assert(self.toks()[pw] != Lexeme::Eof);
                assert(self.pos() < self.toks().len() - 1);
            }
            self.position = self.position + 1;
            proof {
                assert(parse_selector_spec(t0, pw) == (
                    lexeme_text(t0[pw]) + parse_selector_spec(t0, pw + 1).0,
                    parse_selector_spec(t0, pw + 1).1,
                ));
                assert(sel_before + (lexeme_text(t0[pw]) + parse_selector_spec(t0, pw + 1).0)
                    =~= selector@ + parse_selector_spec(t0, pw + 1).0);
            }
        }
        proof {
            assert(parse_selector_spec(t0, self.pos()) == (Seq::<char>::empty(), self.pos()));
            assert(selector@ + Seq::<char>::empty() =~= selector@);
        }
        selector
    }

    /// Reads one `name: value;` declaration under the cursor, or reports
    /// the first token that breaks that shape.
    fn parse_style(&mut self) -> (r: Result<Style, ParseError>)
        requires
            old(self).wf(),
        ensures
            final(self).toks() == old(self).toks(),
            match r {
                Ok(st) => {
                    &&& parse_style_spec(old(self).toks(), old(self).pos()) == Ok::<
                        (StyleModel, int),
                        ParseErrModel,
                    >((st@, final(self).pos()))
                    &&& old(self).pos() < final(self).pos()
                    &&& final(self).wf()
                },
                Err(e) => parse_style_spec(old(self).toks(), old(self).pos()) == Err::<
                    (StyleModel, int),
                    ParseErrModel,
                >(e@),
            },
    {
        proof {
            assert(old(self).toks().last() == Lexeme::Eof);
        }
        let name = match self.parse_ident() {
            Ok(n) => n,
            Err(e) => {
                return Err(e);
            },
        };
        match self.expect(&Token::Colon) {
            Ok(_) => {},
            Err(e) => {
                return Err(e);
            },
        }
        let value = match self.parse_ident() {
            Ok(v) => v,
            Err(e) => {
                return Err(e);
            },
        };
        match self.expect(&Token::SemiColon) {
            Ok(_) => {},
            Err(e) => {
                return Err(e);
            },
        }
        Ok(Style { name, value })
    }

    /// Reads one block under the cursor: its selector, its declarations
    /// and its nested blocks, through the closing brace.
    fn parse_class(&mut self) -> (r: Result<Block, ParseError>)
        requires
            old(self).wf(),
        ensures
            final(self).toks() == old(self).toks(),
            match r {
                Ok(b) => {
                    &&& parse_block_spec(old(self).toks(), old(self).pos()) == Ok::<
                        (BlockModel, int),
                        ParseErrModel,
                    >((b@, final(self).pos()))
                    &&& old(self).pos() < final(self).pos()
                    &&& final(self).wf()
                },
                Err(e) => parse_block_spec(old(self).toks(), old(self).pos()) == Err::<
                    (BlockModel, int),
                    ParseErrModel,
                >(e@),
            },
        decreases old(self).tokens@.len() - old(self).position,
    {
        let ghost t0 = self.toks();
        let ghost p0 = self.pos();
        let selector = self.parse_selector();
        let ghost sel_end = self.pos();
        let mut block = Block::new(selector, vec![], vec![]);
        match self.expect(&Token::LBrace) {
            Ok(_) => {},
            Err(e) => {
                return Err(e);
            },
        }
        let ghost body_start = self.pos();
        while !token_matches(self.current_token(), &Token::RBrace)
            invariant
                self.wf(),
                self.toks() == t0,
                t0 == old(self).toks(),
                p0 == old(self).pos(),
                parse_selector_spec(t0, p0) == (block.selector@, sel_end),
                p0 <= sel_end < t0.len(),
                t0[sel_end] is LBrace,
                body_start == sel_end + 1,
                body_start <= self.pos(),
                match parse_body_spec(t0, self.pos()) {
                    Ok((ss, bs, k)) => parse_body_spec(t0, body_start) == Ok::<
                        (Seq<StyleModel>, Seq<BlockModel>, int),
                        ParseErrModel,
                    >((styles_model(block.styles@) + ss, blocks_model(block.sub_blocks@) + bs, k)),
                    Err(e) => parse_body_spec(t0, body_start) == Err::<
                        (Seq<StyleModel>, Seq<BlockModel>, int),
                        ParseErrModel,
                    >(e),
                },
            decreases t0.len() - self.pos(),
        {
            let ghost pw = self.pos();
            if token_matches(self.current_token(), &Token::Eof) {
                proof {
                    assert(parse_body_spec(t0, pw) == Err::<
                        (Seq<StyleModel>, Seq<BlockModel>, int),
                        ParseErrModel,
                    >(ParseErrModel::UnexpectedEnd));
                    lemma_parse_block_unfolds_to_body(t0, p0, sel_end, block.selector@);
                }
                return Err(ParseError::UnexpectedEnd);
            }
            proof {
                assert(t0[pw] != Lexeme::Eof);
                assert(pw < t0.len() - 1);
            }
            let is_decl = token_matches(&self.tokens[self.position + 1], &Token::Colon);
            proof {
                assert(self.tokens@[pw + 1]@ == t0[pw + 1]);
            }
            if is_decl {
                let ghost styles_before = block.styles@;
                match self.parse_style() {
                    Ok(st) => {
                        let ghost stl = st@;
                        block.styles.push(st);
                        proof {
                            lemma_styles_model_push(styles_before, block.styles@[
                                styles_before.len() as int]);
                            if parse_body_spec(t0, self.pos()) is Ok {
                                let (ss, bs, k) = parse_body_spec(t0, self.pos())->Ok_0;
                                assert(styles_model(styles_before) + (seq![stl] + ss)
                                    =~= styles_model(block.styles@) + ss);
                            }
                        }
                    },
                    Err(e) => {
                        proof {
                            lemma_parse_block_unfolds_to_body(t0, p0, sel_end, block.selector@);
                        }
                        return Err(e);
                    },
                }
            } else {
                let ghost subs_before = block.sub_blocks@;
                match self.parse_class() {
                    Ok(b) => {
                        let ghost bl = b@;
                        block.sub_blocks.push(b);
                        proof {
                            lemma_blocks_model_push(subs_before, block.sub_blocks@[
                                subs_before.len() as int]);
                            if parse_body_spec(t0, self.pos()) is Ok {
                                let (ss, bs, k) = parse_body_spec(t0, self.pos())->Ok_0;
                                assert(blocks_model(subs_before) + (seq![bl] + bs)
                                    =~= blocks_model(block.sub_blocks@) + bs);
                            }
                        }
                    },
                    Err(e) => {
                        proof {
                            lemma_parse_block_unfolds_to_body(t0, p0, sel_end, block.selector@);
                        }
                        return Err(e);
                    },
                }
            }
        }
        proof {
            assert(parse_body_spec(t0, self.pos()) == Ok::<
                (Seq<StyleModel>, Seq<BlockModel>, int),
                ParseErrModel,
            >((Seq::empty(), Seq::empty(), self.pos())));
            assert(styles_model(block.styles@) + Seq::<StyleModel>::empty() =~= styles_model(
                block.styles@,
            ));
            assert(blocks_model(block.sub_blocks@) + Seq::<BlockModel>::empty() =~= blocks_model(
                block.sub_blocks@,
            ));
        }
        let ghost rb = self.pos();
        match self.expect(&Token::RBrace) {
            Ok(_) => {},
            Err(e) => {
                return Err(e);
            },
        }
        proof {
            lemma_parse_block_unfolds_to_body(t0, p0, sel_end, block.selector@);
            assert(block@ =~= (BlockModel {
                selector: block.selector@,
                styles: styles_model(block.styles@),
                children: blocks_model(block.sub_blocks@),
            }));
        }
        Ok(block)
    }

    /// Reads every top-level block down to the end-of-input token.
    fn parse(&mut self) -> (r: Result<Vec<Block>, ParseError>)
        requires
            old(self).wf(),
        ensures
            match r {
                Ok(bs) => parse_top_spec(old(self).toks(), old(self).pos()) == Ok::<
                    Seq<BlockModel>,
                    ParseErrModel,
                >(blocks_model(bs@)),
                Err(e) => parse_top_spec(old(self).toks(), old(self).pos()) == Err::<
                    Seq<BlockModel>,
                    ParseErrModel,
                >(e@),
            },
    {
        let ghost t0 = self.toks();
        let ghost p0 = self.pos();
        let mut classes: Vec<Block> = Vec::new();
        while !token_matches(self.current_token(), &Token::Eof)
            invariant
                self.wf(),
                self.toks() == t0,
                t0 == old(self).toks(),
                p0 == old(self).pos(),
                p0 <= self.pos(),
                match parse_top_spec(t0, self.pos()) {
                    Ok(bs) => parse_top_spec(t0, p0) == Ok::<Seq<BlockModel>, ParseErrModel>(
                        blocks_model(classes@) + bs,
                    ),
                    Err(e) => parse_top_spec(t0, p0) == Err::<Seq<BlockModel>, ParseErrModel>(e),
                },
            decreases t0.len() - self.pos(),
        {
            let ghost subs_before = classes@;
            match self.parse_class() {
                Ok(b) => {
                    let ghost bl = b@;
                    classes.push(b);
                    proof {
                        lemma_blocks_model_push(subs_before, classes@[subs_before.len() as int]);
                        if parse_top_spec(t0, self.pos()) is Ok {
                            let bs = parse_top_spec(t0, self.pos())->Ok_0;
                            assert(blocks_model(subs_before) + (seq![bl] + bs) =~= blocks_model(
                                classes@,
                            ) + bs);
                        }
                    }
                },
                Err(e) => {
                    return Err(e);
                },
            }
        }
        proof {
            assert(parse_top_spec(t0, self.pos()) == Ok::<Seq<BlockModel>, ParseErrModel>(
                Seq::empty(),
            ));
            assert(blocks_model(classes@) + Seq::<BlockModel>::empty() =~= blocks_model(classes@));
        }
        Ok(classes)
    }
}

/// When the selector run from `i` ends at the opening brace at `sel_end`,
/// the block read from `i` is decided by the body read past that brace.
proof fn lemma_parse_block_unfolds_to_body(
    toks: Seq<Lexeme>,
    i: int,
    sel_end: int,
    sel: Seq<char>,
)
    requires
        parse_selector_spec(toks, i) == (sel, sel_end),
        i <= sel_end < toks.len(),
        toks[sel_end] is LBrace,
    ensures
        parse_block_spec(toks, i) == (match parse_body_spec(toks, sel_end + 1) {
            Err(e) => Err::<(BlockModel, int), ParseErrModel>(e),
            Ok((styles, children, k)) => if k < toks.len() && toks[k] is RBrace {
                Ok::<(BlockModel, int), ParseErrModel>(
                    (BlockModel { selector: sel, styles, children }, k + 1),
                )
            } else {
                Err::<(BlockModel, int), ParseErrModel>(ParseErrModel::UnexpectedEnd)
            },
        }),
{
}

/// Parses a well-formed token sequence into its top-level blocks, or
/// reports the first error met: the parsed blocks are exactly what the
/// grammar gives on those tokens.
pub fn parse(tokens: Vec<Token>) -> (r: Result<Vec<Block>, ParseError>)
    requires
        wf_lexemes(lexemes(tokens@)),
    ensures
        match r {
            Ok(bs) => parse_spec(lexemes(tokens@)) == Ok::<Seq<BlockModel>, ParseErrModel>(
                blocks_model(bs@),
            ),
            Err(e) => parse_spec(lexemes(tokens@)) == Err::<Seq<BlockModel>, ParseErrModel>(e@),
        },
{
    let mut parser = Parser::new(tokens);
    parser.parse()
}

} // verus!
