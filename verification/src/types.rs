//! The data model: tokens, declarations, and the block tree, together with
//! the ghost values (`Lexeme`, `StyleModel`, `BlockModel`) that contracts
//! speak about.

use vstd::prelude::*;

verus! {

/// A single `name: value;` property assignment within a block.
#[derive(Debug, PartialEq, Clone)]
pub struct Style {
    pub name: String,
    pub value: String,
}

/// The mathematical value of a `Style`: its two text fields as
/// character sequences.
#[verifier::ext_equal]
pub struct StyleModel {
    pub name: Seq<char>,
    pub value: Seq<char>,
}

impl View for Style {
    type V = StyleModel;

    open spec fn view(&self) -> StyleModel {
        StyleModel { name: self.name@, value: self.value@ }
    }
}

/// One parsed selector scope: the raw selector text as written, the
/// declarations in order (duplicates preserved), and the nested child
/// scopes in order. Every child is owned by exactly one parent.
#[derive(Debug, PartialEq)]
pub struct Block {
    pub selector: String,
    pub styles: Vec<Style>,
    pub sub_blocks: Vec<Block>,
}

/// The mathematical value of a `Block`: a finite tree of selector scopes.
#[verifier::ext_equal]
pub struct BlockModel {
    pub selector: Seq<char>,
    pub styles: Seq<StyleModel>,
    pub children: Seq<BlockModel>,
}

impl View for Block {
    type V = BlockModel;

    open spec fn view(&self) -> BlockModel
        decreases self,
    {
        BlockModel {
            selector: self.selector@,
            styles: styles_model(self.styles@),
            children: blocks_model(self.sub_blocks@),
        }
    }
}

/// The models of a sequence of blocks, in order.
pub open spec fn blocks_model(bs: Seq<Block>) -> Seq<BlockModel>
    decreases bs,
{
    if bs.len() == 0 {
        Seq::empty()
    } else {
        seq![bs[0]@] + blocks_model(bs.drop_first())
    }
}

/// The models of a sequence of styles, in order.
pub open spec fn styles_model(ss: Seq<Style>) -> Seq<StyleModel> {
    Seq::new(ss.len(), |i: int| ss[i]@)
}

/// `blocks_model` maps the sequence elementwise: it keeps the length and
/// models each block in place.
pub proof fn lemma_blocks_model(bs: Seq<Block>)
    ensures
        blocks_model(bs).len() == bs.len(),
        forall|i: int| 0 <= i < bs.len() ==> blocks_model(bs)[i] == bs[i]@,
    decreases bs,
{
    if bs.len() > 0 {
        lemma_blocks_model(bs.drop_first());
        assert(bs.drop_first().len() == bs.len() - 1);
        assert(blocks_model(bs) == seq![bs[0]@] + blocks_model(bs.drop_first()));
        assert(blocks_model(bs).len() == bs.len());
        assert forall|i: int| 0 <= i < bs.len() implies blocks_model(bs)[i] == bs[i]@ by {
            if i > 0 {
                assert(blocks_model(bs)[i] == blocks_model(bs.drop_first())[i - 1]);
                assert(bs.drop_first()[i - 1] == bs[i]);
            }
        }
    }
}

impl Block {
    /// Builds a block from its three parts, changing none of them.
    pub fn new(selector: String, styles: Vec<Style>, sub_blocks: Vec<Block>) -> (b: Block)
        ensures
            b@.selector == selector@,
            b@.styles == styles_model(styles@),
            b@.children == blocks_model(sub_blocks@),
    {
        Block { selector, styles, sub_blocks }
    }
}

/// A token of the source language, tagged by its glyph; identifiers and
/// quoted string literals both carry their text in an `Ident`.
#[derive(Debug, Eq, PartialEq, Clone)]
pub enum Token {
    LBrace,
    RBrace,
    SemiColon,
    Colon,
    LBracket,
    RBracket,
    Equals,
    Eof,
    Ident(String),
    Class,
    DirectChild,
    All,
    And,
    After,
    Before,
    Root,
}

/// The mathematical value of a `Token`; an `Ident`'s text is a
/// character sequence.
#[verifier::ext_equal]
pub enum Lexeme {
    LBrace,
    RBrace,
    SemiColon,
    Colon,
    LBracket,
    RBracket,
    Equals,
    Eof,
    Ident(Seq<char>),
    Class,
    DirectChild,
    All,
    And,
    After,
    Before,
    Root,
}

impl View for Token {
    type V = Lexeme;

    open spec fn view(&self) -> Lexeme {
        match self {
            Token::LBrace => Lexeme::LBrace,
            Token::RBrace => Lexeme::RBrace,
            Token::SemiColon => Lexeme::SemiColon,
            Token::Colon => Lexeme::Colon,
            Token::LBracket => Lexeme::LBracket,
            Token::RBracket => Lexeme::RBracket,
            Token::Equals => Lexeme::Equals,
            Token::Eof => Lexeme::Eof,
            Token::Ident(s) => Lexeme::Ident(s@),
            Token::Class => Lexeme::Class,
            Token::DirectChild => Lexeme::DirectChild,
            Token::All => Lexeme::All,
            Token::And => Lexeme::And,
            Token::After => Lexeme::After,
            Token::Before => Lexeme::Before,
            Token::Root => Lexeme::Root,
        }
    }
}

/// The lexemes of a sequence of tokens, in order.
pub open spec fn lexemes(ts: Seq<Token>) -> Seq<Lexeme> {
    Seq::new(ts.len(), |i: int| ts[i]@)
}

/// The token, if any, written with the single character `c`.
/// The nul character stands for end of input.
pub open spec fn char_lexeme(c: char) -> Option<Lexeme> {
    match c {
        '{' => Some(Lexeme::LBrace),
        '}' => Some(Lexeme::RBrace),
        ';' => Some(Lexeme::SemiColon),
        ':' => Some(Lexeme::Colon),
        '[' => Some(Lexeme::LBracket),
        ']' => Some(Lexeme::RBracket),
        '=' => Some(Lexeme::Equals),
        '.' => Some(Lexeme::Class),
        '>' => Some(Lexeme::DirectChild),
        '*' => Some(Lexeme::All),
        ',' => Some(Lexeme::And),
        '+' => Some(Lexeme::After),
        '~' => Some(Lexeme::Before),
        '&' => Some(Lexeme::Root),
        '\0' => Some(Lexeme::Eof),
        _ => None,
    }
}

/// The text a lexeme contributes to selector output: punctuation emits its
/// glyph, an identifier emits its own text.
pub open spec fn lexeme_text(l: Lexeme) -> Seq<char> {
    match l {
        Lexeme::LBrace => seq!['{'],
        Lexeme::RBrace => seq!['}'],
        Lexeme::SemiColon => seq![';'],
        Lexeme::Colon => seq![':'],
        Lexeme::LBracket => seq!['['],
        Lexeme::RBracket => seq![']'],
        Lexeme::Equals => seq!['='],
        Lexeme::Eof => seq!['E', 'O', 'F'],
        Lexeme::Ident(s) => s,
        Lexeme::Class => seq!['.'],
        Lexeme::DirectChild => seq!['>'],
        Lexeme::All => seq!['*'],
        Lexeme::And => seq![','],
        Lexeme::After => seq!['+'],
        Lexeme::Before => seq!['~'],
        Lexeme::Root => seq!['&'],
    }
}

/// Whether a lexeme may stand inside a selector (every punctuation lexeme
/// of the selector grammar, including the attribute-selector brackets).
pub open spec fn is_sel_lex(l: Lexeme) -> bool {
    match l {
        Lexeme::Class
        | Lexeme::DirectChild
        | Lexeme::All
        | Lexeme::And
        | Lexeme::After
        | Lexeme::Before
        | Lexeme::Root
        | Lexeme::Colon
        | Lexeme::LBracket
        | Lexeme::RBracket
        | Lexeme::Equals => true,
        _ => false,
    }
}

/// Whether a lexeme is an identifier.
pub open spec fn is_ident_lex(l: Lexeme) -> bool {
    l is Ident
}

/// Appending a block models it in place at the end.
pub proof fn lemma_blocks_model_push(bs: Seq<Block>, b: Block)
    ensures
        blocks_model(bs.push(b)) == blocks_model(bs).push(b@),
{
    lemma_blocks_model(bs);
    lemma_blocks_model(bs.push(b));
    assert(blocks_model(bs.push(b)) =~= blocks_model(bs).push(b@));
}

/// Appending a style models it in place at the end.
pub proof fn lemma_styles_model_push(ss: Seq<Style>, st: Style)
    ensures
        styles_model(ss.push(st)) == styles_model(ss).push(st@),
{
    assert(styles_model(ss.push(st)) =~= styles_model(ss).push(st@));
}

/// A well-formed token sequence: it terminates in exactly one end-of-input
/// lexeme, which appears nowhere else.
pub open spec fn wf_lexemes(toks: Seq<Lexeme>) -> bool {
    &&& toks.len() >= 1
    &&& toks.last() == Lexeme::Eof
    &&& forall|k: int| 0 <= k < toks.len() - 1 ==> toks[k] != Lexeme::Eof
}

impl Token {
    /// The token written with the single character `s`, if any.
    #[allow(dead_code)]
    pub fn from_str(s: char) -> (r: Option<Token>)
        ensures
            match r {
                Some(t) => char_lexeme(s) == Some(t@),
                None => char_lexeme(s) is None,
            },
    {
        match s {
            '{' => Some(Token::LBrace),
            '}' => Some(Token::RBrace),
            ';' => Some(Token::SemiColon),
            ':' => Some(Token::Colon),
            '[' => Some(Token::LBracket),
            ']' => Some(Token::RBracket),
            '=' => Some(Token::Equals),
            '.' => Some(Token::Class),
            '>' => Some(Token::DirectChild),
            '*' => Some(Token::All),
            ',' => Some(Token::And),
            '+' => Some(Token::After),
            '~' => Some(Token::Before),
            '&' => Some(Token::Root),
            '\0' => Some(Token::Eof),
            _ => None,
        }
    }

    /// The text this token contributes when concatenated into a selector.
    pub fn to_string(&self) -> (r: &str)
        ensures
            r@ == lexeme_text(self@),
    {
        match self {
            Token::LBrace => {
                proof {
                    reveal_strlit("{");
                }
                let r = "{";
                proof {
                    assert(r@ =~= seq!['{']);
                }
                r
            },
            Token::RBrace => {
                proof {
                    reveal_strlit("}");
                }
                let r = "}";
                proof {
                    assert(r@ =~= seq!['}']);
                }
                r
            },
            Token::SemiColon => {
                proof {
                    reveal_strlit(";");
                }
                let r = ";";
                proof {
                    assert(r@ =~= seq![';']);
                }
                r
            },
            Token::Colon => {
                proof {
                    reveal_strlit(":");
                }
                let r = ":";
                proof {
                    assert(r@ =~= seq![':']);
                }
                r
            },
            Token::LBracket => {
                proof {
                    reveal_strlit("[");
                }
                let r = "[";
                proof {
                    assert(r@ =~= seq!['[']);
                }
                r
            },
            Token::RBracket => {
                proof {
                    reveal_strlit("]");
                }
                let r = "]";
                proof {
                    assert(r@ =~= seq![']']);
                }
                r
            },
            Token::Equals => {
                proof {
                    reveal_strlit("=");
                }
                let r = "=";
                proof {
                    assert(r@ =~= seq!['=']);
                }
                r
            },
            Token::Eof => {
                proof {
                    reveal_strlit("EOF");
                }
                let r = "EOF";
                proof {
                    assert(r@ =~= seq!['E', 'O', 'F']);
                }
                r
            },
            Token::Ident(s) => s.as_str(),
            Token::Class => {
                proof {
                    reveal_strlit(".");
                }
                let r = ".";
                proof {
                    assert(r@ =~= seq!['.']);
                }
                r
            },
            Token::DirectChild => {
                proof {
                    reveal_strlit(">");
                }
                let r = ">";
                proof {
                    assert(r@ =~= seq!['>']);
                }
                r
            },
            Token::All => {
                proof {
                    reveal_strlit("*");
                }
                let r = "*";
                proof {
                    assert(r@ =~= seq!['*']);
                }
                r
            },
            Token::And => {
                proof {
                    reveal_strlit(",");
                }
                let r = ",";
                proof {
                    assert(r@ =~= seq![',']);
                }
                r
            },
            Token::After => {
                proof {
                    reveal_strlit("+");
                }
                let r = "+";
                proof {
                    assert(r@ =~= seq!['+']);
                }
                r
            },
            Token::Before => {
                proof {
                    reveal_strlit("~");
                }
                let r = "~";
                proof {
                    assert(r@ =~= seq!['~']);
                }
                r
            },
            Token::Root => {
                proof {
                    reveal_strlit("&");
                }
                let r = "&";
                proof {
                    assert(r@ =~= seq!['&']);
                }
                r
            },
        }
    }

    /// Whether this token may stand inside a selector.
    pub fn is_selector(&self) -> (r: bool)
        ensures
            r == is_sel_lex(self@),
    {
        matches!(
            self,
            Token::Class
                | Token::DirectChild
                | Token::All
                | Token::And
                | Token::After
                | Token::Before
                | Token::Root
                | Token::Colon
                | Token::LBracket
                | Token::RBracket
                | Token::Equals
        )
    }

    /// Whether this token is an identifier.
    pub fn is_ident(&self) -> (r: bool)
        ensures
            r == is_ident_lex(self@),
    {
        matches!(self, Token::Ident(_))
    }
}

} // verus!
