//! The tokens of the language.

use vstd::prelude::*;
use crate::value::numeral::Numeral;
use crate::value::text::Text;

verus! {

/// The reserved words. Each is written in the source as one fixed word; see
/// `Keyword::spelling`.
#[derive(Debug, Clone, Copy, PartialEq, Eq, Structural, Hash)]
pub enum Keyword {
    Class,
    Method,
    Field,
    ClassField,
    ClassFn,
    Constructor,
    Function,
    Global,
    Local,
    If,
    Else,
    ComeFrom,
    While,
    Return,
    Try,
    Catch,
    Throw,
    Switch,
    Case,
    Assert,
}

/// The three shapes of bracket.
#[derive(Debug, Clone, Copy, PartialEq, Eq, Structural, Hash)]
pub enum ParenKind {
    Round,
    Square,
    Curly,
}

/// Punctuation and operators.
#[derive(Debug, Clone, Copy, PartialEq, Eq, Structural, Hash)]
pub enum Symbol {
    Endline,
    Comma,
    Colon,
    Dot,
    Equal,
    EqualEqual,
    NotEqual,
    LessThan,
    LessThanOrEqual,
    GreaterThan,
    GreaterThanOrEqual,
    Compare,
    Plus,
    PlusEqual,
    Hyphen,
    HyphenEqual,
    Asterisk,
    AsteriskEqual,
    AsteriskAsterisk,
    AsteriskAsteriskEqual,
    Solidus,
    SolidusEqual,
    PercentSign,
    PercentSignEqual,
    Exclamation,
    AndAnd,
    OrOr,
}

/// A literal value in the source.
///
/// `TextInterpolation` is a quoted text with expressions embedded in it.
/// Each entry pairs the text that stands before an embedded expression with
/// the tokens of that expression; the last field is the text after the last
/// expression.
#[derive(Debug, PartialEq, Eq, Hash)]
pub enum Literal {
    Null,
    Boolean(bool),
    Numeral(Numeral),
    Text(Text),
    TextInterpolation(Vec<(Text, Vec<Token>)>, Text),
}

/// One token.
#[derive(Debug, PartialEq, Eq, Hash)]
pub enum Token {
    Keyword(Keyword),
    Symbol(Symbol),
    LeftParen(ParenKind),
    RightParen(ParenKind),
    Literal(Literal),
    Identifier(String),
}

/// What sort of token a token is, without the payload of literals and
/// identifiers.
#[derive(Debug, Clone, Copy, PartialEq, Eq, Structural, Hash)]
pub enum TokenKind {
    Keyword(Keyword),
    Symbol(Symbol),
    LeftParen(ParenKind),
    RightParen(ParenKind),
    Literal,
    Identifier,
}

/// How many keywords there are.
pub const KEYWORD_COUNT: usize = 20;

impl Keyword {
    /// How the keyword is written in the source.
    pub open spec fn spelling(self) -> Seq<char> {
        match self {
            Keyword::Class => "form"@,
            Keyword::Method => "change"@,
            Keyword::Field => "matter"@,
            Keyword::ClassField => "essence"@,
            Keyword::ClassFn => "recall"@,
            Keyword::Constructor => "imitate"@,
            Keyword::Function => "journey"@,
            Keyword::Global => "renowned"@,
            Keyword::Local => "nigh"@,
            Keyword::If => "if"@,
            Keyword::Else => "alas"@,
            Keyword::ComeFrom => "whence"@,
            Keyword::While => "whilst"@,
            Keyword::Return => "reward"@,
            Keyword::Try => "attempt"@,
            Keyword::Catch => "retreat"@,
            Keyword::Throw => "catapult"@,
            Keyword::Switch => "fork"@,
            Keyword::Case => "path"@,
            Keyword::Assert => "challenge"@,
        }
    }

    /// The keyword at place `rank` in the order in which the tokenizer
    /// tries them. Places past the last keyword hold the last keyword.
    pub open spec fn ranked(rank: nat) -> Keyword {
        if rank == 0 {
            Keyword::Class
        } else if rank == 1 {
            Keyword::Method
        } else if rank == 2 {
            Keyword::Field
        } else if rank == 3 {
            Keyword::ClassField
        } else if rank == 4 {
            Keyword::ClassFn
        } else if rank == 5 {
            Keyword::Constructor
        } else if rank == 6 {
            Keyword::Function
        } else if rank == 7 {
            Keyword::Global
        } else if rank == 8 {
            Keyword::Local
        } else if rank == 9 {
            Keyword::If
        } else if rank == 10 {
            Keyword::Else
        } else if rank == 11 {
            Keyword::ComeFrom
        } else if rank == 12 {
            Keyword::While
        } else if rank == 13 {
            Keyword::Return
        } else if rank == 14 {
            Keyword::Try
        } else if rank == 15 {
            Keyword::Catch
        } else if rank == 16 {
            Keyword::Throw
        } else if rank == 17 {
            Keyword::Switch
        } else if rank == 18 {
            Keyword::Case
        } else {
            Keyword::Assert
        }
    }

    /// How the keyword is written in the source.
    pub fn word(self) -> (word: &'static str)
        ensures
            word@ == self.spelling(),
    {
        match self {
            Keyword::Class => "form",
            Keyword::Method => "change",
            Keyword::Field => "matter",
            Keyword::ClassField => "essence",
            Keyword::ClassFn => "recall",
            Keyword::Constructor => "imitate",
            Keyword::Function => "journey",
            Keyword::Global => "renowned",
            Keyword::Local => "nigh",
            Keyword::If => "if",
            Keyword::Else => "alas",
            Keyword::ComeFrom => "whence",
            Keyword::While => "whilst",
            Keyword::Return => "reward",
            Keyword::Try => "attempt",
            Keyword::Catch => "retreat",
            Keyword::Throw => "catapult",
            Keyword::Switch => "fork",
            Keyword::Case => "path",
            Keyword::Assert => "challenge",
        }
    }

    /// The keyword at place `rank` in the order in which the tokenizer
    /// tries them.
    pub fn at_rank(rank: usize) -> (keyword: Keyword)
        ensures
            keyword == Keyword::ranked(rank as nat),
    {
        match rank {
            0 => Keyword::Class,
            1 => Keyword::Method,
            2 => Keyword::Field,
            3 => Keyword::ClassField,
            4 => Keyword::ClassFn,
            5 => Keyword::Constructor,
            6 => Keyword::Function,
            7 => Keyword::Global,
            8 => Keyword::Local,
            9 => Keyword::If,
            10 => Keyword::Else,
            11 => Keyword::ComeFrom,
            12 => Keyword::While,
            13 => Keyword::Return,
            14 => Keyword::Try,
            15 => Keyword::Catch,
            16 => Keyword::Throw,
            17 => Keyword::Switch,
            18 => Keyword::Case,
            _ => Keyword::Assert,
        }
    }
}

/// Every keyword is spelled with at least one character and begins with a
/// small ASCII letter.
pub proof fn lemma_spelling(keyword: Keyword)
    ensures
        keyword.spelling().len() > 0,
        'a' <= keyword.spelling()[0] <= 'z',
{
    reveal_strlit("form");
    reveal_strlit("change");
    reveal_strlit("matter");
    reveal_strlit("essence");
    reveal_strlit("recall");
    reveal_strlit("imitate");
    reveal_strlit("journey");
    reveal_strlit("renowned");
    reveal_strlit("nigh");
    reveal_strlit("if");
    reveal_strlit("alas");
    reveal_strlit("whence");
    reveal_strlit("whilst");
    reveal_strlit("reward");
    reveal_strlit("attempt");
    reveal_strlit("retreat");
    reveal_strlit("catapult");
    reveal_strlit("fork");
    reveal_strlit("path");
    reveal_strlit("challenge");
}

/// A literal as a mathematical value.
pub enum LiteralView {
    Null,
    Boolean(bool),
    Numeral(int),
    Text(Seq<char>),
    TextInterpolation(Seq<(Seq<char>, Seq<Lexeme>)>, Seq<char>),
}

/// A token as a mathematical value.
pub enum Lexeme {
    Keyword(Keyword),
    Symbol(Symbol),
    LeftParen(ParenKind),
    RightParen(ParenKind),
    Literal(LiteralView),
    Identifier(Seq<char>),
}

/// The views of a row of tokens.
pub open spec fn tokens_view(tokens: Seq<Token>) -> Seq<Lexeme>
    decreases tokens,
{
    Seq::new(
        tokens.len(),
        |i: int|
            if 0 <= i < tokens.len() {
                tokens[i].view()
            } else {
                Lexeme::Literal(LiteralView::Null)
            },
    )
}

/// The views of the parts of an interpolated text.
pub open spec fn segments_view(segments: Seq<(Text, Vec<Token>)>) -> Seq<(Seq<char>, Seq<Lexeme>)>
    decreases segments,
{
    Seq::new(
        segments.len(),
        |i: int|
            if 0 <= i < segments.len() {
                (segments[i].0@, tokens_view(segments[i].1@))
            } else {
                (Seq::empty(), Seq::empty())
            },
    )
}

impl Literal {
    pub open spec fn view(&self) -> LiteralView
        decreases self,
    {
        match self {
            Literal::Null => LiteralView::Null,
            Literal::Boolean(b) => LiteralView::Boolean(*b),
            Literal::Numeral(n) => LiteralView::Numeral(n@),
            Literal::Text(text) => LiteralView::Text(text@),
            Literal::TextInterpolation(segments, tail) => LiteralView::TextInterpolation(
                segments_view(segments@),
                tail@,
            ),
        }
    }
}

impl Token {
    pub open spec fn view(&self) -> Lexeme
        decreases self,
    {
        match self {
            Token::Keyword(keyword) => Lexeme::Keyword(*keyword),
            Token::Symbol(symbol) => Lexeme::Symbol(*symbol),
            Token::LeftParen(kind) => Lexeme::LeftParen(*kind),
            Token::RightParen(kind) => Lexeme::RightParen(*kind),
            Token::Literal(literal) => Lexeme::Literal(literal.view()),
            Token::Identifier(name) => Lexeme::Identifier(name@),
        }
    }

    /// The sort of this token.
    pub open spec fn kind_of(lexeme: Lexeme) -> TokenKind {
        match lexeme {
            Lexeme::Keyword(keyword) => TokenKind::Keyword(keyword),
            Lexeme::Symbol(symbol) => TokenKind::Symbol(symbol),
            Lexeme::LeftParen(kind) => TokenKind::LeftParen(kind),
            Lexeme::RightParen(kind) => TokenKind::RightParen(kind),
            Lexeme::Literal(_) => TokenKind::Literal,
            Lexeme::Identifier(_) => TokenKind::Identifier,
        }
    }

    /// The sort of this token.
    pub fn kind(&self) -> (kind: TokenKind)
        ensures
            kind == Token::kind_of(self@),
    {
        match self {
            Token::Keyword(keyword) => TokenKind::Keyword(*keyword),
            Token::Symbol(symbol) => TokenKind::Symbol(*symbol),
            Token::LeftParen(kind) => TokenKind::LeftParen(*kind),
            Token::RightParen(kind) => TokenKind::RightParen(*kind),
            Token::Literal(_) => TokenKind::Literal,
            Token::Identifier(_) => TokenKind::Identifier,
        }
    }
}

/// Adding a token to a row adds its view to the row's view.
pub proof fn lemma_tokens_view_push(tokens: Seq<Token>, token: Token)
    ensures
        tokens_view(tokens.push(token)) == tokens_view(tokens).push(token@),
{
    assert(tokens_view(tokens.push(token)) =~= tokens_view(tokens).push(token@));
}

/// Adding a part to an interpolated text adds its view to the text's view.
pub proof fn lemma_segments_view_push(
    segments: Seq<(Text, Vec<Token>)>,
    text: Text,
    tokens: Vec<Token>,
)
    ensures
        segments_view(segments.push((text, tokens))) == segments_view(segments).push(
            (text@, tokens_view(tokens@)),
        ),
{
    assert(segments_view(segments.push((text, tokens))) =~= segments_view(segments).push(
        (text@, tokens_view(tokens@)),
    ));
}

/// A copy of a row of tokens.
pub fn clone_tokens(tokens: &Vec<Token>) -> (copy: Vec<Token>)
    ensures
        tokens_view(copy@) == tokens_view(tokens@),
    decreases tokens,
{
    let mut copy: Vec<Token> = Vec::new();
    let mut i: usize = 0;
    while i < tokens.len()
        invariant
            i <= tokens.len(),
            copy.len() == i,
            forall|j: int| 0 <= j < i ==> (#[trigger] copy@[j])@ == tokens@[j]@,
        decreases tokens.len() - i,
    {
        let token = tokens[i].clone();
        copy.push(token);
        i += 1;
    }
    assert(tokens_view(copy@) =~= tokens_view(tokens@));
    copy
}

impl Clone for Literal {
    fn clone(&self) -> (copy: Literal)
        ensures
            copy@ == self@,
        decreases self,
    {
        match self {
            Literal::Null => Literal::Null,
            Literal::Boolean(b) => Literal::Boolean(*b),
            Literal::Numeral(n) => Literal::Numeral(*n),
            Literal::Text(text) => Literal::Text(text.clone()),
            Literal::TextInterpolation(segments, tail) => {
                let mut copy: Vec<(Text, Vec<Token>)> = Vec::new();
                let mut i: usize = 0;
                while i < segments.len()
                    invariant
                        i <= segments.len(),
                        copy.len() == i,
                        self matches Literal::TextInterpolation(parts, _) && parts == segments,
                        forall|j: int|
                            0 <= j < i ==> (#[trigger] copy@[j]).0@ == segments@[j].0@
                                && tokens_view(copy@[j].1@) == tokens_view(segments@[j].1@),
                    decreases segments.len() - i,
                {
                    proof {
                        assert(decreases_to!(self => segments));
                        assert(decreases_to!(segments => segments[i as int]));
                        assert(decreases_to!(segments[i as int] => segments[i as int].1));
                    }
                    let text = segments[i].0.clone();
                    let tokens = clone_tokens(&segments[i].1);
                    copy.push((text, tokens));
                    i += 1;
                }
                assert(segments_view(copy@) =~= segments_view(segments@));
                Literal::TextInterpolation(copy, tail.clone())
            },
        }
    }
}

impl Clone for Token {
    fn clone(&self) -> (copy: Token)
        ensures
            copy@ == self@,
        decreases self,
    {
        match self {
            Token::Keyword(keyword) => Token::Keyword(*keyword),
            Token::Symbol(symbol) => Token::Symbol(*symbol),
            Token::LeftParen(kind) => Token::LeftParen(*kind),
            Token::RightParen(kind) => Token::RightParen(*kind),
            Token::Literal(literal) => Token::Literal(literal.clone()),
            Token::Identifier(name) => Token::Identifier(name.clone()),
        }
    }
}

} // verus!
