use vstd::prelude::*;

verus! {

/// A token of the source language. A decimal literal is held by its text.
#[derive(Debug, PartialEq, Eq)]
pub enum Token {
    Name(String),
    Arg(String),
    Bin(i64),
    Oct(i64),
    Int(i64),
    Hex(i64),
    Float(String),
    Str(String),
    True,
    False,
    LParen,
    RParen,
    LBracket,
    RBracket,
    LBrace,
    RBrace,
    Semicolon,
    Comma,
    Dot,
    Colon,
    Newline,
    Amp,
    Assign,
    Plus,
    Minus,
    Star,
    Slash,
    Percent,
    Lt,
    Gt,
    Eq,
    Proc,
    Func,
    Return,
    OnFlag,
    Var,
    List,
    Local,
    If,
    Else,
    Repeat,
    Forever,
    Until,
    Not,
    And,
    Or,
}

/// The mathematical value of a [`Token`].
pub enum TokenView {
    Name(Seq<char>),
    Arg(Seq<char>),
    Bin(i64),
    Oct(i64),
    Int(i64),
    Hex(i64),
    Float(Seq<char>),
    Str(Seq<char>),
    True,
    False,
    LParen,
    RParen,
    LBracket,
    RBracket,
    LBrace,
    RBrace,
    Semicolon,
    Comma,
    Dot,
    Colon,
    Newline,
    Amp,
    Assign,
    Plus,
    Minus,
    Star,
    Slash,
    Percent,
    Lt,
    Gt,
    Eq,
    Proc,
    Func,
    Return,
    OnFlag,
    Var,
    List,
    Local,
    If,
    Else,
    Repeat,
    Forever,
    Until,
    Not,
    And,
    Or,
}

impl View for Token {
    type V = TokenView;

    open spec fn view(&self) -> TokenView {
        match self {
            Token::Name(s) => TokenView::Name(s@),
            Token::Arg(s) => TokenView::Arg(s@),
            Token::Bin(n) => TokenView::Bin(*n),
            Token::Oct(n) => TokenView::Oct(*n),
            Token::Int(n) => TokenView::Int(*n),
            Token::Hex(n) => TokenView::Hex(*n),
            Token::Float(s) => TokenView::Float(s@),
            Token::Str(s) => TokenView::Str(s@),
            Token::True => TokenView::True,
            Token::False => TokenView::False,
            Token::LParen => TokenView::LParen,
            Token::RParen => TokenView::RParen,
            Token::LBracket => TokenView::LBracket,
            Token::RBracket => TokenView::RBracket,
            Token::LBrace => TokenView::LBrace,
            Token::RBrace => TokenView::RBrace,
            Token::Semicolon => TokenView::Semicolon,
            Token::Comma => TokenView::Comma,
            Token::Dot => TokenView::Dot,
            Token::Colon => TokenView::Colon,
            Token::Newline => TokenView::Newline,
            Token::Amp => TokenView::Amp,
            Token::Assign => TokenView::Assign,
            Token::Plus => TokenView::Plus,
            Token::Minus => TokenView::Minus,
            Token::Star => TokenView::Star,
            Token::Slash => TokenView::Slash,
            Token::Percent => TokenView::Percent,
            Token::Lt => TokenView::Lt,
            Token::Gt => TokenView::Gt,
            Token::Eq => TokenView::Eq,
            Token::Proc => TokenView::Proc,
            Token::Func => TokenView::Func,
            Token::Return => TokenView::Return,
            Token::OnFlag => TokenView::OnFlag,
            Token::Var => TokenView::Var,
            Token::List => TokenView::List,
            Token::Local => TokenView::Local,
            Token::If => TokenView::If,
            Token::Else => TokenView::Else,
            Token::Repeat => TokenView::Repeat,
            Token::Forever => TokenView::Forever,
            Token::Until => TokenView::Until,
            Token::Not => TokenView::Not,
            Token::And => TokenView::And,
            Token::Or => TokenView::Or,
        }
    }
}

} // verus!
