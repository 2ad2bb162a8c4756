use std::collections::VecDeque;
use std::ops::Range;
use vstd::prelude::*;

use crate::diagnostic::{Diagnostic, DiagnosticKind, DiagnosticKindView, DiagnosticView};
use crate::lexer::token::{Token, TokenView};
use crate::names::same_text;
use crate::ast::{Arg, Name};
use crate::visitor::uy_borrow_check::{
    arg_unborrowed, backend_type_spec, base_of_name, borrow_prefix, decode_borrow_name_spec,
    decode_ref_arg_spec, lemma_colon_at, name_unborrowed, ref_arg_prefix,
};

verus! {

/// Where the lexer stands in a procedure or function declaration: only inside a
/// parameter list does `&T name` declare a reference parameter.
#[derive(Clone, Copy, Debug, PartialEq, Eq, Structural)]
pub enum DeclMode {
    Normal,
    AwaitProcName,
    ProcArgs,
    AwaitFuncName,
    AwaitFuncLParen,
    FuncArgs,
}

/// A token as the scanner produced it, or a scanning error, with its span.
pub type RawToken = (Result<Token, ()>, Range<usize>);

/// The mathematical value of a [`RawToken`].
pub type RawView = (Result<TokenView, ()>, (int, int));

pub open spec fn raw_view(t: RawToken) -> RawView {
    (
        match t.0 {
            Ok(tok) => Ok(tok@),
            Err(e) => Err(e),
        },
        (t.1.start as int, t.1.end as int),
    )
}

pub open spec fn raws_view(s: Seq<RawToken>) -> Seq<RawView> {
    s.map_values(|t: RawToken| raw_view(t))
}

/// The state of the lexer: the scanned tokens still to come, and what the
/// previous token said about its context.
pub struct LexView {
    pub pending: Seq<RawView>,
    pub can_end: bool,
    pub call_head: bool,
    pub stmt_start: bool,
    pub mode: DeclMode,
}

/// The same state with other pending tokens.
pub open spec fn with_pending(v: LexView, pending: Seq<RawView>) -> LexView {
    LexView {
        pending,
        can_end: v.can_end,
        call_head: v.call_head,
        stmt_start: v.stmt_start,
        mode: v.mode,
    }
}

/// The text of a mutability flag.
pub open spec fn flag_text(mutable: bool) -> Seq<char> {
    if mutable {
        "1"@
    } else {
        "0"@
    }
}

/// The name a reference parameter `&T name` (or `&mut T name`) is encoded into.
pub open spec fn ref_encoding(mutable: bool, ty_name: Seq<char>, arg_name: Seq<char>) -> Seq<char> {
    ref_arg_prefix() + flag_text(mutable) + ":"@ + ty_name + ":"@ + arg_name
}

/// The name a borrow `&name` (or `&mut name`) is encoded into.
pub open spec fn borrow_encoding(mutable: bool, name: Seq<char>) -> Seq<char> {
    borrow_prefix() + flag_text(mutable) + ":"@ + name
}

pub open spec fn is_token(t: RawView, tok: TokenView) -> bool {
    t.0 == Ok::<TokenView, ()>(tok)
}

/// What `&` and the tokens after it declare in a parameter list: `&mut T name`
/// or `&T name` becomes the type `Any` spanning from `&` to `T`, and the name
/// encoding the reference comes next.
pub open spec fn reference_type_spec(amp: (int, int), rest: Seq<RawView>) -> Option<
    (TokenView, (int, int), Seq<RawView>),
> {
    if rest.len() == 0 {
        None
    } else if is_token(rest[0], TokenView::Name("mut"@)) {
        if rest.len() < 3 {
            None
        } else {
            match (rest[1].0, rest[2].0) {
                (Ok(TokenView::Name(t)), Ok(TokenView::Name(a))) => Some(
                    (
                        TokenView::Name("Any"@),
                        (amp.0, rest[1].1.1),
                        seq![(Ok(TokenView::Name(ref_encoding(true, t, a))), rest[2].1)]
                            + rest.skip(3),
                    ),
                ),
                _ => None,
            }
        }
    } else if rest.len() < 2 {
        None
    } else {
        match (rest[0].0, rest[1].0) {
            (Ok(TokenView::Name(t)), Ok(TokenView::Name(a))) => Some(
                (
                    TokenView::Name("Any"@),
                    (amp.0, rest[0].1.1),
                    seq![(Ok(TokenView::Name(ref_encoding(false, t, a))), rest[1].1)] + rest.skip(
                        2,
                    ),
                ),
            ),
            _ => None,
        }
    }
}

/// What `&` and the tokens after it are where an expression may start: `&name`,
/// `&$arg`, `&mut name` or `&mut $arg` becomes one name or argument token
/// encoding the borrow, spanning from `&` to the name. After a token that ends an
/// expression (other than the head of a call) `&` stays the join operator.
pub open spec fn borrow_token_spec(
    can_end: bool,
    call_head: bool,
    amp: (int, int),
    rest: Seq<RawView>,
) -> Option<(TokenView, (int, int), Seq<RawView>)> {
    if can_end && !call_head {
        None
    } else if rest.len() == 0 {
        None
    } else if is_token(rest[0], TokenView::Name("mut"@)) {
        if rest.len() < 2 {
            None
        } else {
            match rest[1].0 {
                Ok(TokenView::Name(n)) => Some(
                    (TokenView::Name(borrow_encoding(true, n)), (amp.0, rest[1].1.1), rest.skip(2)),
                ),
                Ok(TokenView::Arg(n)) => Some(
                    (TokenView::Arg(borrow_encoding(true, n)), (amp.0, rest[1].1.1), rest.skip(2)),
                ),
                _ => None,
            }
        }
    } else {
        match rest[0].0 {
            Ok(TokenView::Name(n)) => Some(
                (TokenView::Name(borrow_encoding(false, n)), (amp.0, rest[0].1.1), rest.skip(1)),
            ),
            Ok(TokenView::Arg(n)) => Some(
                (TokenView::Arg(borrow_encoding(false, n)), (amp.0, rest[0].1.1), rest.skip(1)),
            ),
            _ => None,
        }
    }
}

/// A reference parameter spelled after `&`, inside a parameter list only.
pub open spec fn reference_in_spec(v: LexView, amp: (int, int), rest: Seq<RawView>) -> Option<
    (TokenView, (int, int), Seq<RawView>),
> {
    if v.mode == DeclMode::ProcArgs || v.mode == DeclMode::FuncArgs {
        reference_type_spec(amp, rest)
    } else {
        None
    }
}

/// Tokens after which an expression may have ended.
pub open spec fn can_end_expr_spec(t: TokenView) -> bool {
    ||| t is Name
    ||| t is Arg
    ||| t is Bin
    ||| t is Oct
    ||| t is Int
    ||| t is Hex
    ||| t is Float
    ||| t is Str
    ||| t is True
    ||| t is False
    ||| t is RParen
    ||| t is RBracket
    ||| t is RBrace
}

/// The declaration mode after a token: `proc` and `func` start a declaration,
/// the routine's name (and for a function its `(`) open the parameter list, and
/// `{` (for a procedure) or `)` (for a function) close it.
pub open spec fn next_mode_spec(mode: DeclMode, t: TokenView) -> DeclMode {
    if t is Proc {
        DeclMode::AwaitProcName
    } else if t is Func {
        DeclMode::AwaitFuncName
    } else if mode == DeclMode::AwaitProcName && t is Name {
        DeclMode::ProcArgs
    } else if mode == DeclMode::AwaitFuncName && t is Name {
        DeclMode::AwaitFuncLParen
    } else if mode == DeclMode::AwaitFuncLParen && t is LParen {
        DeclMode::FuncArgs
    } else if mode == DeclMode::FuncArgs && t is RParen {
        DeclMode::Normal
    } else if mode == DeclMode::ProcArgs && t is LBrace {
        DeclMode::Normal
    } else {
        mode
    }
}

/// Emitting a token: the output item, and what the state remembers of it.
pub open spec fn finish_spec(v: LexView, pending: Seq<RawView>, t: TokenView, span: (int, int)) -> (
    (int, TokenView, int),
    LexView,
) {
    (
        (span.0, t, span.1),
        LexView {
            pending,
            can_end: can_end_expr_spec(t),
            call_head: v.stmt_start && v.mode == DeclMode::Normal && t is Name,
            stmt_start: if t is Semicolon || t is LBrace || t is RBrace {
                true
            } else if t is Newline {
                v.stmt_start
            } else {
                false
            },
            mode: next_mode_spec(v.mode, t),
        },
    )
}

/// One step of the lexer: nothing when no token is left; a scanning error as an
/// invalid-token diagnostic; `&` rewritten as a reference parameter or a borrow
/// where one of those is spelled; any other token as it is.
pub open spec fn next_spec(v: LexView) -> Option<(Result<(int, TokenView, int), DiagnosticView>, LexView)> {
    if v.pending.len() == 0 {
        None
    } else {
        let first = v.pending[0];
        let rest = v.pending.skip(1);
        match first.0 {
            Err(_) => Some(
                (
                    Err(
                        DiagnosticView {
                            kind: DiagnosticKindView::InvalidToken,
                            start: first.1.0,
                            end: first.1.1,
                        },
                    ),
                    LexView {
                        pending: rest,
                        can_end: false,
                        call_head: false,
                        stmt_start: v.stmt_start,
                        mode: v.mode,
                    },
                ),
            ),
            Ok(t) => {
                let (item, next) = if t is Amp {
                    match reference_in_spec(v, first.1, rest) {
                        Some((t2, s2, rest2)) => finish_spec(v, rest2, t2, s2),
                        None => match borrow_token_spec(v.can_end, v.call_head, first.1, rest) {
                            Some((t2, s2, rest2)) => finish_spec(v, rest2, t2, s2),
                            None => finish_spec(v, rest, t, first.1),
                        },
                    }
                } else {
                    finish_spec(v, rest, t, first.1)
                };
                Some((Ok(item), next))
            },
        }
    }
}

/// Rewrites the token stream of the scanner for the parser: reference parameters
/// `&T name` / `&mut T name` and borrow expressions `&name` / `&mut name` become
/// names that encode them.
pub struct Lexer {
    token_stream: VecDeque<RawToken>,
    buffered: VecDeque<RawToken>,
    previous_can_end_expr: bool,
    previous_is_call_head: bool,
    at_stmt_start: bool,
    decl_mode: DeclMode,
}

impl View for Lexer {
    type V = LexView;

    closed spec fn view(&self) -> LexView {
        LexView {
            pending: raws_view(self.buffered@ + self.token_stream@),
            can_end: self.previous_can_end_expr,
            call_head: self.previous_is_call_head,
            stmt_start: self.at_stmt_start,
            mode: self.decl_mode,
        }
    }
}

/// The view of an item the lexer yields.
pub open spec fn item_view(item: Result<(usize, Token, usize), Diagnostic>) -> Result<
    (int, TokenView, int),
    DiagnosticView,
> {
    match item {
        Ok((s, t, e)) => Ok((s as int, t@, e as int)),
        Err(d) => Err(d@),
    }
}

fn encode_ref(mutable: bool, ty_name: &String, arg_name: &String) -> (r: String)
    ensures
        r@ == ref_encoding(mutable, ty_name@, arg_name@),
{
    let flag = if mutable {
        "1"
    } else {
        "0"
    };
    String::from_str("@uyref:").concat(flag).concat(":").concat(ty_name.as_str()).concat(
        ":",
    ).concat(arg_name.as_str())
}

fn encode_borrow(mutable: bool, name: &String) -> (r: String)
    ensures
        r@ == borrow_encoding(mutable, name@),
{
    let flag = if mutable {
        "1"
    } else {
        "0"
    };
    String::from_str("@uyborrow:").concat(flag).concat(":").concat(name.as_str())
}

fn is_mut_name(t: &RawToken) -> (r: bool)
    ensures
        r == is_token(raw_view(*t), TokenView::Name("mut"@)),
{
    match &t.0 {
        Ok(Token::Name(n)) => same_text(n.as_str(), "mut"),
        _ => false,
    }
}

impl Lexer {
    /// A lexer over the tokens the scanner produced, at the start of a statement.
    pub fn new(tokens: Vec<RawToken>) -> (l: Lexer)
        ensures
            l@ == (LexView {
                pending: raws_view(tokens@),
                can_end: false,
                call_head: false,
                stmt_start: true,
                mode: DeclMode::Normal,
            }),
    {
        let mut tokens = tokens;
        let ghost all = tokens@;
        let mut stream: VecDeque<RawToken> = VecDeque::new();
        while tokens.len() > 0
            invariant
                tokens@ + stream@ == all,
            decreases tokens@.len(),
        {
            let ghost (before, rest) = (tokens@, stream@);
            let t = tokens.pop().unwrap();
            stream.push_front(t);
            assert(tokens@ + stream@ =~= before + rest) by {
                assert(before =~= tokens@.push(t));
            }
        }
        let l = Lexer {
            token_stream: stream,
            buffered: VecDeque::new(),
            previous_can_end_expr: false,
            previous_is_call_head: false,
            at_stmt_start: true,
            decl_mode: DeclMode::Normal,
        };
        assert(l.buffered@ + l.token_stream@ =~= all);
        l
    }

    fn raw_next(&mut self) -> (r: Option<RawToken>)
        ensures
            old(self)@.pending.len() == 0 ==> r is None && final(self)@ == old(self)@,
            old(self)@.pending.len() > 0 ==> (r matches Some(t) && raw_view(t) == old(
                self,
            )@.pending[0] && final(self)@ == with_pending(old(self)@, old(self)@.pending.skip(1))),
    {
        let ghost all = self.buffered@ + self.token_stream@;
        match self.buffered.pop_front() {
            Some(t) => {
                assert(self.buffered@ + self.token_stream@ =~= all.skip(1));
                assert(raws_view(all.skip(1)) =~= raws_view(all).skip(1));
                Some(t)
            },
            None => {
                let r = self.token_stream.pop_front();
                if r.is_some() {
                    assert(self.buffered@ + self.token_stream@ =~= all.skip(1));
                    assert(raws_view(all.skip(1)) =~= raws_view(all).skip(1));
                } else {
                    assert(self.buffered@ + self.token_stream@ =~= all);
                }
                r
            },
        }
    }

    fn push_front(&mut self, t: RawToken)
        ensures
            final(self)@ == with_pending(old(self)@, seq![raw_view(t)] + old(self)@.pending),
    {
        let ghost all = self.buffered@ + self.token_stream@;
        let ghost v = raw_view(t);
        self.buffered.push_front(t);
        assert(raws_view(self.buffered@ + self.token_stream@) =~= seq![v] + raws_view(all));
    }

    fn in_arg_declaration(&self) -> (r: bool)
        ensures
            r == (self@.mode == DeclMode::ProcArgs || self@.mode == DeclMode::FuncArgs),
    {
        match self.decl_mode {
            DeclMode::ProcArgs => true,
            DeclMode::FuncArgs => true,
            _ => false,
        }
    }
}


fn token_can_end_expr(token: &Token) -> (r: bool)
    ensures
        r == can_end_expr_spec(token@),
{
    match token {
        Token::Name(_) => true,
        Token::Arg(_) => true,
        Token::Bin(_) => true,
        Token::Oct(_) => true,
        Token::Int(_) => true,
        Token::Hex(_) => true,
        Token::Float(_) => true,
        Token::Str(_) => true,
        Token::True => true,
        Token::False => true,
        Token::RParen => true,
        Token::RBracket => true,
        Token::RBrace => true,
        _ => false,
    }
}

impl Lexer {
    fn try_reference_type(&mut self, amp: &Range<usize>) -> (r: Option<(Token, Range<usize>)>)
        ensures
            match reference_in_spec(old(self)@, (amp.start as int, amp.end as int), old(self)@.pending) {
                Some((t, s, rest)) => r matches Some(p) && p.0@ == t && p.1.start == s.0 && p.1.end
                    == s.1 && final(self)@ == with_pending(old(self)@, rest),
                None => r is None && final(self)@ == old(self)@,
            },
    {
        if !self.in_arg_declaration() {
            return None;
        }
        let ghost p = self@.pending;
        let first = match self.raw_next() {
            Some(t) => t,
            None => {
                return None;
            },
        };
        if is_mut_name(&first) {
            let second = match self.raw_next() {
                Some(t) => t,
                None => {
                    self.push_front(first);
                    assert(seq![p[0]] + p.skip(1) =~= p);
                    return None;
                },
            };
            let third = match self.raw_next() {
                Some(t) => t,
                None => {
                    self.push_front(second);
                    self.push_front(first);
                    assert(seq![p[0]] + (seq![p[1]] + p.skip(1).skip(1)) =~= p);
                    return None;
                },
            };
            let encoded = match (&second.0, &third.0) {
                (Ok(Token::Name(t)), Ok(Token::Name(a))) => Some(encode_ref(true, t, a)),
                _ => None,
            };
            match encoded {
                Some(name) => {
                    let end = second.1.end;
                    self.push_front((Ok(Token::Name(name)), third.1));
                    assert(p.skip(1).skip(1).skip(1) =~= p.skip(3));
                    Some((Token::Name(String::from_str("Any")), amp.start..end))
                },
                None => {
                    self.push_front(third);
                    self.push_front(second);
                    self.push_front(first);
                    assert(seq![p[0]] + (seq![p[1]] + (seq![p[2]] + p.skip(1).skip(1).skip(1)))
                        =~= p);
                    None
                },
            }
        } else {
            let is_name = match &first.0 {
                Ok(Token::Name(_)) => true,
                _ => false,
            };
            if !is_name {
                self.push_front(first);
                assert(seq![p[0]] + p.skip(1) =~= p);
                return None;
            }
            let second = match self.raw_next() {
                Some(t) => t,
                None => {
                    self.push_front(first);
                    assert(seq![p[0]] + p.skip(1) =~= p);
                    return None;
                },
            };
            let encoded = match (&first.0, &second.0) {
                (Ok(Token::Name(t)), Ok(Token::Name(a))) => Some(encode_ref(false, t, a)),
                _ => None,
            };
            match encoded {
                Some(name) => {
                    let end = first.1.end;
                    self.push_front((Ok(Token::Name(name)), second.1));
                    assert(p.skip(1).skip(1) =~= p.skip(2));
                    Some((Token::Name(String::from_str("Any")), amp.start..end))
                },
                None => {
                    self.push_front(second);
                    self.push_front(first);
                    assert(seq![p[0]] + (seq![p[1]] + p.skip(1).skip(1)) =~= p);
                    None
                },
            }
        }
    }

    fn try_borrow_expr(&mut self, amp: &Range<usize>) -> (r: Option<(Token, Range<usize>)>)
        ensures
            match borrow_token_spec(
                old(self)@.can_end,
                old(self)@.call_head,
                (amp.start as int, amp.end as int),
                old(self)@.pending,
            ) {
                Some((t, s, rest)) => r matches Some(p) && p.0@ == t && p.1.start == s.0 && p.1.end
                    == s.1 && final(self)@ == with_pending(old(self)@, rest),
                None => r is None && final(self)@ == old(self)@,
            },
    {
        if self.previous_can_end_expr && !self.previous_is_call_head {
            return None;
        }
        let ghost p = self@.pending;
        let first = match self.raw_next() {
            Some(t) => t,
            None => {
                return None;
            },
        };
        if is_mut_name(&first) {
            let second = match self.raw_next() {
                Some(t) => t,
                None => {
                    self.push_front(first);
                    assert(seq![p[0]] + p.skip(1) =~= p);
                    return None;
                },
            };
            let result = match &second.0 {
                Ok(Token::Name(n)) => Some(Token::Name(encode_borrow(true, n))),
                Ok(Token::Arg(n)) => Some(Token::Arg(encode_borrow(true, n))),
                _ => None,
            };
            match result {
                Some(t) => {
                    assert(p.skip(1).skip(1) =~= p.skip(2));
                    Some((t, amp.start..second.1.end))
                },
                None => {
                    self.push_front(second);
                    self.push_front(first);
                    assert(seq![p[0]] + (seq![p[1]] + p.skip(1).skip(1)) =~= p);
                    None
                },
            }
        } else {
            let result = match &first.0 {
                Ok(Token::Name(n)) => Some(Token::Name(encode_borrow(false, n))),
                Ok(Token::Arg(n)) => Some(Token::Arg(encode_borrow(false, n))),
                _ => None,
            };
            match result {
                Some(t) => Some((t, amp.start..first.1.end)),
                None => {
                    self.push_front(first);
                    assert(seq![p[0]] + p.skip(1) =~= p);
                    None
                },
            }
        }
    }

    fn update_decl_mode(&mut self, token: &Token)
        ensures
            final(self)@ == (LexView { mode: next_mode_spec(old(self)@.mode, token@), ..old(self)@ }),
    {
        self.decl_mode = match (self.decl_mode, token) {
            (_, Token::Proc) => DeclMode::AwaitProcName,
            (_, Token::Func) => DeclMode::AwaitFuncName,
            (DeclMode::AwaitProcName, Token::Name(_)) => DeclMode::ProcArgs,
            (DeclMode::AwaitFuncName, Token::Name(_)) => DeclMode::AwaitFuncLParen,
            (DeclMode::AwaitFuncLParen, Token::LParen) => DeclMode::FuncArgs,
            (DeclMode::FuncArgs, Token::RParen) => DeclMode::Normal,
            (DeclMode::ProcArgs, Token::LBrace) => DeclMode::Normal,
            (mode, _) => mode,
        };
    }

    fn finish(&mut self, token: Token, span: Range<usize>) -> (r: (usize, Token, usize))
        ensures
            ({
                let (item, v) = finish_spec(
                    old(self)@,
                    old(self)@.pending,
                    token@,
                    (span.start as int, span.end as int),
                );
                (r.0 as int, r.1@, r.2 as int) == item && final(self)@ == v
            }),
    {
        let was_stmt_start = self.at_stmt_start;
        let is_name = match &token {
            Token::Name(_) => true,
            _ => false,
        };
        self.previous_is_call_head = was_stmt_start && self.decl_mode == DeclMode::Normal && is_name;
        self.update_decl_mode(&token);
        self.previous_can_end_expr = token_can_end_expr(&token);
        self.at_stmt_start = match token {
            Token::Semicolon => true,
            Token::LBrace => true,
            Token::RBrace => true,
            Token::Newline => self.at_stmt_start,
            _ => false,
        };
        (span.start, token, span.end)
    }

    /// The next token for the parser, an invalid-token diagnostic, or nothing
    /// when the input is exhausted.
    pub fn next(&mut self) -> (r: Option<Result<(usize, Token, usize), Diagnostic>>)
        ensures
            match next_spec(old(self)@) {
                None => r is None && final(self)@ == old(self)@,
                Some((out, v)) => final(self)@ == v && (r matches Some(item) && item_view(item)
                    == out),
            },
    {
        let (token, span) = match self.raw_next() {
            Some(t) => t,
            None => {
                return None;
            },
        };
        let token = match token {
            Ok(t) => t,
            Err(_) => {
                self.previous_can_end_expr = false;
                self.previous_is_call_head = false;
                return Some(Err(Diagnostic { kind: DiagnosticKind::InvalidToken, span }));
            },
        };
        let is_amp = match &token {
            Token::Amp => true,
            _ => false,
        };
        if is_amp {
            if let Some((t, s)) = self.try_reference_type(&span) {
                return Some(Ok(self.finish(t, s)));
            }
            if let Some((t, s)) = self.try_borrow_expr(&span) {
                return Some(Ok(self.finish(t, s)));
            }
        }
        Some(Ok(self.finish(token, span)))
    }
}


/// What the lexer encodes a reference parameter into, the borrow checker decodes
/// back into the same mutability, type name and parameter name. (A type name is
/// a name token, so it holds no `:`.)
pub proof fn lemma_ref_encoding_decodes(mutable: bool, ty_name: Seq<char>, arg_name: Seq<char>)
    requires
        forall|i: int| 0 <= i < ty_name.len() ==> ty_name[i] != ':',
    ensures
        decode_ref_arg_spec(ref_encoding(mutable, ty_name, arg_name)) == Some(
            (mutable, ty_name, arg_name),
        ),
{
    reveal_strlit("@uyref:");
    reveal_strlit("0");
    reveal_strlit("1");
    reveal_strlit(":");
    let s = ref_encoding(mutable, ty_name, arg_name);
    let rest = s.skip(7);
    let n = ty_name.len() as int;
    assert(s.take(7) =~= ref_arg_prefix());
    assert(rest =~= flag_text(mutable) + ":"@ + ty_name + ":"@ + arg_name);
    lemma_colon_at(rest, 0, 1);
    assert forall|j: int| 2 <= j < 2 + n implies rest[j] != ':' by {
        assert(rest[j] == ty_name[j - 2]);
    }
    lemma_colon_at(rest, 2, 2 + n);
    assert(rest.take(1) =~= flag_text(mutable));
    assert(rest.subrange(2, 2 + n) =~= ty_name);
    assert(rest.skip(3 + n) =~= arg_name);
}

/// What the lexer encodes a borrow into, the borrow checker decodes back into the
/// same mutability and name.
pub proof fn lemma_borrow_encoding_decodes(mutable: bool, name: Seq<char>)
    ensures
        decode_borrow_name_spec(borrow_encoding(mutable, name)) == Some((mutable, name)),
{
    reveal_strlit("@uyborrow:");
    reveal_strlit("0");
    reveal_strlit("1");
    reveal_strlit(":");
    let s = borrow_encoding(mutable, name);
    let rest = s.skip(10);
    assert(s.take(10) =~= borrow_prefix());
    assert(rest =~= flag_text(mutable) + ":"@ + name);
    lemma_colon_at(rest, 0, 1);
    assert(rest.take(1) =~= flag_text(mutable));
    assert(rest.skip(2) =~= name);
}

/// The lexer yields a token exactly while scanned tokens remain, and each step
/// leaves fewer of them, so lexing ends.
pub proof fn lemma_next_consumes(v: LexView)
    ensures
        next_spec(v) is None <==> v.pending.len() == 0,
        next_spec(v) matches Some((_, w)) ==> w.pending.len() < v.pending.len(),
{
}

/// A token other than `&` comes out as it came in, with its span.
pub proof fn lemma_other_tokens_unchanged(v: LexView)
    requires
        v.pending.len() > 0,
        v.pending[0].0 matches Ok(t) && !(t is Amp),
    ensures
        next_spec(v) matches Some((Ok((s, t2, e)), w)) && Ok::<TokenView, ()>(t2) == v.pending[0].0
            && s == v.pending[0].1.0 && e == v.pending[0].1.1 && w.pending == v.pending.skip(1),
{
}


/// Erasure restores what the lexer encoded in a parameter list: a parameter
/// declared `&T name` or `&mut T name` reaches the backend as `name`, at its
/// span, typed as what it refers to (a struct by its name, anything else as a
/// plain value).
pub proof fn lemma_erasure_restores_reference(
    mutable: bool,
    ty_name: Seq<char>,
    arg_name: Seq<char>,
    old: Arg,
    new: Arg,
)
    requires
        forall|i: int| 0 <= i < ty_name.len() ==> ty_name[i] != ':',
        old.name@ == ref_encoding(mutable, ty_name, arg_name),
        arg_unborrowed(old, new),
    ensures
        new.name@ == arg_name,
        new.span == old.span,
        new.type_@ == backend_type_spec(
            base_of_name(ty_name),
            old.span.start as int,
            old.span.end as int,
        ),
{
    lemma_ref_encoding_decodes(mutable, ty_name, arg_name);
}

/// Erasure restores what the lexer encoded in an expression: a borrow `&name` or
/// `&mut name` reaches the backend as `name`, at its span.
pub proof fn lemma_erasure_restores_borrow(mutable: bool, name: Seq<char>, old: Name, new: Name)
    requires
        old matches Name::Name { name: n, .. } && n@ == borrow_encoding(mutable, name),
        name_unborrowed(old, new),
    ensures
        new matches Name::Name { name: n2, .. } && n2@ == name,
        new.spec_span() == old.spec_span(),
{
    lemma_borrow_encoding_decodes(mutable, name);
}

/// After a token that ends an expression, outside a parameter list and other
/// than the head of a call, `&` is the join operator and comes out unchanged.
pub proof fn lemma_join_operator_kept(v: LexView)
    requires
        v.pending.len() > 0,
        is_token(v.pending[0], TokenView::Amp),
        v.can_end && !v.call_head,
        v.mode != DeclMode::ProcArgs && v.mode != DeclMode::FuncArgs,
    ensures
        next_spec(v) matches Some((Ok((s, t, e)), w)) && t == TokenView::Amp && s == v.pending[0].1.0
            && e == v.pending[0].1.1 && w.pending == v.pending.skip(1),
{
}

/// Everything the lexer yields from state `v` on, in order, until no scanned
/// token is left.
pub open spec fn lex_all(v: LexView) -> Seq<Result<(int, TokenView, int), DiagnosticView>>
    decreases v.pending.len(),
{
    match next_spec(v) {
        None => seq![],
        Some((item, w)) => {
            proof {
                lemma_next_consumes(v);
            }
            seq![item] + lex_all(w)
        },
    }
}

/// What the lexer yields for a scanned token that it passes through: the token
/// with its span, or an invalid-token diagnostic at the span of a scanning error.
pub open spec fn passed_through(r: RawView) -> Result<(int, TokenView, int), DiagnosticView> {
    match r.0 {
        Ok(t) => Ok((r.1.0, t, r.1.1)),
        Err(_) => Err(DiagnosticView { kind: DiagnosticKindView::InvalidToken, start: r.1.0, end: r.1.1 }),
    }
}

/// Without `&`, the lexer yields the scanned tokens one for one and in order: each
/// token with its span, and each scanning error as an invalid-token diagnostic;
/// both streams end together.
pub proof fn lemma_stream_without_ampersand(v: LexView)
    requires
        forall|i: int| 0 <= i < v.pending.len() ==> !is_token(#[trigger] v.pending[i], TokenView::Amp),
    ensures
        lex_all(v) == v.pending.map_values(|r: RawView| passed_through(r)),
    decreases v.pending.len(),
{
    if v.pending.len() == 0 {
        assert(lex_all(v) =~= v.pending.map_values(|r: RawView| passed_through(r)));
    } else {
        let first = v.pending[0];
        lemma_next_consumes(v);
        let (item, w) = next_spec(v).unwrap();
        assert(w.pending == v.pending.skip(1)) by {
            if first.0 is Ok {
                lemma_other_tokens_unchanged(v);
            }
        }
        assert forall|i: int| 0 <= i < w.pending.len() implies !is_token(#[trigger] w.pending[i], TokenView::Amp) by {
            assert(w.pending[i] == v.pending[i + 1]);
        }
        lemma_stream_without_ampersand(w);
        assert(item == passed_through(first)) by {
            if first.0 is Ok {
                lemma_other_tokens_unchanged(v);
            }
        }
        assert(lex_all(v) =~= v.pending.map_values(|r: RawView| passed_through(r)));
    }
}

/// Where an expression starts, `&name` is a borrow: after any token that
/// cannot end an expression (a separator such as `,`, `(`, `=` or `;`, an
/// operator, or a keyword), and outside a parameter list, the lexer yields the
/// token, and then `&` with the name after it as one name encoding a shared
/// borrow of that name, spanning from `&` to the name.
pub proof fn lemma_borrow_after_separator(v: LexView, t: TokenView, n: Seq<char>)
    requires
        v.pending.len() >= 3,
        v.pending[0].0 == Ok::<TokenView, ()>(t),
        !(t is Amp),
        !(t is Name || t is Arg || t is Bin || t is Oct || t is Int || t is Hex || t is Float
            || t is Str || t is True || t is False || t is RParen || t is RBracket
            || t is RBrace),
        is_token(v.pending[1], TokenView::Amp),
        v.pending[2].0 == Ok::<TokenView, ()>(TokenView::Name(n)),
        n != "mut"@,
        next_mode_spec(v.mode, t) != DeclMode::ProcArgs,
        next_mode_spec(v.mode, t) != DeclMode::FuncArgs,
    ensures
        next_spec(v) matches Some((Ok((s0, t0, e0)), w)) && (t0 == t && s0 == v.pending[0].1.0
            && e0 == v.pending[0].1.1 && (next_spec(w) matches Some((Ok((s, t2, e)), w2)) && (t2
            == TokenView::Name(borrow_encoding(false, n)) && s == v.pending[1].1.0 && e
            == v.pending[2].1.1 && w2.pending == v.pending.skip(3)))),
{
    lemma_other_tokens_unchanged(v);
    let w = next_spec(v).unwrap().1;
    assert(w.pending == v.pending.skip(1));
    assert(w.pending[0] == v.pending[1]);
    assert(w.pending[1] == v.pending[2]);
    assert(!w.can_end);
    assert(w.pending.skip(1).skip(1) =~= v.pending.skip(3));
}

/// The two shared borrows of one call, `f &a, &b`: after the comma, `&b` is a
/// borrow too, not the join operator.
pub proof fn lemma_borrow_after_comma(v: LexView, n: Seq<char>)
    requires
        v.pending.len() >= 3,
        is_token(v.pending[0], TokenView::Comma),
        is_token(v.pending[1], TokenView::Amp),
        v.pending[2].0 == Ok::<TokenView, ()>(TokenView::Name(n)),
        n != "mut"@,
        v.mode != DeclMode::ProcArgs,
        v.mode != DeclMode::FuncArgs,
    ensures
        next_spec(v) matches Some((Ok((_, t0, _)), w)) && (t0 == TokenView::Comma && (next_spec(
            w,
        ) matches Some((Ok((_, t2, _)), _)) && t2 == TokenView::Name(borrow_encoding(false, n)))),
{
    lemma_borrow_after_separator(v, TokenView::Comma, n);
}

} // verus!
