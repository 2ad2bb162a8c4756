use std::ops::Range;

use goboscript::lexer::adaptor::Lexer;
use goboscript::lexer::token::Token;
use goboscript::visitor::uy_borrow_check::{decode_borrow_name, decode_ref_arg, BaseTy};

/// A small scanner for the sources of these tests: names, `$` arguments,
/// decimal integers, the keywords they use, and single-character punctuation.
fn scan(source: &str) -> Vec<(Result<Token, ()>, Range<usize>)> {
    let bytes = source.as_bytes();
    let mut out = Vec::new();
    let mut i = 0;
    while i < bytes.len() {
        let c = bytes[i];
        if c == b' ' || c == b'\t' {
            i += 1;
            continue;
        }
        let start = i;
        let token = if c.is_ascii_alphabetic() || c == b'_' {
            while i < bytes.len() && (bytes[i].is_ascii_alphanumeric() || bytes[i] == b'_') {
                i += 1;
            }
            match &source[start..i] {
                "proc" => Ok(Token::Proc),
                "func" => Ok(Token::Func),
                "return" => Ok(Token::Return),
                "onflag" => Ok(Token::OnFlag),
                "true" => Ok(Token::True),
                "false" => Ok(Token::False),
                name => Ok(Token::Name(name.to_string())),
            }
        } else if c == b'$' {
            i += 1;
            while i < bytes.len() && (bytes[i].is_ascii_alphanumeric() || bytes[i] == b'_') {
                i += 1;
            }
            Ok(Token::Arg(source[start + 1..i].to_string()))
        } else if c.is_ascii_digit() {
            while i < bytes.len() && bytes[i].is_ascii_digit() {
                i += 1;
            }
            Ok(Token::Int(source[start..i].parse().unwrap()))
        } else {
            i += 1;
            match c {
                b'(' => Ok(Token::LParen),
                b')' => Ok(Token::RParen),
                b'{' => Ok(Token::LBrace),
                b'}' => Ok(Token::RBrace),
                b'[' => Ok(Token::LBracket),
                b']' => Ok(Token::RBracket),
                b';' => Ok(Token::Semicolon),
                b',' => Ok(Token::Comma),
                b'&' => Ok(Token::Amp),
                b'=' => Ok(Token::Assign),
                b'+' => Ok(Token::Plus),
                b'\n' => Ok(Token::Newline),
                _ => Err(()),
            }
        };
        out.push((token, start..i));
    }
    out
}

fn lex(source: &str) -> Vec<Result<(usize, Token, usize), goboscript::diagnostic::Diagnostic>> {
    let mut lexer = Lexer::new(scan(source));
    let mut out = Vec::new();
    while let Some(item) = lexer.next() {
        out.push(item);
    }
    out
}

fn tokens(source: &str) -> Vec<Token> {
    lex(source)
        .into_iter()
        .map(|result| match result {
            Ok((_, token, _)) => token,
            Err(_) => panic!("lexer error"),
        })
        .collect()
}

#[test]
fn encodes_proc_reference_parameter() {
    let tokens = tokens("proc read &String s {}");
    assert_eq!(
        tokens,
        vec![
            Token::Proc,
            Token::Name("read".into()),
            Token::Name("Any".into()),
            Token::Name("@uyref:0:String:s".into()),
            Token::LBrace,
            Token::RBrace,
        ]
    );
}

#[test]
fn encodes_mutable_function_reference_parameter() {
    let tokens = tokens("func edit(&mut String s) Number { return 0; }");
    assert_eq!(
        tokens,
        vec![
            Token::Func,
            Token::Name("edit".into()),
            Token::LParen,
            Token::Name("Any".into()),
            Token::Name("@uyref:1:String:s".into()),
            Token::RParen,
            Token::Name("Number".into()),
            Token::LBrace,
            Token::Return,
            Token::Int(0),
            Token::Semicolon,
            Token::RBrace,
        ]
    );
}

#[test]
fn encodes_borrow_as_first_proc_argument() {
    let tokens = tokens("onflag { read &s; }");
    assert_eq!(
        tokens,
        vec![
            Token::OnFlag,
            Token::LBrace,
            Token::Name("read".into()),
            Token::Name("@uyborrow:0:s".into()),
            Token::Semicolon,
            Token::RBrace,
        ]
    );
}

#[test]
fn keeps_binary_amp_as_join_operator() {
    let tokens = tokens("onflag { out x & y; }");
    assert_eq!(
        tokens,
        vec![
            Token::OnFlag,
            Token::LBrace,
            Token::Name("out".into()),
            Token::Name("x".into()),
            Token::Amp,
            Token::Name("y".into()),
            Token::Semicolon,
            Token::RBrace,
        ]
    );
}

#[test]
fn encodes_mutable_borrow_expression() {
    let tokens = tokens("onflag { edit &mut s; }");
    assert_eq!(
        tokens,
        vec![
            Token::OnFlag,
            Token::LBrace,
            Token::Name("edit".into()),
            Token::Name("@uyborrow:1:s".into()),
            Token::Semicolon,
            Token::RBrace,
        ]
    );
}

#[test]
fn reference_parameter_spans_cover_the_declaration() {
    // "proc read &String s {}": `&` at 10, `String` ends at 17, `s` at 18..19.
    let items = lex("proc read &String s {}");
    let spans: Vec<(usize, usize)> = items
        .iter()
        .map(|item| match item {
            Ok((start, _, end)) => (*start, *end),
            Err(_) => panic!("lexer error"),
        })
        .collect();
    assert_eq!(spans, vec![(0, 4), (5, 9), (10, 17), (18, 19), (20, 21), (21, 22)]);
}

#[test]
fn mutable_borrow_span_covers_the_name() {
    // "onflag { edit &mut s; }": `&` at 14, `s` ends at 20.
    let items = lex("onflag { edit &mut s; }");
    match &items[3] {
        Ok((start, token, end)) => {
            assert_eq!((*start, *end), (14, 20));
            assert_eq!(token, &Token::Name("@uyborrow:1:s".into()));
        }
        Err(_) => panic!("lexer error"),
    }
}

#[test]
fn borrows_of_arguments_keep_the_argument_token() {
    let tokens = tokens("onflag { read &$s; edit &mut $t; }");
    assert_eq!(
        tokens,
        vec![
            Token::OnFlag,
            Token::LBrace,
            Token::Name("read".into()),
            Token::Arg("@uyborrow:0:s".into()),
            Token::Semicolon,
            Token::Name("edit".into()),
            Token::Arg("@uyborrow:1:t".into()),
            Token::Semicolon,
            Token::RBrace,
        ]
    );
}

#[test]
fn amp_after_a_value_in_a_call_argument_is_join() {
    // After `(` an expression may start, so `&x` borrows; after `1` it joins.
    let tokens = tokens("onflag { say 1 & x; }");
    assert_eq!(
        tokens,
        vec![
            Token::OnFlag,
            Token::LBrace,
            Token::Name("say".into()),
            Token::Int(1),
            Token::Amp,
            Token::Name("x".into()),
            Token::Semicolon,
            Token::RBrace,
        ]
    );
}

#[test]
fn amp_without_a_name_after_it_stays() {
    let tokens = tokens("onflag { f & ; }");
    assert_eq!(
        tokens,
        vec![
            Token::OnFlag,
            Token::LBrace,
            Token::Name("f".into()),
            Token::Amp,
            Token::Semicolon,
            Token::RBrace,
        ]
    );
}

#[test]
fn reference_syntax_outside_a_parameter_list_is_a_borrow() {
    // Outside a parameter list `&String s` is a borrow of `String` followed by `s`.
    let tokens = tokens("onflag { f &String s; }");
    assert_eq!(
        tokens,
        vec![
            Token::OnFlag,
            Token::LBrace,
            Token::Name("f".into()),
            Token::Name("@uyborrow:0:String".into()),
            Token::Name("s".into()),
            Token::Semicolon,
            Token::RBrace,
        ]
    );
}

#[test]
fn invalid_byte_becomes_a_diagnostic() {
    let items = lex("onflag { ? }");
    assert_eq!(items.len(), 4);
    match &items[2] {
        Err(d) => assert_eq!(d.span, 9..10),
        Ok(_) => panic!("expected an invalid-token diagnostic"),
    }
}

#[test]
fn empty_input_yields_nothing() {
    assert!(lex("").is_empty());
}

#[test]
fn function_parameter_list_ends_at_its_paren() {
    // After `)` the parameter list is closed, so `&x` in the body is a borrow.
    let tokens = tokens("func f(&String s) Number { g &x; }");
    assert_eq!(
        tokens,
        vec![
            Token::Func,
            Token::Name("f".into()),
            Token::LParen,
            Token::Name("Any".into()),
            Token::Name("@uyref:0:String:s".into()),
            Token::RParen,
            Token::Name("Number".into()),
            Token::LBrace,
            Token::Name("g".into()),
            Token::Name("@uyborrow:0:x".into()),
            Token::Semicolon,
            Token::RBrace,
        ]
    );
}

#[test]
fn lexer_encodings_decode_back() {
    let tokens = tokens("proc read &mut Point p {} onflag { read &mut q; }");
    match &tokens[3] {
        Token::Name(encoded) => {
            let spec = decode_ref_arg(encoded).expect("a reference parameter");
            assert!(spec.mutable);
            assert!(matches!(&spec.inner, BaseTy::Struct(name) if name == "Point"));
            assert_eq!(spec.logical_name, "p");
        }
        _ => panic!("expected the encoded parameter"),
    }
    match &tokens[9] {
        Token::Name(encoded) => {
            assert_eq!(decode_borrow_name(encoded), Some((true, "q".to_string())));
        }
        _ => panic!("expected the encoded borrow"),
    }
}

#[test]
fn without_ampersand_every_scanned_token_comes_through() {
    let source = "proc p x { say $x + 1; } ? onflag { p 2; }\n";
    let scanned = scan(source);
    let lexed = lex(source);
    assert_eq!(lexed.len(), scanned.len());
    for (item, (token, span)) in lexed.iter().zip(scanned.iter()) {
        match (item, token) {
            (Ok((s, t, e)), Ok(expected)) => {
                assert_eq!(t, expected);
                assert_eq!(*s..*e, span.clone());
            }
            (Err(d), Err(())) => {
                assert!(matches!(d.kind, goboscript::diagnostic::DiagnosticKind::InvalidToken));
                assert_eq!(d.span, span.clone());
            }
            _ => panic!("the lexer changed a token"),
        }
    }
}
