//! The parser of the configuration language: a hand-written lexer and
//! recursive-descent parser for
//!
//! ```text
//! term   := 'let' IDENT '=' term 'in' term | atom ('.' IDENT)*
//! atom   := NUM | IDENT | 'import' STRING | '{' (IDENT '=' term ','?)* '}'
//! ```
//!
//! A failure carries a span anchored to the handle the source was parsed
//! under, so diagnostics can point into the stored source.

use vstd::prelude::*;
use vstd::string::*;
use crate::error::ParseError;
use crate::position::RawSpan;
use crate::term::{FieldList, Term};

verus! {

enum Token {
    KwLet,
    KwIn,
    KwImport,
    Ident(String),
    Num(i64),
    Str(String),
    Assign,
    Dot,
    LBrace,
    RBrace,
    Comma,
}

/// A token with the character range it was read from.
struct Tok {
    token: Token,
    start: usize,
    end: usize,
}

fn err_at(file_id: &codespan::FileId, start: usize, end: usize, msg: String) -> (r: ParseError)
    ensures
        r.span.src_id == *file_id,
{
    ParseError { span: RawSpan { src_id: *file_id, start, end }, msg }
}

fn is_ident_start(c: char) -> bool {
    let u = c as u32;
    ('a' as u32 <= u && u <= 'z' as u32) || ('A' as u32 <= u && u <= 'Z' as u32) || c == '_'
}

fn is_digit(c: char) -> (r: bool)
    ensures
        r == ('0' as u32 <= c as u32 <= '9' as u32),
{
    let u = c as u32;
    '0' as u32 <= u && u <= '9' as u32
}

fn is_ident_char(c: char) -> bool {
    is_ident_start(c) || is_digit(c)
}

fn lex(file_id: &codespan::FileId, src: &String) -> (r: Result<Vec<Tok>, ParseError>)
    ensures
        r is Err ==> r->Err_0.span.src_id == *file_id,
{
    let s = src.as_str();
    let n = s.unicode_len();
    let mut toks: Vec<Tok> = Vec::new();
    let mut i: usize = 0;
    while i < n
        invariant
            n == s@.len(),
        decreases n - i,
    {
        let c = s.get_char(i);
        if c == ' ' || c == '\n' || c == '\t' || c == '\r' {
            i = i + 1;
        } else if is_ident_start(c) {
            let mut j: usize = i + 1;
            while j < n && is_ident_char(s.get_char(j))
                invariant
                    n == s@.len(),
                    i < j <= n,
                decreases n - j,
            {
                j = j + 1;
            }
            let word = s.substring_char(i, j).to_owned();
            let token = if word == "let".to_owned() {
                Token::KwLet
            } else if word == "in".to_owned() {
                Token::KwIn
            } else if word == "import".to_owned() {
                Token::KwImport
            } else {
                Token::Ident(word)
            };
            toks.push(Tok { token, start: i, end: j });
            i = j;
        } else if is_digit(c) {
            let mut j: usize = i + 1;
            let mut val: i64 = (c as u32 - '0' as u32) as i64;
            while j < n && is_digit(s.get_char(j))
                invariant
                    n == s@.len(),
                    i < j <= n,
                    0 <= val <= 999_999_999,
                decreases n - j,
            {
                if val > 99_999_999 {
                    return Err(err_at(file_id, i, j, "number too large".to_owned()));
                }
                let d = s.get_char(j) as u32 - '0' as u32;
                val = val * 10 + (d as i64);
                j = j + 1;
            }
            toks.push(Tok { token: Token::Num(val), start: i, end: j });
            i = j;
        } else if c == '"' {
            let mut j: usize = i + 1;
            while j < n && s.get_char(j) != '"'
                invariant
                    n == s@.len(),
                    i < j <= n,
                decreases n - j,
            {
                j = j + 1;
            }
            if j == n {
                return Err(err_at(file_id, i, n, "unterminated string".to_owned()));
            }
            let text = s.substring_char(i + 1, j).to_owned();
            toks.push(Tok { token: Token::Str(text), start: i, end: j + 1 });
            i = j + 1;
        } else if c == '=' {
            toks.push(Tok { token: Token::Assign, start: i, end: i + 1 });
            i = i + 1;
        } else if c == '.' {
            toks.push(Tok { token: Token::Dot, start: i, end: i + 1 });
            i = i + 1;
        } else if c == '{' {
            toks.push(Tok { token: Token::LBrace, start: i, end: i + 1 });
            i = i + 1;
        } else if c == '}' {
            toks.push(Tok { token: Token::RBrace, start: i, end: i + 1 });
            i = i + 1;
        } else if c == ',' {
            toks.push(Tok { token: Token::Comma, start: i, end: i + 1 });
            i = i + 1;
        } else {
            return Err(err_at(file_id, i, i + 1, "unexpected character".to_owned()));
        }
    }
    Ok(toks)
}

fn parse_expr(file_id: &codespan::FileId, toks: &Vec<Tok>, pos: usize) -> (r: Result<
    (Term, usize),
    ParseError,
>)
    requires
        pos <= toks@.len(),
    ensures
        r matches Ok(p) ==> pos < p.1 <= toks@.len(),
        r matches Err(e) ==> e.span.src_id == *file_id,
    decreases toks@.len() - pos, 3int,
{
    if pos < toks.len() && (matches!(toks[pos].token, Token::KwLet)) {
        if toks.len() - pos <= 2 {
            return Err(err_at(file_id, toks[pos].start, toks[pos].end, "incomplete let".to_owned()));
        }
        let x = match &toks[pos + 1].token {
            Token::Ident(x) => x.clone(),
            _ => {
                return Err(
                    err_at(
                        file_id,
                        toks[pos + 1].start,
                        toks[pos + 1].end,
                        "expected an identifier after 'let'".to_owned(),
                    ),
                );
            },
        };
        if !(matches!(toks[pos + 2].token, Token::Assign)) {
            return Err(
                err_at(
                    file_id,
                    toks[pos + 2].start,
                    toks[pos + 2].end,
                    "expected '=' in let".to_owned(),
                ),
            );
        }
        let (bound, p1) = parse_expr(file_id, toks, pos + 3)?;
        if !(p1 < toks.len() && (matches!(toks[p1].token, Token::KwIn))) {
            return Err(
                err_at(
                    file_id,
                    toks[pos].start,
                    toks[pos].end,
                    "expected 'in' after let binding".to_owned(),
                ),
            );
        }
        let (body, p2) = parse_expr(file_id, toks, p1 + 1)?;
        Ok((Term::Let(x, Box::new(bound), Box::new(body)), p2))
    } else {
        let (t, p) = parse_atom(file_id, toks, pos)?;
        parse_access(file_id, toks, t, p)
    }
}

fn parse_atom(file_id: &codespan::FileId, toks: &Vec<Tok>, pos: usize) -> (r: Result<
    (Term, usize),
    ParseError,
>)
    requires
        pos <= toks@.len(),
    ensures
        r matches Ok(p) ==> pos < p.1 <= toks@.len(),
        r matches Err(e) ==> e.span.src_id == *file_id,
    decreases toks@.len() - pos, 1int,
{
    if pos >= toks.len() {
        return Err(err_at(file_id, 0, 0, "unexpected end of input".to_owned()));
    }
    match &toks[pos].token {
        Token::Num(n) => Ok((Term::Num(*n), pos + 1)),
        Token::Ident(x) => Ok((Term::Var(x.clone()), pos + 1)),
        Token::KwImport => {
            if pos + 1 >= toks.len() {
                return Err(
                    err_at(
                        file_id,
                        toks[pos].start,
                        toks[pos].end,
                        "expected a path after 'import'".to_owned(),
                    ),
                );
            }
            match &toks[pos + 1].token {
                Token::Str(path) => {
                    let span = RawSpan {
                        src_id: *file_id,
                        start: toks[pos].start,
                        end: toks[pos + 1].end,
                    };
                    Ok((Term::Import(path.clone(), span), pos + 2))
                },
                _ => Err(
                    err_at(
                        file_id,
                        toks[pos + 1].start,
                        toks[pos + 1].end,
                        "expected a string after 'import'".to_owned(),
                    ),
                ),
            }
        },
        Token::LBrace => {
            let (fields, p) = parse_fields(file_id, toks, pos + 1)?;
            Ok((Term::Record(Box::new(fields)), p))
        },
        _ => Err(err_at(file_id, toks[pos].start, toks[pos].end, "expected a term".to_owned())),
    }
}

fn parse_access(file_id: &codespan::FileId, toks: &Vec<Tok>, t: Term, pos: usize) -> (r: Result<
    (Term, usize),
    ParseError,
>)
    requires
        pos <= toks@.len(),
    ensures
        r matches Ok(p) ==> pos <= p.1 <= toks@.len(),
        r matches Err(e) ==> e.span.src_id == *file_id,
    decreases toks@.len() - pos, 0int,
{
    if pos < toks.len() && toks.len() - pos >= 2 && (matches!(toks[pos].token, Token::Dot)) {
        match &toks[pos + 1].token {
            Token::Ident(f) => parse_access(
                file_id,
                toks,
                Term::Access(Box::new(t), f.clone()),
                pos + 2,
            ),
            _ => Err(
                err_at(
                    file_id,
                    toks[pos + 1].start,
                    toks[pos + 1].end,
                    "expected a field name after '.'".to_owned(),
                ),
            ),
        }
    } else {
        Ok((t, pos))
    }
}

fn parse_fields(file_id: &codespan::FileId, toks: &Vec<Tok>, pos: usize) -> (r: Result<
    (FieldList, usize),
    ParseError,
>)
    requires
        pos <= toks@.len(),
    ensures
        r matches Ok(p) ==> pos < p.1 <= toks@.len(),
        r matches Err(e) ==> e.span.src_id == *file_id,
    decreases toks@.len() - pos, 2int,
{
    if pos >= toks.len() {
        return Err(err_at(file_id, 0, 0, "unterminated record".to_owned()));
    }
    if matches!(toks[pos].token, Token::RBrace) {
        return Ok((FieldList::Nil, pos + 1));
    }
    let x = match &toks[pos].token {
        Token::Ident(x) => x.clone(),
        _ => {
            return Err(
                err_at(
                    file_id,
                    toks[pos].start,
                    toks[pos].end,
                    "expected a field name".to_owned(),
                ),
            );
        },
    };
    if !(pos + 1 < toks.len() && (matches!(toks[pos + 1].token, Token::Assign))) {
        return Err(
            err_at(file_id, toks[pos].start, toks[pos].end, "expected '=' after field name".to_owned()),
        );
    }
    let (t, p1) = parse_expr(file_id, toks, pos + 2)?;
    let p2 = if p1 < toks.len() && (matches!(toks[p1].token, Token::Comma)) {
        p1 + 1
    } else {
        p1
    };
    let (rest, p3) = parse_fields(file_id, toks, p2)?;
    Ok((FieldList::Cons(x, Box::new(t), Box::new(rest)), p3))
}

/// Parse a whole source: every token must be consumed.
pub fn parse_source(file_id: &codespan::FileId, src: &String) -> (r: Result<Term, ParseError>)
    ensures
        r matches Err(e) ==> e.span.src_id == *file_id,
{
    let toks = lex(file_id, src)?;
    let (t, p) = parse_expr(file_id, &toks, 0)?;
    if p != toks.len() {
        return Err(err_at(file_id, toks[p].start, toks[p].end, "trailing input".to_owned()));
    }
    Ok(t)
}

} // verus!
