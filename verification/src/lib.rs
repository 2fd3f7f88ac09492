use vstd::prelude::*;

pub mod document;
pub mod lexer;
pub mod parser;
pub mod text;

use crate::document::Document;
use crate::lexer::lex;
use crate::lexer::lex_fail_msg;
use crate::lexer::Lexer;
use crate::lexer::LexOut;
use crate::parser::parse_fail_msg;
use crate::parser::spec_parse_tokens;
use crate::parser::Parser;
use crate::parser::ParserError;
use crate::parser::ParseOut;
use crate::text::push_char;

verus! {

/// The parse result: a document, the sorted title-to-content mapping.
pub enum Value {
    Object(Document),
}

impl View for Value {
    type V = Map<Seq<char>, Seq<char>>;

    open spec fn view(&self) -> Map<Seq<char>, Seq<char>> {
        match self {
            Value::Object(d) => d@,
        }
    }
}

impl Value {
    pub open spec fn wf(&self) -> bool {
        match self {
            Value::Object(d) => d.wf(),
        }
    }
}

/// Runs the whole pipeline: tokenizes the input, then assembles the tokens
/// into a document. A tokenizer failure surfaces as a parser error carrying
/// the same message.
pub fn parse(input: &str) -> (r: Result<Value, ParserError>)
    ensures
        match lex(input@) {
            LexOut::Toks(ts) => match spec_parse_tokens(ts) {
                ParseOut::Doc(m) => r matches Ok(v) && v@ == m && v.wf(),
                ParseOut::Fail(k) => r matches Err(e) && e.msg@ == parse_fail_msg(k),
            },
            LexOut::Fail(k) => r matches Err(e) && e.msg@ == lex_fail_msg(k),
        },
{
    match Lexer::new(input).tokenize() {
        Ok(tokens) => Parser::new(tokens).parse(),
        Err(e) => Err(ParserError::new(e.msg.as_str())),
    }
}

/// The characters of a content text with every literal newline removed:
/// only the actual newline character is dropped, never the two-character
/// `\n` escape sequence, which holds no newline character.
pub open spec fn strip_newlines(s: Seq<char>) -> Seq<char>
    decreases s.len(),
{
    if s.len() == 0 {
        Seq::empty()
    } else if s.last() == '\n' {
        strip_newlines(s.drop_last())
    } else {
        strip_newlines(s.drop_last()).push(s.last())
    }
}

/// The reporting computation for one entry: the content with literal
/// newlines removed, and the number of Unicode scalar values left in it.
pub fn report_content(content: &str) -> (r: (String, usize))
    ensures
        r.0@ == strip_newlines(content@),
        r.1 == strip_newlines(content@).len(),
{
    let n = content.unicode_len();
    let mut out = String::new();
    let mut i: usize = 0;
    proof {
        assert(content@.subrange(0, 0) =~= Seq::<char>::empty());
    }
    while i < n
        invariant
            i <= n,
            n == content@.len(),
            out@ == strip_newlines(content@.subrange(0, i as int)),
        decreases n - i,
    {
        let c = content.get_char(i);
        proof {
            let pre = content@.subrange(0, i as int + 1);
            assert(pre.drop_last() =~= content@.subrange(0, i as int));
            assert(pre.last() == c);
        }
        if c != '\n' {
            push_char(&mut out, c);
        }
        i = i + 1;
    }
    proof {
        assert(content@.subrange(0, n as int) =~= content@);
    }
    let count = out.unicode_len();
    (out, count)
}

} // verus!
