use vstd::prelude::*;

use crate::document::Document;
use crate::lexer::append_token_debug;
use crate::lexer::token_debug_text;
use crate::lexer::token_views;
use crate::lexer::Token;
use crate::lexer::TokenV;
use crate::Value;
use vstd::string::StringExecFns;

verus! {

/// The ways assembling the token sequence fails, each carrying the
/// offending token where there is one.
pub enum ParseFail {
    NoToken,
    MustStartBracket(TokenV),
    TitleRequired(TokenV),
    CloseRequired(TokenV),
    ContentRequired(TokenV),
}

/// The message each failure carries, naming the offending token.
pub open spec fn parse_fail_msg(k: ParseFail) -> Seq<char> {
    match k {
        ParseFail::NoToken => "error: a token isn't peekable"@,
        ParseFail::MustStartBracket(t) => "error: a token must start [ "@ + token_debug_text(t),
        ParseFail::TitleRequired(t) => "error: String is required next to [ "@ + token_debug_text(
            t,
        ),
        ParseFail::CloseRequired(t) => "error: ] is required next to [\"title\" "@
            + token_debug_text(t),
        ParseFail::ContentRequired(t) => "error: String is required next to [\"title\"] "@
            + token_debug_text(t),
    }
}

/// An assembler failure naming the offending token.
fn token_err(base: &str, t: &Token) -> (e: ParserError)
    ensures
        e.msg@ == base@ + token_debug_text(t@),
{
    let mut msg = base.to_owned();
    append_token_debug(&mut msg, t);
    ParserError { msg }
}

/// Outcome of one section's content run.
pub enum ContentOut {
    /// Another header follows: `rest` starts at its `LeftBracket`.
    More { content: Seq<char>, rest: Seq<TokenV> },
    /// The end marker follows: this section closes the document.
    Last { content: Seq<char> },
    Fail(ParseFail),
}

/// Gathers one section's content from the tokens after its header: string
/// tokens are concatenated in order until the one-token lookahead shows the
/// next header's `LeftBracket` or the end marker.
pub open spec fn parse_content(toks: Seq<TokenV>, acc: Seq<char>) -> ContentOut
    decreases toks.len(),
{
    if toks.len() < 2 {
        ContentOut::Fail(ParseFail::NoToken)
    } else {
        match (toks[0], toks[1]) {
            (TokenV::Str(s), TokenV::Str(_)) => parse_content(toks.drop_first(), acc + s),
            (TokenV::Str(s), TokenV::LeftBracket) => ContentOut::More {
                content: acc + s,
                rest: toks.drop_first(),
            },
            (TokenV::Str(s), TokenV::Tail) => ContentOut::Last { content: acc + s },
            _ => ContentOut::Fail(ParseFail::ContentRequired(toks[0])),
        }
    }
}

pub proof fn lemma_parse_content_rest(toks: Seq<TokenV>, acc: Seq<char>)
    ensures
        parse_content(toks, acc) matches ContentOut::More { rest, .. } ==> 0 < rest.len()
            < toks.len(),
    decreases toks.len(),
{
    if toks.len() >= 2 {
        if toks[0] is Str && toks[1] is Str {
            match toks[0] {
                TokenV::Str(s) => {
                    lemma_parse_content_rest(toks.drop_first(), acc + s);
                },
                _ => {},
            }
        }
    }
}

/// The string tokens carrying the given texts.
pub open spec fn str_tokens(texts: Seq<Seq<char>>) -> Seq<TokenV> {
    texts.map_values(|t: Seq<char>| TokenV::Str(t))
}

/// The concatenation of the given texts, in order.
pub open spec fn concat_texts(texts: Seq<Seq<char>>) -> Seq<char>
    decreases texts.len(),
{
    if texts.len() == 0 {
        Seq::empty()
    } else {
        texts[0] + concat_texts(texts.drop_first())
    }
}

/// A section's content is the exact concatenation, in input order, of the
/// string tokens standing between its header and the next header's bracket
/// or the end marker.
pub proof fn lemma_content_is_concat(texts: Seq<Seq<char>>, rest: Seq<TokenV>, acc: Seq<char>)
    requires
        texts.len() >= 1,
        rest.len() >= 1,
        rest[0] is LeftBracket || rest[0] is Tail,
    ensures
        parse_content(str_tokens(texts) + rest, acc) == (if rest[0] is LeftBracket {
            ContentOut::More { content: acc + concat_texts(texts), rest: rest }
        } else {
            ContentOut::Last { content: acc + concat_texts(texts) }
        }),
    decreases texts.len(),
{
    let toks = str_tokens(texts) + rest;
    assert(toks[0] == TokenV::Str(texts[0]));
    if texts.len() == 1 {
        assert(toks[1] == rest[0]);
        assert(toks.drop_first() =~= rest);
        assert(acc + texts[0] =~= acc + concat_texts(texts));
    } else {
        assert(toks[1] == TokenV::Str(texts[1]));
        assert(toks.drop_first() =~= str_tokens(texts.drop_first()) + rest);
        lemma_content_is_concat(texts.drop_first(), rest, acc + texts[0]);
        assert((acc + texts[0]) + concat_texts(texts.drop_first()) =~= acc + concat_texts(texts));
    }
}

/// The tokens of one section: the bracketed quoted title, then its quoted
/// segments.
pub open spec fn section_tokens(title: Seq<char>, texts: Seq<Seq<char>>) -> Seq<TokenV> {
    seq![TokenV::LeftBracket, TokenV::Str(title), TokenV::RightBracket] + str_tokens(texts)
}

/// The tokens of a whole document: its sections in order, then the end
/// marker.
pub open spec fn sections_tokens(secs: Seq<(Seq<char>, Seq<Seq<char>>)>) -> Seq<TokenV>
    decreases secs.len(),
{
    if secs.len() == 0 {
        seq![TokenV::Tail]
    } else {
        section_tokens(secs[0].0, secs[0].1) + sections_tokens(secs.drop_first())
    }
}

/// The mapping a list of sections stands for: each title maps to the
/// concatenation of its own segments, a later section with the same title
/// replacing the earlier entry.
pub open spec fn sections_map(
    secs: Seq<(Seq<char>, Seq<Seq<char>>)>,
    acc: Map<Seq<char>, Seq<char>>,
) -> Map<Seq<char>, Seq<char>>
    decreases secs.len(),
{
    if secs.len() == 0 {
        acc
    } else {
        sections_map(secs.drop_first(), acc.insert(secs[0].0, concat_texts(secs[0].1)))
    }
}

/// Over a whole document: assembling the tokens of a list of sections, each
/// with at least one quoted segment, always succeeds and maps every title
/// to the exact concatenation, in input order, of the segments between its
/// last header and the next header or the end of input.
pub proof fn lemma_sections_parse(
    secs: Seq<(Seq<char>, Seq<Seq<char>>)>,
    acc: Map<Seq<char>, Seq<char>>,
)
    requires
        secs.len() >= 1,
        forall|i: int| 0 <= i < secs.len() ==> (#[trigger] secs[i]).1.len() >= 1,
    ensures
        parse_sections(sections_tokens(secs), acc) == ParseOut::Doc(sections_map(secs, acc)),
    decreases secs.len(),
{
    let toks = sections_tokens(secs);
    let title = secs[0].0;
    let texts = secs[0].1;
    let head = section_tokens(title, texts);
    let rest = sections_tokens(secs.drop_first());
    assert(str_tokens(texts).len() == texts.len());
    assert(toks == head + rest);
    assert(toks[0] == TokenV::LeftBracket);
    assert(toks[1] == TokenV::Str(title));
    assert(toks[2] == TokenV::RightBracket);
    assert(toks.skip(3) =~= str_tokens(texts) + rest);
    assert(toks.len() == head.len() + rest.len());
    assert(head.len() == 3 + texts.len());
    assert(rest.len() >= 1);
    if secs.len() == 1 {
        assert(rest == seq![TokenV::Tail]);
        assert(rest[0] is Tail);
        lemma_content_is_concat(texts, rest, Seq::empty());
        assert(Seq::<char>::empty() + concat_texts(texts) =~= concat_texts(texts));
        assert(parse_content(toks.skip(3), Seq::empty()) == (ContentOut::Last {
            content: concat_texts(texts),
        }));
        assert(parse_sections(toks, acc) == ParseOut::Doc(acc.insert(title, concat_texts(texts))));
        assert(secs.drop_first().len() == 0);
        assert(sections_map(secs.drop_first(), acc.insert(title, concat_texts(texts)))
            == acc.insert(title, concat_texts(texts)));
        assert(sections_map(secs, acc) == acc.insert(title, concat_texts(texts)));
    } else {
        assert(rest == section_tokens(secs.drop_first()[0].0, secs.drop_first()[0].1)
            + sections_tokens(secs.drop_first().drop_first()));
        assert(rest[0] is LeftBracket);
        lemma_content_is_concat(texts, rest, Seq::empty());
        assert(Seq::<char>::empty() + concat_texts(texts) =~= concat_texts(texts));
        assert(parse_content(toks.skip(3), Seq::empty()) == (ContentOut::More {
            content: concat_texts(texts),
            rest: rest,
        }));
        assert(parse_sections(toks, acc) == parse_sections(
            rest,
            acc.insert(title, concat_texts(texts)),
        ));
        lemma_sections_parse(secs.drop_first(), acc.insert(title, concat_texts(texts)));
        assert(sections_map(secs, acc) == sections_map(
            secs.drop_first(),
            acc.insert(title, concat_texts(texts)),
        ));
    }
}

/// What assembling yields: the finished mapping or a failure.
pub enum ParseOut {
    Doc(Map<Seq<char>, Seq<char>>),
    Fail(ParseFail),
}

/// Assembles sections into the mapping `acc`: each section is a bracketed
/// quoted title followed by its content run, and a later section with the
/// same title replaces the earlier entry. Only the end marker after a
/// content run closes the document.
pub open spec fn parse_sections(toks: Seq<TokenV>, acc: Map<Seq<char>, Seq<char>>) -> ParseOut
    decreases toks.len(),
{
    if toks.len() < 3 {
        ParseOut::Fail(ParseFail::NoToken)
    } else {
        match (toks[0], toks[1], toks[2]) {
            (TokenV::LeftBracket, TokenV::Str(title), TokenV::RightBracket) => {
                match parse_content(toks.skip(3), Seq::empty()) {
                    ContentOut::More { content, rest } => {
                        proof {
                            lemma_parse_content_rest(toks.skip(3), Seq::empty());
                        }
                        parse_sections(rest, acc.insert(title, content))
                    },
                    ContentOut::Last { content } => ParseOut::Doc(acc.insert(title, content)),
                    ContentOut::Fail(k) => ParseOut::Fail(k),
                }
            },
            (TokenV::LeftBracket, TokenV::Str(_), _) => ParseOut::Fail(
                ParseFail::CloseRequired(toks[2]),
            ),
            (TokenV::LeftBracket, _, _) => ParseOut::Fail(ParseFail::TitleRequired(toks[1])),
            _ => ParseOut::Fail(ParseFail::MustStartBracket(toks[0])),
        }
    }
}

/// What assembling a whole token sequence yields: the first token must be a
/// `LeftBracket`.
pub open spec fn spec_parse_tokens(toks: Seq<TokenV>) -> ParseOut {
    if toks.len() == 0 {
        ParseOut::Fail(ParseFail::NoToken)
    } else if !(toks[0] is LeftBracket) {
        ParseOut::Fail(ParseFail::MustStartBracket(toks[0]))
    } else {
        parse_sections(toks, Map::empty())
    }
}

/// A failure of the assembler, carrying its message.
#[derive(Debug, Clone)]
pub struct ParserError {
    pub msg: String,
}

impl ParserError {
    pub fn new(msg: &str) -> (e: ParserError)
        ensures
            e.msg@ == msg@,
    {
        ParserError { msg: msg.to_owned() }
    }
}

/// A copy of a token with the same view.
fn dup_token(t: &Token) -> (r: Token)
    ensures
        r@ == t@,
{
    match t {
        Token::String(s) => Token::String(s.as_str().to_owned()),
        Token::LeftBracket => Token::LeftBracket,
        Token::RightBracket => Token::RightBracket,
        Token::NewLine => Token::NewLine,
        Token::Tail => Token::Tail,
    }
}

/// The assembler: a one-token-lookahead cursor over the token sequence.
pub struct Parser {
    tokens: Vec<Token>,
    index: usize,
}

impl Parser {
    pub closed spec fn wf(&self) -> bool {
        self.index <= self.tokens@.len()
    }

    /// The token views not yet consumed.
    pub closed spec fn remaining(&self) -> Seq<TokenV> {
        token_views(self.tokens@).skip(self.index as int)
    }

    /// Takes the token sequence and returns an assembler over all of it.
    pub fn new(tokens: Vec<Token>) -> (p: Parser)
        ensures
            p.wf(),
            p.remaining() == token_views(tokens@),
    {
        let p = Parser { tokens, index: 0 };
        proof {
            assert(p.remaining() =~= token_views(p.tokens@));
        }
        p
    }

    /// The token at the cursor, if any.
    fn peek(&self) -> (r: Option<&Token>)
        requires
            self.wf(),
        ensures
            match r {
                Some(t) => self.remaining().len() > 0 && t@ == self.remaining()[0],
                None => self.remaining().len() == 0,
            },
    {
        if self.index < self.tokens.len() {
            Some(&self.tokens[self.index])
        } else {
            None
        }
    }

    /// The token at the cursor, or a failure when none is left.
    fn peek_expect(&self) -> (r: Result<&Token, ParserError>)
        requires
            self.wf(),
        ensures
            match r {
                Ok(t) => self.remaining().len() > 0 && t@ == self.remaining()[0],
                Err(e) => self.remaining().len() == 0 && e.msg@ == parse_fail_msg(
                    ParseFail::NoToken,
                ),
            },
    {
        match self.peek() {
            Some(t) => Ok(t),
            None => Err(ParserError::new("error: a token isn't peekable")),
        }
    }

    /// The token at the cursor, the cursor advanced past it.
    fn next(&mut self) -> (r: Option<Token>)
        requires
            old(self).wf(),
        ensures
            final(self).wf(),
            final(self).tokens == old(self).tokens,
            match r {
                Some(t) => old(self).remaining().len() > 0 && t@ == old(self).remaining()[0]
                    && final(self).remaining() == old(self).remaining().drop_first(),
                None => old(self).remaining().len() == 0 && *final(self) == *old(self),
            },
    {
        if self.index < self.tokens.len() {
            let t = dup_token(&self.tokens[self.index]);
            self.index = self.index + 1;
            proof {
                assert(final(self).remaining() =~= old(self).remaining().drop_first());
            }
            Some(t)
        } else {
            None
        }
    }

    /// The token at the cursor, the cursor advanced, or a failure when none
    /// is left.
    fn next_expect(&mut self) -> (r: Result<Token, ParserError>)
        requires
            old(self).wf(),
        ensures
            final(self).wf(),
            final(self).tokens == old(self).tokens,
            match r {
                Ok(t) => old(self).remaining().len() > 0 && t@ == old(self).remaining()[0]
                    && final(self).remaining() == old(self).remaining().drop_first(),
                Err(e) => old(self).remaining().len() == 0 && *final(self) == *old(self) && e.msg@
                    == parse_fail_msg(ParseFail::NoToken),
            },
    {
        match self.next() {
            Some(t) => Ok(t),
            None => Err(ParserError::new("error: a token isn't peekable")),
        }
    }

    /// Assembles the whole token sequence into a document.
    pub fn parse(&mut self) -> (r: Result<Value, ParserError>)
        requires
            old(self).wf(),
        ensures
            match r {
                Ok(v) => spec_parse_tokens(old(self).remaining()) == ParseOut::Doc(v@) && v.wf(),
                Err(e) => spec_parse_tokens(old(self).remaining()) matches ParseOut::Fail(k)
                    && e.msg@ == parse_fail_msg(k),
            },
    {
        let head_err: Option<ParserError>;
        match self.peek_expect() {
            Ok(t) => {
                if matches!(t, Token::LeftBracket) {
                    head_err = None;
                } else {
                    head_err = Some(token_err("error: a token must start [ ", t));
                }
            },
            Err(e) => {
                return Err(e);
            },
        }
        match head_err {
            None => self.parse_obj(),
            Some(e) => Err(e),
        }
    }

    fn parse_obj(&mut self) -> (r: Result<Value, ParserError>)
        requires
            old(self).wf(),
        ensures
            match r {
                Ok(v) => parse_sections(old(self).remaining(), Map::empty()) == ParseOut::Doc(v@)
                    && v.wf(),
                Err(e) => match parse_sections(old(self).remaining(), Map::empty()) {
                    ParseOut::Fail(k) => e.msg@ == parse_fail_msg(k),
                    ParseOut::Doc(_) => false,
                },
            },
    {
        let ghost orig = self.remaining();
        let mut object = Document::new();
        let mut err: Option<ParserError> = None;
        loop
            invariant_except_break
                err is None,
                parse_sections(orig, Map::empty()) == parse_sections(self.remaining(), object@),
            invariant
                self.wf(),
                object.wf(),
            ensures
                object.wf(),
                match err {
                    Some(e) => match parse_sections(orig, Map::empty()) {
                        ParseOut::Fail(k) => e.msg@ == parse_fail_msg(k),
                        ParseOut::Doc(_) => false,
                    },
                    None => parse_sections(orig, Map::empty()) == ParseOut::Doc(object@),
                },
            decreases self.remaining().len(),
        {
            let ghost rem0 = self.remaining();
            let ghost acc0 = object@;
            let token1 = match self.next_expect() {
                Ok(t) => t,
                Err(e) => {
                    err = Some(e);
                    break ;
                },
            };
            let token2 = match self.next_expect() {
                Ok(t) => t,
                Err(e) => {
                    proof {
                        assert(rem0.len() == 1);
                    }
                    err = Some(e);
                    break ;
                },
            };
            let token3 = match self.next_expect() {
                Ok(t) => t,
                Err(e) => {
                    proof {
                        assert(rem0.len() == 2);
                    }
                    err = Some(e);
                    break ;
                },
            };
            match (token1, token2, token3) {
                (Token::LeftBracket, Token::String(title), Token::RightBracket) => {
                    let ghost tv = title@;
                    proof {
                        assert(rem0[0] == TokenV::LeftBracket);
                        assert(rem0[1] == TokenV::Str(tv));
                        assert(rem0[2] == TokenV::RightBracket);
                        assert(rem0.drop_first().drop_first().drop_first() =~= rem0.skip(3));
                    }
                    let mut content = String::new();
                    let mut finished = false;
                    let mut ierr: Option<ParserError> = None;
                    loop
                        invariant_except_break
                            ierr is None,
                            !finished,
                            parse_content(rem0.skip(3), Seq::empty()) == parse_content(
                                self.remaining(),
                                content@,
                            ),
                        invariant
                            self.wf(),
                        ensures
                            self.wf(),
                            match ierr {
                                Some(e) => match parse_content(rem0.skip(3), Seq::empty()) {
                                    ContentOut::Fail(k) => e.msg@ == parse_fail_msg(k),
                                    _ => false,
                                },
                                None => if finished {
                                    parse_content(rem0.skip(3), Seq::empty())
                                        == (ContentOut::Last { content: content@ })
                                } else {
                                    parse_content(rem0.skip(3), Seq::empty())
                                        == (ContentOut::More {
                                        content: content@,
                                        rest: self.remaining(),
                                    })
                                },
                            },
                        decreases self.remaining().len(),
                    {
                        let ghost cur = self.remaining();
                        let ghost c0 = content@;
                        let token4 = match self.next_expect() {
                            Ok(t) => t,
                            Err(e) => {
                                ierr = Some(e);
                                break ;
                            },
                        };
                        let next_kind: u8;
                        match self.peek_expect() {
                            Ok(t) => {
                                next_kind = match t {
                                    Token::String(_) => 0u8,
                                    Token::LeftBracket => 1u8,
                                    Token::Tail => 2u8,
                                    _ => 3u8,
                                };
                            },
                            Err(e) => {
                                proof {
                                    assert(cur.len() == 1);
                                }
                                ierr = Some(e);
                                break ;
                            },
                        }
                        proof {
                            assert(cur[0] == token4@);
                            assert(cur[1] == cur.drop_first()[0]);
                        }
                        match token4 {
                            Token::String(s) => {
                                content.append(s.as_str());
                                proof {
                                    assert(content@ == c0 + s@);
                                }
                                if next_kind == 0 {
                                } else if next_kind == 1 {
                                    break ;
                                } else if next_kind == 2 {
                                    finished = true;
                                    break ;
                                } else {
                                    let t4 = Token::String(s);
                                    ierr = Some(
                                        token_err(
                                            "error: String is required next to [\"title\"] ",
                                            &t4,
                                        ),
                                    );
                                    break ;
                                }
                            },
                            t4 => {
                                ierr = Some(
                                    token_err(
                                        "error: String is required next to [\"title\"] ",
                                        &t4,
                                    ),
                                );
                                break ;
                            },
                        }
                    }
                    match ierr {
                        Some(e) => {
                            err = Some(e);
                            break ;
                        },
                        None => {
                            proof {
                                lemma_parse_content_rest(rem0.skip(3), Seq::empty());
                            }
                            object.insert(title, content);
                            if finished {
                                break ;
                            }
                        },
                    }
                },
                (Token::LeftBracket, Token::String(_), t3) => {
                    proof {
                        assert(t3@ == rem0[2]);
                    }
                    err = Some(token_err("error: ] is required next to [\"title\" ", &t3));
                    break ;
                },
                (Token::LeftBracket, t2, _) => {
                    proof {
                        assert(t2@ == rem0[1]);
                    }
                    err = Some(token_err("error: String is required next to [ ", &t2));
                    break ;
                },
                (t1, _, _) => {
                    proof {
                        assert(t1@ == rem0[0]);
                    }
                    err = Some(token_err("error: a token must start [ ", &t1));
                    break ;
                },
            }
        }
        match err {
            Some(e) => Err(e),
            None => Ok(Value::Object(object)),
        }
    }
}

} // verus!
