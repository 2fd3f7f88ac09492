use vstd::prelude::*;

use crate::text::push_char;
use vstd::string::StringExecFns;

verus! {

/// A classified unit of the input text. `NewLine` stands for any whitespace
/// and is discarded before the token sequence leaves `tokenize`; `Tail`
/// marks the end of the sequence.
#[derive(Debug, Clone)]
pub enum Token {
    String(String),
    LeftBracket,
    RightBracket,
    NewLine,
    Tail,
}

/// The mathematical shape of a `Token`: its text as a character sequence.
pub enum TokenV {
    Str(Seq<char>),
    LeftBracket,
    RightBracket,
    NewLine,
    Tail,
}

impl View for Token {
    type V = TokenV;

    open spec fn view(&self) -> TokenV {
        match self {
            Token::String(s) => TokenV::Str(s@),
            Token::LeftBracket => TokenV::LeftBracket,
            Token::RightBracket => TokenV::RightBracket,
            Token::NewLine => TokenV::NewLine,
            Token::Tail => TokenV::Tail,
        }
    }
}

/// The token views of a token sequence.
pub open spec fn token_views(ts: Seq<Token>) -> Seq<TokenV> {
    ts.map_values(|t: Token| t@)
}

/// How one character of a string literal's text is rendered inside an error
/// message: the control escapes, the backslash and the quote become
/// two-character escapes, any other character stands for itself.
pub open spec fn char_debug(c: char) -> Seq<char> {
    if c == '\t' {
        seq!['\\', 't']
    } else if c == '\r' {
        seq!['\\', 'r']
    } else if c == '\n' {
        seq!['\\', 'n']
    } else if c == '\0' {
        seq!['\\', '0']
    } else if c == '\\' {
        seq!['\\', '\\']
    } else if c == '"' {
        seq!['\\', '"']
    } else {
        seq![c]
    }
}

pub open spec fn text_debug(s: Seq<char>) -> Seq<char>
    decreases s.len(),
{
    if s.len() == 0 {
        Seq::empty()
    } else {
        text_debug(s.drop_last()) + char_debug(s.last())
    }
}

/// The rendering of a token inside an error message: the variant's name,
/// and for a string literal its text, quoted and escaped.
pub open spec fn token_debug_text(t: TokenV) -> Seq<char> {
    match t {
        TokenV::Str(s) => "String(\""@ + text_debug(s) + "\")"@,
        TokenV::LeftBracket => "LeftBracket"@,
        TokenV::RightBracket => "RightBracket"@,
        TokenV::NewLine => "NewLine"@,
        TokenV::Tail => "Tail"@,
    }
}

/// Appends a token's rendering to a message under construction.
pub(crate) fn append_token_debug(msg: &mut String, t: &Token)
    ensures
        final(msg)@ == old(msg)@ + token_debug_text(t@),
{
    match t {
        Token::String(s) => {
            let ghost m0 = msg@;
            msg.append("String(\"");
            let sv = s.as_str();
            let n = sv.unicode_len();
            let mut i: usize = 0;
            proof {
                assert(sv@.subrange(0, 0) =~= Seq::<char>::empty());
                assert(m0 + "String(\""@ + text_debug(Seq::<char>::empty()) =~= m0 + "String(\""@);
            }
            while i < n
                invariant
                    i <= n,
                    n == sv@.len(),
                    sv@ == s@,
                    msg@ == m0 + "String(\""@ + text_debug(sv@.subrange(0, i as int)),
                decreases n - i,
            {
                let c = sv.get_char(i);
                let ghost before = msg@;
                proof {
                    let pre = sv@.subrange(0, i as int + 1);
                    assert(pre.drop_last() =~= sv@.subrange(0, i as int));
                    assert(pre.last() == c);
                }
                if c == '\t' {
                    push_char(msg, '\\');
                    push_char(msg, 't');
                } else if c == '\r' {
                    push_char(msg, '\\');
                    push_char(msg, 'r');
                } else if c == '\n' {
                    push_char(msg, '\\');
                    push_char(msg, 'n');
                } else if c == '\0' {
                    push_char(msg, '\\');
                    push_char(msg, '0');
                } else if c == '\\' {
                    push_char(msg, '\\');
                    push_char(msg, '\\');
                } else if c == '"' {
                    push_char(msg, '\\');
                    push_char(msg, '"');
                } else {
                    push_char(msg, c);
                }
                proof {
                    assert(msg@ =~= before + char_debug(c));
                    assert(before + char_debug(c) =~= m0 + "String(\""@ + (text_debug(
                        sv@.subrange(0, i as int),
                    ) + char_debug(c)));
                }
                i = i + 1;
            }
            let ghost body = msg@;
            msg.append("\")");
            proof {
                assert(sv@.subrange(0, n as int) =~= sv@);
                assert(msg@ =~= m0 + ("String(\""@ + text_debug(s@) + "\")"@));
            }
        },
        Token::LeftBracket => {
            msg.append("LeftBracket");
        },
        Token::RightBracket => {
            msg.append("RightBracket");
        },
        Token::NewLine => {
            msg.append("NewLine");
        },
        Token::Tail => {
            msg.append("Tail");
        },
    }
}

/// The characters with the Unicode `White_Space` property, which the
/// tokenizer consumes and discards.
pub open spec fn is_space_char(c: char) -> bool {
    let u = c as u32;
    (0x09 <= u && u <= 0x0D) || u == 0x20 || u == 0x85 || u == 0xA0 || u == 0x1680 || (0x2000
        <= u && u <= 0x200A) || u == 0x2028 || u == 0x2029 || u == 0x202F || u == 0x205F || u
        == 0x3000
}

fn is_space(c: char) -> (r: bool)
    ensures
        r == is_space_char(c),
{
    let u = c as u32;
    (0x09 <= u && u <= 0x0D) || u == 0x20 || u == 0x85 || u == 0xA0 || u == 0x1680 || (0x2000
        <= u && u <= 0x200A) || u == 0x2028 || u == 0x2029 || u == 0x202F || u == 0x205F || u
        == 0x3000
}

/// The escape letters that are kept verbatim as a two-character sequence:
/// the backslash and the letter are appended to the text unchanged.
pub open spec fn is_simple_escape(c: char) -> bool {
    c == '"' || c == '\\' || c == '/' || c == 'b' || c == 'f' || c == 'n' || c == 'r' || c == 't'
}

fn is_simple_escape_char(c: char) -> (r: bool)
    ensures
        r == is_simple_escape(c),
{
    c == '"' || c == '\\' || c == '/' || c == 'b' || c == 'f' || c == 'n' || c == 'r' || c == 't'
}

/// ASCII hexadecimal digits, either case.
pub open spec fn is_hex_digit(c: char) -> bool {
    let u = c as u32;
    (0x30 <= u && u <= 0x39) || (0x41 <= u && u <= 0x46) || (0x61 <= u && u <= 0x66)
}

fn is_hex_digit_char(c: char) -> (r: bool)
    ensures
        r == is_hex_digit(c),
{
    let u = c as u32;
    (0x30 <= u && u <= 0x39) || (0x41 <= u && u <= 0x46) || (0x61 <= u && u <= 0x66)
}

/// Numeric value of one hexadecimal digit.
pub open spec fn hex_digit_val(c: char) -> int {
    let u = c as u32;
    if 0x30 <= u && u <= 0x39 {
        u - 0x30
    } else if 0x41 <= u && u <= 0x46 {
        u - 0x41 + 10
    } else {
        u - 0x61 + 10
    }
}

/// The hexadecimal digits of `s`, in order, with every other character
/// dropped.
pub open spec fn keep_hex(s: Seq<char>) -> Seq<char>
    decreases s.len(),
{
    if s.len() == 0 {
        Seq::empty()
    } else if is_hex_digit(s.last()) {
        keep_hex(s.drop_last()).push(s.last())
    } else {
        keep_hex(s.drop_last())
    }
}

/// Value of a sequence of hexadecimal digits, most significant first.
pub open spec fn hex_num(s: Seq<char>) -> int
    decreases s.len(),
{
    if s.len() == 0 {
        0
    } else {
        hex_num(s.drop_last()) * 16 + hex_digit_val(s.last())
    }
}

pub open spec fn sixteen_pow(n: nat) -> int
    decreases n,
{
    if n == 0 {
        1
    } else {
        16 * sixteen_pow((n - 1) as nat)
    }
}

proof fn lemma_keep_hex_props(s: Seq<char>)
    ensures
        keep_hex(s).len() <= s.len(),
        forall|i: int| 0 <= i < keep_hex(s).len() ==> is_hex_digit(#[trigger] keep_hex(s)[i]),
    decreases s.len(),
{
    if s.len() > 0 {
        lemma_keep_hex_props(s.drop_last());
    }
}

proof fn lemma_hex_num_bound(s: Seq<char>)
    requires
        forall|i: int| 0 <= i < s.len() ==> is_hex_digit(#[trigger] s[i]),
    ensures
        0 <= hex_num(s) < sixteen_pow(s.len()),
    decreases s.len(),
{
    if s.len() > 0 {
        assert(s.last() == s[s.len() - 1]);
        assert(forall|i: int|
            0 <= i < s.drop_last().len() ==> is_hex_digit(#[trigger] s.drop_last()[i]));
        lemma_hex_num_bound(s.drop_last());
    }
}

pub open spec fn is_high_surrogate(u: u16) -> bool {
    0xD800 <= u && u <= 0xDBFF
}

pub open spec fn is_low_surrogate(u: u16) -> bool {
    0xDC00 <= u && u <= 0xDFFF
}

/// The Unicode scalar value that a surrogate pair stands for.
pub open spec fn pair_scalar(hi: u16, lo: u16) -> int {
    0x10000 + (hi - 0xD800) * 0x400 + (lo - 0xDC00)
}

/// UTF-16 decoding of a sequence of 16-bit code units: a unit outside the
/// surrogate range stands for the character with that value, a high
/// surrogate followed by a low surrogate stands for one supplementary
/// character, and any other use of a surrogate is malformed (`None`).
pub open spec fn utf16_decode(units: Seq<u16>) -> Option<Seq<char>>
    decreases units.len(),
{
    if units.len() == 0 {
        Some(Seq::empty())
    } else if !is_high_surrogate(units[0]) && !is_low_surrogate(units[0]) {
        match utf16_decode(units.drop_first()) {
            Some(t) => Some(seq![(units[0] as u32) as char] + t),
            None => None,
        }
    } else if is_high_surrogate(units[0]) && units.len() >= 2 && is_low_surrogate(units[1]) {
        match utf16_decode(units.skip(2)) {
            Some(t) => Some(seq![(pair_scalar(units[0], units[1]) as u32) as char] + t),
            None => None,
        }
    } else {
        None
    }
}

/// The ways tokenization fails, each carrying what its message names: the
/// offending character where there is one.
pub enum LexFail {
    UnexpectedChar(char),
    EscapeEnd,
    UnicodeDigits,
    UnexpectedEscape(char),
    Utf16,
}

/// The message each failure carries. The unicode-digit failure quotes the
/// description of the integer-parse error on an empty digit string (the one
/// way that parse can fail here), and the flush failure quotes the
/// description of a UTF-16 decode error, which is one fixed sentence.
pub open spec fn lex_fail_msg(k: LexFail) -> Seq<char> {
    match k {
        LexFail::UnexpectedChar(c) => "error: an unexpected char "@ + seq![c],
        LexFail::EscapeEnd => "error: a next char is expected"@,
        LexFail::UnicodeDigits => "error: a unicode character is expected cannot parse integer from empty string"@,
        LexFail::UnexpectedEscape(c) => "error: an unexpected escaped char "@ + seq![c],
        LexFail::Utf16 => "error: invalid utf-16: lone surrogate found"@,
    }
}

/// The tokenizer's state: at the top level, or inside a quoted literal with
/// the text gathered so far and the pending UTF-16 code units.
pub enum ScanState {
    Top,
    InStr { acc: Seq<char>, buf: Seq<u16> },
}

/// What tokenization of the remaining input yields: the rest of the token
/// sequence (always ending in `Tail`), or a failure.
pub enum LexOut {
    Toks(Seq<TokenV>),
    Fail(LexFail),
}

pub open spec fn lex_cons(t: TokenV, o: LexOut) -> LexOut {
    match o {
        LexOut::Toks(ts) => LexOut::Toks(seq![t] + ts),
        LexOut::Fail(k) => LexOut::Fail(k),
    }
}

/// One-pass scan of the remaining input `s` in state `st`.
///
/// At the top level, whitespace is discarded, brackets become single-token
/// markers, a quote opens a literal, and anything else fails. Inside a
/// literal, a simple escape flushes the pending UTF-16 units and appends the
/// backslash and the letter verbatim; `\u` reads a window of up to four
/// characters, keeps only the hexadecimal digits (failing when none
/// remain), and pushes their value as a pending unit without flushing; an
/// ordinary character flushes and is appended; the closing quote flushes
/// and emits the literal. Input exhausted inside a literal yields no token
/// and no failure: the run ends with `Tail` alone.
pub open spec fn lex_step(s: Seq<char>, st: ScanState) -> LexOut
    decreases s.len(),
{
    match st {
        ScanState::Top => {
            if s.len() == 0 {
                LexOut::Toks(seq![TokenV::Tail])
            } else if is_space_char(s[0]) {
                lex_step(s.drop_first(), ScanState::Top)
            } else if s[0] == '[' {
                lex_cons(TokenV::LeftBracket, lex_step(s.drop_first(), ScanState::Top))
            } else if s[0] == ']' {
                lex_cons(TokenV::RightBracket, lex_step(s.drop_first(), ScanState::Top))
            } else if s[0] == '"' {
                lex_step(s.drop_first(), ScanState::InStr { acc: Seq::empty(), buf: Seq::empty() })
            } else {
                LexOut::Fail(LexFail::UnexpectedChar(s[0]))
            }
        },
        ScanState::InStr { acc, buf } => {
            if s.len() == 0 {
                LexOut::Toks(seq![TokenV::Tail])
            } else if s[0] == '\\' {
                if s.len() == 1 {
                    LexOut::Fail(LexFail::EscapeEnd)
                } else if is_simple_escape(s[1]) {
                    match utf16_decode(buf) {
                        Some(d) => lex_step(
                            s.skip(2),
                            ScanState::InStr { acc: acc + d + seq!['\\', s[1]], buf: Seq::empty() },
                        ),
                        None => LexOut::Fail(LexFail::Utf16),
                    }
                } else if s[1] == 'u' {
                    let take = if s.len() - 2 < 4 {
                        s.len() - 2
                    } else {
                        4
                    };
                    let digits = keep_hex(s.subrange(2, 2 + take));
                    if digits.len() == 0 {
                        LexOut::Fail(LexFail::UnicodeDigits)
                    } else {
                        lex_step(
                            s.skip(2 + take),
                            ScanState::InStr { acc, buf: buf.push(hex_num(digits) as u16) },
                        )
                    }
                } else {
                    LexOut::Fail(LexFail::UnexpectedEscape(s[1]))
                }
            } else if s[0] == '"' {
                match utf16_decode(buf) {
                    Some(d) => lex_cons(
                        TokenV::Str(acc + d),
                        lex_step(s.drop_first(), ScanState::Top),
                    ),
                    None => LexOut::Fail(LexFail::Utf16),
                }
            } else {
                match utf16_decode(buf) {
                    Some(d) => lex_step(
                        s.drop_first(),
                        ScanState::InStr { acc: acc + d + seq![s[0]], buf: Seq::empty() },
                    ),
                    None => LexOut::Fail(LexFail::Utf16),
                }
            }
        },
    }
}

/// What tokenizing a whole input yields.
pub open spec fn lex(s: Seq<char>) -> LexOut {
    lex_step(s, ScanState::Top)
}

/// A valid UTF-16 surrogate pair held in two pending units decodes to the
/// single supplementary character it denotes, so two consecutive `\uXXXX`
/// escapes that form such a pair yield one character.
pub proof fn lemma_surrogate_pair_decodes(hi: u16, lo: u16)
    requires
        is_high_surrogate(hi),
        is_low_surrogate(lo),
    ensures
        utf16_decode(seq![hi, lo]) == Some(seq![(pair_scalar(hi, lo) as u32) as char]),
{
    let units = seq![hi, lo];
    assert(units.skip(2) =~= Seq::<u16>::empty());
    assert(utf16_decode(Seq::<u16>::empty()) == Some(Seq::<char>::empty()));
    assert(seq![(pair_scalar(hi, lo) as u32) as char] + Seq::<char>::empty() =~= seq![(pair_scalar(
        hi,
        lo,
    ) as u32) as char]);
}

/// A simple escape contributes the literal backslash and its letter to the
/// gathered text, never the control character the pair might denote.
pub proof fn lemma_simple_escape_verbatim(s: Seq<char>, e: char, acc: Seq<char>)
    requires
        s.len() >= 2,
        s[0] == '\\',
        s[1] == e,
        is_simple_escape(e),
    ensures
        lex_step(s, ScanState::InStr { acc, buf: Seq::empty() }) == lex_step(
            s.skip(2),
            ScanState::InStr { acc: acc + seq!['\\', e], buf: Seq::empty() },
        ),
{
    assert(utf16_decode(Seq::<u16>::empty()) == Some(Seq::<char>::empty()));
    assert(acc + Seq::<char>::empty() + seq!['\\', e] =~= acc + seq!['\\', e]);
}

/// A failure of the tokenizer, carrying its message.
#[derive(Debug)]
pub struct LexerError {
    pub msg: String,
}

impl LexerError {
    fn new(msg: &str) -> (e: LexerError)
        ensures
            e.msg@ == msg@,
    {
        LexerError { msg: msg.to_owned() }
    }
}

/// Relies on `char::from_u32`: returns `Some` exactly when the value is a
/// Unicode scalar value, and the character then has that value.
#[verifier::external_body]
fn char_from_u32(u: u32) -> (r: Option<char>)
    ensures
        r matches Some(c) ==> c as u32 == u,
        vstd::utf8::is_scalar(u) <==> r is Some,
{
    char::from_u32(u)
}

/// Value of the collected hexadecimal digits of one `\u` window.
fn hex_to_u16(digits: &Vec<char>) -> (v: u16)
    requires
        forall|i: int| 0 <= i < digits@.len() ==> is_hex_digit(#[trigger] digits@[i]),
        digits@.len() <= 4,
    ensures
        v as int == hex_num(digits@),
{
    let n = digits.len();
    let mut v: u16 = 0;
    let mut k: usize = 0;
    proof {
        assert(digits@.subrange(0, 0) =~= Seq::<char>::empty());
        assert(sixteen_pow(0) == 1);
        assert(sixteen_pow(1) == 16);
        assert(sixteen_pow(2) == 256);
        assert(sixteen_pow(3) == 4096);
        assert(sixteen_pow(4) == 65536);
    }
    while k < n
        invariant
            k <= n,
            n == digits@.len(),
            n <= 4,
            forall|i: int| 0 <= i < digits@.len() ==> is_hex_digit(#[trigger] digits@[i]),
            v as int == hex_num(digits@.subrange(0, k as int)),
            (v as int) < sixteen_pow(k as nat),
            sixteen_pow(0) == 1 && sixteen_pow(1) == 16 && sixteen_pow(2) == 256 && sixteen_pow(3)
                == 4096 && sixteen_pow(4) == 65536,
        decreases n - k,
    {
        let c = digits[k];
        let u = c as u32;
        let d: u16 = if 0x30 <= u && u <= 0x39 {
            (u - 0x30) as u16
        } else if 0x41 <= u && u <= 0x46 {
            (u - 0x41 + 10) as u16
        } else {
            (u - 0x61 + 10) as u16
        };
        proof {
            assert(d as int == hex_digit_val(c));
            assert(sixteen_pow((k + 1) as nat) == 16 * sixteen_pow(k as nat));
            let pre = digits@.subrange(0, k as int + 1);
            assert(pre.drop_last() =~= digits@.subrange(0, k as int));
            assert(pre.last() == c);
        }
        v = v * 16 + d;
        k = k + 1;
    }
    proof {
        assert(digits@.subrange(0, n as int) =~= digits@);
    }
    v
}

/// The tokenizer: a cursor over the characters of the input.
pub struct Lexer {
    chars: Vec<char>,
    pos: usize,
}

impl Lexer {
    pub closed spec fn wf(&self) -> bool {
        self.pos <= self.chars@.len()
    }

    /// The characters not yet consumed.
    pub closed spec fn remaining(&self) -> Seq<char> {
        self.chars@.skip(self.pos as int)
    }

    /// Takes the input text and returns a tokenizer over all of it.
    pub fn new(input: &str) -> (l: Lexer)
        ensures
            l.wf(),
            l.remaining() == input@,
    {
        let n = input.unicode_len();
        let mut v: Vec<char> = Vec::new();
        let mut i: usize = 0;
        while i < n
            invariant
                i <= n,
                n == input@.len(),
                v@ == input@.subrange(0, i as int),
            decreases n - i,
        {
            let c = input.get_char(i);
            v.push(c);
            proof {
                assert(v@ =~= input@.subrange(0, i as int + 1));
            }
            i = i + 1;
        }
        let l = Lexer { chars: v, pos: 0 };
        proof {
            assert(l.remaining() =~= input@);
        }
        l
    }

    /// Flushes the pending UTF-16 units into the gathered text: decodes them
    /// and appends the characters, then empties the buffer. On a malformed
    /// sequence it fails and leaves both the text and the buffer untouched.
    fn push_utf16(result: &mut String, utf16: &mut Vec<u16>) -> (r: Result<(), LexerError>)
        ensures
            match r {
                Ok(_) => {
                    &&& utf16_decode(old(utf16)@) matches Some(d) && final(result)@ == old(result)@
                        + d
                    &&& final(utf16)@ == Seq::<u16>::empty()
                },
                Err(e) => {
                    &&& utf16_decode(old(utf16)@) is None
                    &&& *final(result) == *old(result)
                    &&& *final(utf16) == *old(utf16)
                    &&& e.msg@ == lex_fail_msg(LexFail::Utf16)
                },
            },
    {
        let ghost whole: Seq<u16> = utf16@;
        let mut out = String::new();
        let mut i: usize = 0;
        proof {
            assert(whole.skip(0) =~= whole);
        }
        loop
            invariant
                i <= utf16@.len(),
                utf16@ == whole,
                whole == old(utf16)@,
                *result == *old(result),
                *utf16 == *old(utf16),
                utf16_decode(whole) == (match utf16_decode(whole.skip(i as int)) {
                    Some(t) => Some(out@ + t),
                    None => None::<Seq<char>>,
                }),
            decreases utf16@.len() - i,
        {
            if i >= utf16.len() {
                proof {
                    assert(whole.skip(i as int) =~= Seq::<u16>::empty());
                    assert(utf16_decode(Seq::<u16>::empty()) == Some(Seq::<char>::empty()));
                    assert(out@ + Seq::<char>::empty() =~= out@);
                }
                result.append(out.as_str());
                utf16.clear();
                return Ok(());
            }
            let u = utf16[i];
            let ghost rest = whole.skip(i as int);
            if !(0xD800 <= u && u <= 0xDFFF) {
                let c = match char_from_u32(u as u32) {
                    Some(c) => c,
                    None => {
                        // unreachable: a unit outside the surrogate range is a scalar
                        proof {
                            assert(vstd::utf8::is_scalar(u as u32));
                        }
                        return Err(LexerError::new("error: invalid utf-16: lone surrogate found"));
                    },
                };
                let ghost out0 = out@;
                push_char(&mut out, c);
                proof {
                    assert(rest.drop_first() =~= whole.skip(i as int + 1));
                    vstd::utf8::char_u32_cast(c, u as u32);
                    assert(seq![c] =~= seq![(rest[0] as u32) as char]);
                    match utf16_decode(whole.skip(i as int + 1)) {
                        Some(t) => {
                            assert(out0 + (seq![c] + t) =~= (out0 + seq![c]) + t);
                        },
                        None => {},
                    }
                    assert(out@ =~= out0 + seq![c]);
                }
                i = i + 1;
            } else if 0xD800 <= u && u <= 0xDBFF && i + 1 < utf16.len() && 0xDC00 <= utf16[i + 1]
                && utf16[i + 1] <= 0xDFFF {
                let lo = utf16[i + 1];
                let cp: u32 = 0x10000 + ((u - 0xD800) as u32) * 0x400 + ((lo - 0xDC00) as u32);
                proof {
                    assert(cp as int == pair_scalar(u, lo));
                    assert(vstd::utf8::is_scalar(cp));
                }
                let c = match char_from_u32(cp) {
                    Some(c) => c,
                    None => {
                        return Err(LexerError::new("error: invalid utf-16: lone surrogate found"));
                    },
                };
                let ghost out0 = out@;
                push_char(&mut out, c);
                proof {
                    assert(rest.skip(2) =~= whole.skip(i as int + 2));
                    assert(rest[0] == u && rest[1] == lo);
                    vstd::utf8::char_u32_cast(c, cp);
                    assert(seq![c] =~= seq![(pair_scalar(rest[0], rest[1]) as u32) as char]);
                    match utf16_decode(whole.skip(i as int + 2)) {
                        Some(t) => {
                            assert(out0 + (seq![c] + t) =~= (out0 + seq![c]) + t);
                        },
                        None => {},
                    }
                    assert(out@ =~= out0 + seq![c]);
                }
                i = i + 2;
            } else {
                proof {
                    assert(rest[0] == whole[i as int]);
                    assert(rest.len() == whole.len() - i);
                    if 0xD800 <= u && u <= 0xDBFF && i + 1 < whole.len() {
                        assert(rest[1] == whole[i as int + 1]);
                    }
                    assert(utf16_decode(rest) is None);
                }
                return Err(LexerError::new("error: invalid utf-16: lone surrogate found"));
            }
        }
    }

    /// Reads the window of a `\u` escape: up to four characters, as far as
    /// the input reaches, keeping only the hexadecimal digits.
    fn read_hex_window(&mut self) -> (hexs: Vec<char>)
        requires
            old(self).wf(),
        ensures
            final(self).wf(),
            final(self).chars == old(self).chars,
            ({
                let w = old(self).remaining();
                let take = if w.len() < 4 {
                    w.len() as int
                } else {
                    4
                };
                &&& final(self).remaining() == w.skip(take)
                &&& hexs@ == keep_hex(w.subrange(0, take))
                &&& hexs@.len() <= 4
            }),
    {
        let ghost w = self.remaining();
        let mut hexs: Vec<char> = Vec::new();
        let mut j: usize = 0;
        proof {
            assert(w.subrange(0, 0) =~= Seq::<char>::empty());
        }
        loop
            invariant
                j <= 4,
                j <= w.len(),
                self.wf(),
                self.chars == old(self).chars,
                w == old(self).remaining(),
                self.pos == old(self).pos + j,
                hexs@ == keep_hex(w.subrange(0, j as int)),
                hexs@.len() <= j,
            decreases 4 - j,
        {
            if j >= 4 || self.pos >= self.chars.len() {
                proof {
                    let take = if w.len() < 4 {
                        w.len() as int
                    } else {
                        4
                    };
                    assert(j == take);
                    assert(self.remaining() =~= w.skip(take));
                }
                return hexs;
            }
            let c = self.chars[self.pos];
            self.pos = self.pos + 1;
            proof {
                assert(w[j as int] == c);
                let pre = w.subrange(0, j as int + 1);
                assert(pre.drop_last() =~= w.subrange(0, j as int));
                assert(pre.last() == c);
            }
            if is_hex_digit_char(c) {
                hexs.push(c);
            }
            j = j + 1;
        }
    }

    /// Scans a quoted literal, the opening quote already consumed: decodes
    /// `\u` escapes (gathered as pending UTF-16 units), keeps simple escapes
    /// verbatim, and ends at the closing quote. An unterminated literal
    /// yields no token.
    fn parse_string_token(&mut self) -> (r: Result<Option<Token>, LexerError>)
        requires
            old(self).wf(),
        ensures
            final(self).wf(),
            final(self).chars == old(self).chars,
            final(self).pos >= old(self).pos,
            match r {
                Ok(Some(t)) => {
                    &&& t matches Token::String(_)
                    &&& lex_step(
                        old(self).remaining(),
                        ScanState::InStr { acc: Seq::empty(), buf: Seq::empty() },
                    ) == lex_cons(t@, lex_step(final(self).remaining(), ScanState::Top))
                },
                Ok(None) => lex_step(
                    old(self).remaining(),
                    ScanState::InStr { acc: Seq::empty(), buf: Seq::empty() },
                ) == LexOut::Toks(seq![TokenV::Tail]),
                Err(e) => lex_step(
                    old(self).remaining(),
                    ScanState::InStr { acc: Seq::empty(), buf: Seq::empty() },
                ) matches LexOut::Fail(k) && e.msg@ == lex_fail_msg(k),
            },
    {
        let mut result = String::new();
        let mut utf16: Vec<u16> = Vec::new();
        loop
            invariant
                self.wf(),
                self.chars == old(self).chars,
                self.pos >= old(self).pos,
                lex_step(
                    old(self).remaining(),
                    ScanState::InStr { acc: Seq::empty(), buf: Seq::empty() },
                ) == lex_step(
                    self.remaining(),
                    ScanState::InStr { acc: result@, buf: utf16@ },
                ),
            decreases self.chars@.len() - self.pos,
        {
            let ghost rem = self.remaining();
            if self.pos >= self.chars.len() {
                proof {
                    assert(rem.len() == 0);
                }
                return Ok(None);
            }
            let c1 = self.chars[self.pos];
            self.pos = self.pos + 1;
            proof {
                assert(rem[0] == c1);
                assert(rem.drop_first() =~= self.remaining());
            }
            if c1 == '\\' {
                if self.pos >= self.chars.len() {
                    proof {
                        assert(rem.len() == 1);
                    }
                    return Err(LexerError::new("error: a next char is expected"));
                }
                let c2 = self.chars[self.pos];
                self.pos = self.pos + 1;
                proof {
                    assert(rem[1] == c2);
                    assert(rem.skip(2) =~= self.remaining());
                }
                if is_simple_escape_char(c2) {
                    let ghost acc0 = result@;
                    let ghost buf0 = utf16@;
                    match Self::push_utf16(&mut result, &mut utf16) {
                        Ok(_) => {
                            push_char(&mut result, '\\');
                            push_char(&mut result, c2);
                            proof {
                                match utf16_decode(buf0) {
                                    Some(d) => {
                                        assert(result@ =~= acc0 + d + seq!['\\', c2]);
                                    },
                                    None => {},
                                }
                            }
                        },
                        Err(e) => {
                            return Err(e);
                        },
                    }
                } else if c2 == 'u' {
                    let ghost w = self.remaining();
                    let hexs = self.read_hex_window();
                    proof {
                        assert(rem.subrange(2, rem.len() as int) =~= w);
                        let take = if w.len() < 4 {
                            w.len() as int
                        } else {
                            4
                        };
                        assert(rem.subrange(2, 2 + take) =~= w.subrange(0, take));
                        assert(rem.skip(2 + take) =~= w.skip(take));
                        lemma_keep_hex_props(w.subrange(0, take));
                    }
                    if hexs.len() == 0 {
                        return Err(
                            LexerError::new(
                                "error: a unicode character is expected cannot parse integer from empty string",
                            ),
                        );
                    }
                    let v = hex_to_u16(&hexs);
                    proof {
                        lemma_hex_num_bound(hexs@);
                        assert(sixteen_pow(0) == 1);
                        assert(sixteen_pow(1) == 16);
                        assert(sixteen_pow(2) == 256);
                        assert(sixteen_pow(3) == 4096);
                        assert(sixteen_pow(4) == 65536);
                        assert(hex_num(hexs@) < 65536);
                    }
                    utf16.push(v);
                } else {
                    let mut msg = "error: an unexpected escaped char ".to_owned();
                    push_char(&mut msg, c2);
                    proof {
                        assert(msg@ =~= "error: an unexpected escaped char "@ + seq![c2]);
                    }
                    return Err(LexerError { msg });
                }
            } else if c1 == '"' {
                match Self::push_utf16(&mut result, &mut utf16) {
                    Ok(_) => {
                        let t = Token::String(result);
                        return Ok(Some(t));
                    },
                    Err(e) => {
                        return Err(e);
                    },
                }
            } else {
                let ghost acc0 = result@;
                let ghost buf0 = utf16@;
                match Self::push_utf16(&mut result, &mut utf16) {
                    Ok(_) => {
                        push_char(&mut result, c1);
                        proof {
                            match utf16_decode(buf0) {
                                Some(d) => {
                                    assert(result@ =~= acc0 + d + seq![c1]);
                                },
                                None => {},
                            }
                        }
                    },
                    Err(e) => {
                        return Err(e);
                    },
                }
            }
        }
    }

    /// Reads one token: whitespace comes back as `NewLine` (to be
    /// discarded), a quote starts a literal, end of input yields `None`.
    fn next_token(&mut self) -> (r: Result<Option<Token>, LexerError>)
        requires
            old(self).wf(),
        ensures
            final(self).wf(),
            final(self).chars == old(self).chars,
            match r {
                Ok(Some(t)) => {
                    &&& final(self).pos > old(self).pos
                    &&& !(t is Tail)
                    &&& (t is NewLine ==> lex_step(old(self).remaining(), ScanState::Top)
                        == lex_step(final(self).remaining(), ScanState::Top))
                    &&& (!(t is NewLine) ==> lex_step(old(self).remaining(), ScanState::Top)
                        == lex_cons(t@, lex_step(final(self).remaining(), ScanState::Top)))
                },
                Ok(None) => lex_step(old(self).remaining(), ScanState::Top) == LexOut::Toks(
                    seq![TokenV::Tail],
                ),
                Err(e) => lex_step(old(self).remaining(), ScanState::Top) matches LexOut::Fail(k)
                    && e.msg@ == lex_fail_msg(k),
            },
    {
        let ghost rem = self.remaining();
        if self.pos >= self.chars.len() {
            proof {
                assert(rem.len() == 0);
            }
            return Ok(None);
        }
        let c = self.chars[self.pos];
        proof {
            assert(rem[0] == c);
        }
        if is_space(c) {
            self.pos = self.pos + 1;
            proof {
                assert(rem.drop_first() =~= self.remaining());
            }
            return Ok(Some(Token::NewLine));
        }
        if c == '[' {
            self.pos = self.pos + 1;
            proof {
                assert(rem.drop_first() =~= self.remaining());
            }
            return Ok(Some(Token::LeftBracket));
        }
        if c == ']' {
            self.pos = self.pos + 1;
            proof {
                assert(rem.drop_first() =~= self.remaining());
            }
            return Ok(Some(Token::RightBracket));
        }
        if c == '"' {
            self.pos = self.pos + 1;
            proof {
                assert(rem.drop_first() =~= self.remaining());
            }
            return self.parse_string_token();
        }
        let mut msg = "error: an unexpected char ".to_owned();
        push_char(&mut msg, c);
        proof {
            assert(msg@ =~= "error: an unexpected char "@ + seq![c]);
        }
        Err(LexerError { msg })
    }

    /// Splits the whole remaining input into tokens, discards the whitespace
    /// tokens, and appends the `Tail` marker; or reports the first failure.
    pub fn tokenize(&mut self) -> (r: Result<Vec<Token>, LexerError>)
        requires
            old(self).wf(),
        ensures
            match r {
                Ok(tokens) => lex_step(old(self).remaining(), ScanState::Top) == LexOut::Toks(
                    token_views(tokens@),
                ),
                Err(e) => lex_step(old(self).remaining(), ScanState::Top) matches LexOut::Fail(k)
                    && e.msg@ == lex_fail_msg(k),
            },
    {
        let mut tokens: Vec<Token> = Vec::new();
        proof {
            assert(token_views(tokens@) =~= Seq::<TokenV>::empty());
        }
        loop
            invariant
                self.wf(),
                lex_step(old(self).remaining(), ScanState::Top) == lex_cons_seq(
                    token_views(tokens@),
                    lex_step(self.remaining(), ScanState::Top),
                ),
            decreases self.chars@.len() - self.pos,
        {
            let ghost vs = token_views(tokens@);
            let ghost mid = lex_step(self.remaining(), ScanState::Top);
            match self.next_token() {
                Ok(Some(t)) => {
                    match t {
                        Token::NewLine => {},
                        _ => {
                            proof {
                                lemma_cons_seq_push(vs, t@, lex_step(self.remaining(), ScanState::Top));
                                assert(token_views(tokens@.push(t)) =~= vs.push(t@));
                            }
                            tokens.push(t);
                        },
                    }
                },
                Ok(None) => {
                    proof {
                        lemma_cons_seq_push(vs, TokenV::Tail, LexOut::Toks(Seq::empty()));
                        lemma_cons_seq_toks(vs.push(TokenV::Tail), Seq::empty());
                        assert(vs.push(TokenV::Tail) + Seq::<TokenV>::empty() =~= vs.push(
                            TokenV::Tail,
                        ));
                        assert(token_views(tokens@.push(Token::Tail)) =~= vs.push(TokenV::Tail));
                        assert(lex_cons(TokenV::Tail, LexOut::Toks(Seq::empty())) == LexOut::Toks(
                            seq![TokenV::Tail],
                        ));
                    }
                    tokens.push(Token::Tail);
                    return Ok(tokens);
                },
                Err(e) => {
                    proof {
                        lemma_cons_seq_fail(vs, mid);
                    }
                    return Err(e);
                },
            }
        }
    }
}

/// Tokens already emitted, prefixed to what the rest of the scan yields.
pub open spec fn lex_cons_seq(ts: Seq<TokenV>, o: LexOut) -> LexOut
    decreases ts.len(),
{
    if ts.len() == 0 {
        o
    } else {
        lex_cons(ts[0], lex_cons_seq(ts.drop_first(), o))
    }
}

proof fn lemma_cons_seq_push(ts: Seq<TokenV>, t: TokenV, o: LexOut)
    ensures
        lex_cons_seq(ts.push(t), o) == lex_cons_seq(ts, lex_cons(t, o)),
    decreases ts.len(),
{
    if ts.len() == 0 {
        assert(ts.push(t).drop_first() =~= Seq::<TokenV>::empty());
        assert(ts.push(t)[0] == t);
    } else {
        assert(ts.push(t).drop_first() =~= ts.drop_first().push(t));
        assert(ts.push(t)[0] == ts[0]);
        lemma_cons_seq_push(ts.drop_first(), t, o);
    }
}

proof fn lemma_cons_seq_fail(ts: Seq<TokenV>, o: LexOut)
    requires
        o is Fail,
    ensures
        lex_cons_seq(ts, o) == o,
    decreases ts.len(),
{
    if ts.len() > 0 {
        lemma_cons_seq_fail(ts.drop_first(), o);
    }
}

proof fn lemma_cons_seq_toks(ts: Seq<TokenV>, rest: Seq<TokenV>)
    ensures
        lex_cons_seq(ts, LexOut::Toks(rest)) == LexOut::Toks(ts + rest),
    decreases ts.len(),
{
    if ts.len() == 0 {
        assert(ts + rest =~= rest);
    } else {
        lemma_cons_seq_toks(ts.drop_first(), rest);
        assert(seq![ts[0]] + (ts.drop_first() + rest) =~= ts + rest);
    }
}

} // verus!
