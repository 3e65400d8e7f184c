//! The pattern lexer: text to tokens.
use vstd::prelude::*;
use vstd::string::StringSliceAdditionalSpecFns;

verus! {

/// A unit of pattern text.
#[derive(Debug, Clone, PartialEq)]
pub enum Token {
    LeftBrace,
    RightBrace,
    Number(u64),
    Wildcard,
    Identifier(String),
    /// `_`, the anonymous binding.
    Placeholder,
    TakeUntil,
    TakeN,
    TakeOver,
    /// A type name, by its spelling.
    DType(String),
}

/// Model of a [`Token`].
pub enum TokenV {
    LeftBrace,
    RightBrace,
    Number(u64),
    Wildcard,
    Identifier(Seq<char>),
    Placeholder,
    TakeUntil,
    TakeN,
    TakeOver,
    DType(Seq<char>),
}

impl View for Token {
    type V = TokenV;

    open spec fn view(&self) -> TokenV {
        match self {
            Token::LeftBrace => TokenV::LeftBrace,
            Token::RightBrace => TokenV::RightBrace,
            Token::Number(n) => TokenV::Number(*n),
            Token::Wildcard => TokenV::Wildcard,
            Token::Identifier(s) => TokenV::Identifier(s@),
            Token::Placeholder => TokenV::Placeholder,
            Token::TakeUntil => TokenV::TakeUntil,
            Token::TakeN => TokenV::TakeN,
            Token::TakeOver => TokenV::TakeOver,
            Token::DType(s) => TokenV::DType(s@),
        }
    }
}

/// Models of a sequence of tokens.
pub open spec fn tokens_view(s: Seq<Token>) -> Seq<TokenV> {
    s.map_values(|t: Token| t@)
}

/// Bytes `start..end` of the pattern text hold no token.
#[derive(Debug, Clone, Copy, PartialEq, Eq, Structural)]
pub struct LexError {
    pub start: usize,
    pub end: usize,
}

pub open spec fn is_space(b: u8) -> bool {
    b == 0x20 || b == 0x09 || b == 0x0a || b == 0x0c || b == 0x0d
}

pub open spec fn is_digit(b: u8) -> bool {
    0x30 <= b <= 0x39
}

pub open spec fn is_letter(b: u8) -> bool {
    (0x41 <= b <= 0x5a) || (0x61 <= b <= 0x7a)
}

/// A byte that may continue an identifier: a letter, a digit or `_`.
pub open spec fn is_word(b: u8) -> bool {
    is_letter(b) || is_digit(b) || b == 0x5f
}

/// End of the run of digits that starts at `i`.
pub open spec fn digit_run_end(s: Seq<u8>, i: int) -> int
    decreases s.len() - i,
{
    if 0 <= i < s.len() && is_digit(s[i]) {
        digit_run_end(s, i + 1)
    } else {
        i
    }
}

/// End of the run of word bytes that starts at `i`.
pub open spec fn word_run_end(s: Seq<u8>, i: int) -> int
    decreases s.len() - i,
{
    if 0 <= i < s.len() && is_word(s[i]) {
        word_run_end(s, i + 1)
    } else {
        i
    }
}

/// A run of digits stays within the text, and stops at a non-digit or the end.
pub proof fn lemma_digit_run_end(s: Seq<u8>, i: int)
    requires
        0 <= i <= s.len(),
    ensures
        i <= digit_run_end(s, i) <= s.len(),
        forall|k: int| i <= k < digit_run_end(s, i) ==> is_digit(#[trigger] s[k]),
        digit_run_end(s, i) < s.len() ==> !is_digit(s[digit_run_end(s, i)]),
    decreases s.len() - i,
{
    if i < s.len() && is_digit(s[i]) {
        lemma_digit_run_end(s, i + 1);
    }
}

/// A run of word bytes stays within the text, and stops at another byte or the end.
pub proof fn lemma_word_run_end(s: Seq<u8>, i: int)
    requires
        0 <= i <= s.len(),
    ensures
        i <= word_run_end(s, i) <= s.len(),
        forall|k: int| i <= k < word_run_end(s, i) ==> is_word(#[trigger] s[k]),
        word_run_end(s, i) < s.len() ==> !is_word(s[word_run_end(s, i)]),
    decreases s.len() - i,
{
    if i < s.len() && is_word(s[i]) {
        lemma_word_run_end(s, i + 1);
    }
}

/// The number that the decimal digits `s` spell.
pub open spec fn digits_value(s: Seq<u8>) -> nat
    decreases s.len(),
{
    if s.len() == 0 {
        0
    } else {
        (digits_value(s.drop_last()) * 10 + (s.last() - 0x30)) as nat
    }
}

/// The characters that the ASCII bytes `s` stand for.
pub open spec fn ascii_chars(s: Seq<u8>) -> Seq<char> {
    s.map_values(|b: u8| b as char)
}

/// Whether `w` is one of the type names.
pub open spec fn is_dtype_name(w: Seq<char>) -> bool {
    ||| w == "u8"@
    ||| w == "u16le"@
    ||| w == "u16be"@
    ||| w == "u32le"@
    ||| w == "u32be"@
    ||| w == "u64le"@
    ||| w == "u64be"@
    ||| w == "u128le"@
    ||| w == "u128be"@
    ||| w == "char"@
}

/// The token that the word `w` is: a keyword, a type name, or else an
/// identifier.
pub open spec fn word_token(w: Seq<char>) -> TokenV {
    if w == "TAKE_UNTIL"@ {
        TokenV::TakeUntil
    } else if w == "TAKE_N"@ {
        TokenV::TakeN
    } else if w == "TAKE_OVER"@ {
        TokenV::TakeOver
    } else if is_dtype_name(w) {
        TokenV::DType(w)
    } else {
        TokenV::Identifier(w)
    }
}

/// `t` followed by the tokens of `r`, when `r` is a success.
pub open spec fn cons_token(t: TokenV, r: Result<Seq<TokenV>, LexError>) -> Result<
    Seq<TokenV>,
    LexError,
> {
    match r {
        Ok(ts) => Ok(seq![t] + ts),
        Err(e) => Err(e),
    }
}

/// The tokens of the text bytes `s` from position `i` on. Whitespace is
/// skipped; digits and words are taken as long as they run.
pub open spec fn lex_from(s: Seq<u8>, i: int) -> Result<Seq<TokenV>, LexError>
    decreases s.len() - i,
{
    if i < 0 || i >= s.len() {
        Ok(Seq::empty())
    } else {
        let c = s[i];
        if is_space(c) {
            lex_from(s, i + 1)
        } else if c == 0x7b {
            cons_token(TokenV::LeftBrace, lex_from(s, i + 1))
        } else if c == 0x7d {
            cons_token(TokenV::RightBrace, lex_from(s, i + 1))
        } else if c == 0x2a {
            cons_token(TokenV::Wildcard, lex_from(s, i + 1))
        } else if c == 0x5f {
            cons_token(TokenV::Placeholder, lex_from(s, i + 1))
        } else if is_digit(c) {
            let j = digit_run_end(s, i);
            proof {
                lemma_digit_run_end(s, i);
            }
            let v = digits_value(s.subrange(i, j));
            if v > u64::MAX {
                Err(LexError { start: i as usize, end: j as usize })
            } else {
                cons_token(TokenV::Number(v as u64), lex_from(s, j))
            }
        } else if is_letter(c) {
            let j = word_run_end(s, i);
            proof {
                lemma_word_run_end(s, i);
            }
            cons_token(word_token(ascii_chars(s.subrange(i, j))), lex_from(s, j))
        } else {
            Err(LexError { start: i as usize, end: (i + 1) as usize })
        }
    }
}

/// The tokens of the pattern text `text`.
pub open spec fn lex_spec(text: &str) -> Result<Seq<TokenV>, LexError> {
    lex_from(text.spec_bytes(), 0)
}

/// `prefix` followed by the tokens of `r`, when `r` is a success.
pub open spec fn prepend_tokens(prefix: Seq<TokenV>, r: Result<Seq<TokenV>, LexError>) -> Result<
    Seq<TokenV>,
    LexError,
> {
    match r {
        Ok(ts) => Ok(prefix + ts),
        Err(e) => Err(e),
    }
}

/// Prefixing one token and then a sequence is prefixing the longer sequence.
proof fn lemma_prepend_token(p: Seq<TokenV>, t: TokenV, r: Result<Seq<TokenV>, LexError>)
    ensures
        prepend_tokens(p, cons_token(t, r)) == prepend_tokens(p.push(t), r),
{
    if let Ok(ts) = r {
        assert(p + (seq![t] + ts) =~= p.push(t) + ts);
    }
}

/// Relies on `String::push`: appends the character `c` to the end of `s`.
#[verifier::external_body]
fn push_char(s: &mut String, c: char)
    ensures
        final(s)@ == old(s)@.push(c),
{
    s.push(c);
}

/// The text of the ASCII bytes `b[start..end]`.
fn ascii_string(b: &[u8], start: usize, end: usize) -> (r: String)
    requires
        start <= end <= b@.len(),
    ensures
        r@ == ascii_chars(b@.subrange(start as int, end as int)),
{
    let mut s = String::new();
    let mut k: usize = start;
    while k < end
        invariant
            start <= k <= end,
            end <= b@.len(),
            s@ == ascii_chars(b@.subrange(start as int, k as int)),
        decreases end - k,
    {
        let c = b[k] as char;
        push_char(&mut s, c);
        k = k + 1;
        assert(s@ =~= ascii_chars(b@.subrange(start as int, k as int)));
    }
    s
}

/// Whether `w` equals the text `lit`.
pub(crate) fn word_is(w: &String, lit: &str) -> (r: bool)
    ensures
        r == (w@ == lit@),
{
    let l = lit.to_owned();
    *w == l
}

/// Whether `w` is one of the type names.
fn is_dtype_word(w: &String) -> (r: bool)
    ensures
        r == is_dtype_name(w@),
{
    word_is(w, "u8") || word_is(w, "u16le") || word_is(w, "u16be") || word_is(w, "u32le")
        || word_is(w, "u32be") || word_is(w, "u64le") || word_is(w, "u64be") || word_is(
        w,
        "u128le",
    ) || word_is(w, "u128be") || word_is(w, "char")
}

/// The token that the word `w` is.
fn word_to_token(w: String) -> (t: Token)
    ensures
        t@ == word_token(w@),
{
    if word_is(&w, "TAKE_UNTIL") {
        Token::TakeUntil
    } else if word_is(&w, "TAKE_N") {
        Token::TakeN
    } else if word_is(&w, "TAKE_OVER") {
        Token::TakeOver
    } else if is_dtype_word(&w) {
        Token::DType(w)
    } else {
        Token::Identifier(w)
    }
}

/// Splits pattern text into tokens.
///
/// Whitespace is skipped. A run of digits is a number; a letter followed by
/// letters, digits and `_` is a keyword, a type name or an identifier. A
/// character that starts no token, and a number above `u64::MAX`, are
/// errors that give the offending bytes.
pub fn lex(source: &str) -> (r: Result<Vec<Token>, LexError>)
    ensures
        match lex_spec(source) {
            Ok(ts) => r matches Ok(v) && tokens_view(v@) == ts,
            Err(e) => r == Err::<Vec<Token>, LexError>(e),
        },
{
    let b = source.as_bytes();
    let len = b.len();
    let mut out: Vec<Token> = Vec::new();
    let mut i: usize = 0;
    assert(prepend_tokens(tokens_view(out@), lex_from(b@, 0)) == lex_from(b@, 0)) by {
        if let Ok(ts) = lex_from(b@, 0) {
            assert(tokens_view(out@) + ts =~= ts);
        }
    }
    while i < len
        invariant
            len == b@.len(),
            b@ == source.spec_bytes(),
            i <= len,
            lex_from(b@, 0) == prepend_tokens(tokens_view(out@), lex_from(b@, i as int)),
        decreases len - i,
    {
        let c = b[i];
        let ghost p = tokens_view(out@);
        if c == 0x20 || c == 0x09 || c == 0x0a || c == 0x0c || c == 0x0d {
            i = i + 1;
        } else if c == 0x7b || c == 0x7d || c == 0x2a || c == 0x5f {
            let t = if c == 0x7b {
                Token::LeftBrace
            } else if c == 0x7d {
                Token::RightBrace
            } else if c == 0x2a {
                Token::Wildcard
            } else {
                Token::Placeholder
            };
            proof {
                lemma_prepend_token(p, t@, lex_from(b@, i + 1));
                assert(tokens_view(out@.push(t)) =~= p.push(t@));
            }
            out.push(t);
            i = i + 1;
        } else if 0x30 <= c && c <= 0x39 {
            let start = i;
            let mut v: u128 = 0;
            let mut too_big = false;
            proof {
                lemma_digit_run_end(b@, start as int);
                assert(b@.subrange(start as int, start as int) =~= Seq::<u8>::empty());
            }
            while i < len && 0x30 <= b[i] && b[i] <= 0x39
                invariant
                    len == b@.len(),
                    start <= i <= len,
                    digit_run_end(b@, start as int) == digit_run_end(b@, i as int),
                    !too_big ==> v as nat == digits_value(b@.subrange(start as int, i as int))
                        && v <= u64::MAX,
                    too_big ==> digits_value(b@.subrange(start as int, i as int)) > u64::MAX,
                decreases len - i,
            {
                let d = (b[i] - 0x30) as u128;
                proof {
                    let sub = b@.subrange(start as int, i + 1);
                    assert(sub.drop_last() =~= b@.subrange(start as int, i as int));
                    let x = digits_value(b@.subrange(start as int, i as int));
                    assert(x * 10 + d >= x) by (nonlinear_arith)
                        requires
                            x >= 0,
                            d >= 0,
                    ;
                }
                if !too_big {
                    let nv = v * 10 + d;
                    if nv > u64::MAX as u128 {
                        too_big = true;
                    } else {
                        v = nv;
                    }
                }
                i = i + 1;
            }
            if too_big {
                return Err(LexError { start, end: i });
            }
            let t = Token::Number(v as u64);
            proof {
                lemma_prepend_token(p, t@, lex_from(b@, i as int));
                assert(tokens_view(out@.push(t)) =~= p.push(t@));
            }
            out.push(t);
        } else if (0x41 <= c && c <= 0x5a) || (0x61 <= c && c <= 0x7a) {
            let start = i;
            proof {
                lemma_word_run_end(b@, start as int);
            }
            while i < len && ((0x41 <= b[i] && b[i] <= 0x5a) || (0x61 <= b[i] && b[i] <= 0x7a) || (
            0x30 <= b[i] && b[i] <= 0x39) || b[i] == 0x5f)
                invariant
                    len == b@.len(),
                    start <= i <= len,
                    word_run_end(b@, start as int) == word_run_end(b@, i as int),
                decreases len - i,
            {
                i = i + 1;
            }
            let w = ascii_string(b, start, i);
            let t = word_to_token(w);
            proof {
                lemma_prepend_token(p, t@, lex_from(b@, i as int));
                assert(tokens_view(out@.push(t)) =~= p.push(t@));
            }
            out.push(t);
        } else {
            return Err(LexError { start: i, end: i + 1 });
        }
    }
    assert(tokens_view(out@) + Seq::<TokenV>::empty() =~= tokens_view(out@));
    Ok(out)
}

} // verus!
