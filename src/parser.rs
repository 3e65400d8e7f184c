//! The pattern grammar: the declaration tree and a recursive-descent parser.
use vstd::prelude::*;
use crate::lexer::{lex, lex_spec, word_is, LexError, Token, TokenV, tokens_view};
pub use crate::values::{DType, Endianness};

verus! {

/// How many elements or repetitions a declaration takes.
#[derive(Debug, Clone)]
pub enum Count {
    /// A literal number.
    Number(u64),
    /// The first element of the array bound to this name.
    Identifier(String),
    /// As many as the source still holds.
    Infinite,
}

/// Model of a [`Count`].
pub enum CountV {
    Number(u64),
    Identifier(Seq<char>),
    Infinite,
}

impl View for Count {
    type V = CountV;

    open spec fn view(&self) -> CountV {
        match self {
            Count::Number(n) => CountV::Number(*n),
            Count::Identifier(s) => CountV::Identifier(s@),
            Count::Infinite => CountV::Infinite,
        }
    }
}

/// A declaration of a pattern.
#[derive(Debug)]
pub enum Expr {
    /// Read `count` scalars of type `dtype`, binding them to `identifier`.
    Primative { dtype: DType, count: Count, identifier: Option<String> },
    /// Apply the block again and again until the source is exhausted.
    TakeUntil(Vec<Expr>),
    /// Apply the block `count` times.
    TakeN { count: Count, exprs: Vec<Expr> },
    /// Apply the block once per element of the array bound to
    /// `iter_identifier`, with that element bound to `index_identifier`.
    TakeOver { iter_identifier: String, index_identifier: String, exprs: Vec<Expr> },
}

/// Model of an [`Expr`].
pub enum ExprV {
    Primative { dtype: DType, count: CountV, identifier: Option<Seq<char>> },
    TakeUntil(Seq<ExprV>),
    TakeN { count: CountV, exprs: Seq<ExprV> },
    TakeOver { iter_identifier: Seq<char>, index_identifier: Seq<char>, exprs: Seq<ExprV> },
}

/// Model of a name that may be absent.
pub open spec fn name_view(n: Option<String>) -> Option<Seq<char>> {
    match n {
        Some(s) => Some(s@),
        None => None,
    }
}

/// Model of a declaration.
pub open spec fn expr_view(e: Expr) -> ExprV
    decreases e,
{
    match e {
        Expr::Primative { dtype, count, identifier } => ExprV::Primative {
            dtype,
            count: count@,
            identifier: name_view(identifier),
        },
        Expr::TakeUntil(v) => ExprV::TakeUntil(exprs_view(v@)),
        Expr::TakeN { count, exprs } => ExprV::TakeN { count: count@, exprs: exprs_view(exprs@) },
        Expr::TakeOver { iter_identifier, index_identifier, exprs } => ExprV::TakeOver {
            iter_identifier: iter_identifier@,
            index_identifier: index_identifier@,
            exprs: exprs_view(exprs@),
        },
    }
}

/// Models of a sequence of declarations, in order.
pub open spec fn exprs_view(s: Seq<Expr>) -> Seq<ExprV>
    decreases s,
{
    if s.len() == 0 {
        Seq::empty()
    } else {
        exprs_view(s.drop_last()).push(expr_view(s.last()))
    }
}

impl View for Expr {
    type V = ExprV;

    open spec fn view(&self) -> ExprV {
        expr_view(*self)
    }
}

/// The models of a sequence of declarations are those of its elements.
pub proof fn lemma_exprs_view(s: Seq<Expr>)
    ensures
        exprs_view(s).len() == s.len(),
        forall|i: int| 0 <= i < s.len() ==> #[trigger] exprs_view(s)[i] == expr_view(s[i]),
    decreases s.len(),
{
    if s.len() > 0 {
        lemma_exprs_view(s.drop_last());
    }
}

/// The construct a parser expected where it failed.
#[derive(Debug, Clone, Copy, PartialEq, Eq, Structural)]
pub enum Expected {
    /// A type name or one of the repetition keywords.
    Declaration,
    /// A number, a name or `*`.
    Count,
    /// A name.
    Name,
    /// A name or `_`.
    Binding,
    /// One of the known type names.
    TypeName,
    LeftBrace,
    RightBrace,
}

/// The token sequence does not follow the grammar at `position`, where
/// `expected` was expected and `found` stands (`None` at the end).
#[derive(Debug)]
pub struct ParseError {
    pub position: usize,
    pub expected: Expected,
    pub found: Option<Token>,
}

/// Model of a [`ParseError`].
pub struct ParseErrorV {
    pub position: int,
    pub expected: Expected,
    pub found: Option<TokenV>,
}

impl View for ParseError {
    type V = ParseErrorV;

    open spec fn view(&self) -> ParseErrorV {
        ParseErrorV {
            position: self.position as int,
            expected: self.expected,
            found: match self.found {
                Some(t) => Some(t@),
                None => None,
            },
        }
    }
}

/// The error for expecting `x` at position `i` of `t`.
pub open spec fn perr(t: Seq<TokenV>, i: int, x: Expected) -> ParseErrorV {
    ParseErrorV {
        position: i,
        expected: x,
        found: if 0 <= i < t.len() {
            Some(t[i])
        } else {
            None
        },
    }
}

/// The spelling of a type name.
pub open spec fn dtype_name(d: DType) -> Seq<char> {
    match d {
        DType::U8 => "u8"@,
        DType::U16(Endianness::Little) => "u16le"@,
        DType::U16(Endianness::Big) => "u16be"@,
        DType::U32(Endianness::Little) => "u32le"@,
        DType::U32(Endianness::Big) => "u32be"@,
        DType::U64(Endianness::Little) => "u64le"@,
        DType::U64(Endianness::Big) => "u64be"@,
        DType::U128(Endianness::Little) => "u128le"@,
        DType::U128(Endianness::Big) => "u128be"@,
        DType::Char => "char"@,
    }
}

/// The type a type name spells, if any.
pub open spec fn dtype_of(s: Seq<char>) -> Option<DType> {
    if s == "u8"@ {
        Some(DType::U8)
    } else if s == "u16le"@ {
        Some(DType::U16(Endianness::Little))
    } else if s == "u16be"@ {
        Some(DType::U16(Endianness::Big))
    } else if s == "u32le"@ {
        Some(DType::U32(Endianness::Little))
    } else if s == "u32be"@ {
        Some(DType::U32(Endianness::Big))
    } else if s == "u64le"@ {
        Some(DType::U64(Endianness::Little))
    } else if s == "u64be"@ {
        Some(DType::U64(Endianness::Big))
    } else if s == "u128le"@ {
        Some(DType::U128(Endianness::Little))
    } else if s == "u128be"@ {
        Some(DType::U128(Endianness::Big))
    } else if s == "char"@ {
        Some(DType::Char)
    } else {
        None
    }
}

/// The token that writes a count.
pub open spec fn count_token(c: CountV) -> TokenV {
    match c {
        CountV::Number(n) => TokenV::Number(n),
        CountV::Identifier(s) => TokenV::Identifier(s),
        CountV::Infinite => TokenV::Wildcard,
    }
}

/// The token that writes a binding.
pub open spec fn binding_token(n: Option<Seq<char>>) -> TokenV {
    match n {
        Some(s) => TokenV::Identifier(s),
        None => TokenV::Placeholder,
    }
}

/// The tokens that write the declaration `e`.
pub open spec fn unparse(e: ExprV) -> Seq<TokenV>
    decreases e,
{
    match e {
        ExprV::Primative { dtype, count, identifier } => seq![
            TokenV::DType(dtype_name(dtype)),
            count_token(count),
            binding_token(identifier),
        ],
        ExprV::TakeUntil(body) => seq![TokenV::TakeUntil, TokenV::LeftBrace] + unparse_seq(body)
            + seq![TokenV::RightBrace],
        ExprV::TakeN { count, exprs } => seq![TokenV::TakeN, count_token(count), TokenV::LeftBrace]
            + unparse_seq(exprs) + seq![TokenV::RightBrace],
        ExprV::TakeOver { iter_identifier, index_identifier, exprs } => seq![
            TokenV::TakeOver,
            TokenV::Identifier(iter_identifier),
            TokenV::Identifier(index_identifier),
            TokenV::LeftBrace,
        ] + unparse_seq(exprs) + seq![TokenV::RightBrace],
    }
}

/// The tokens that write the declarations `s`, one after another.
pub open spec fn unparse_seq(s: Seq<ExprV>) -> Seq<TokenV>
    decreases s,
{
    if s.len() == 0 {
        Seq::empty()
    } else {
        unparse(s[0]) + unparse_seq(s.subrange(1, s.len() as int))
    }
}

/// The count written by the token at `i`: a number, a name, or `*` for an
/// unbounded count.
pub open spec fn parse_count(t: Seq<TokenV>, i: int) -> Result<CountV, ParseErrorV> {
    if 0 <= i < t.len() {
        match t[i] {
            TokenV::Number(n) => Ok(CountV::Number(n)),
            TokenV::Identifier(s) => Ok(CountV::Identifier(s)),
            TokenV::Wildcard => Ok(CountV::Infinite),
            _ => Err(perr(t, i, Expected::Count)),
        }
    } else {
        Err(perr(t, i, Expected::Count))
    }
}

/// The name written by the token at `i`.
pub open spec fn parse_name(t: Seq<TokenV>, i: int) -> Result<Seq<char>, ParseErrorV> {
    if 0 <= i < t.len() && t[i] is Identifier {
        Ok(t[i]->Identifier_0)
    } else {
        Err(perr(t, i, Expected::Name))
    }
}

/// The binding written by the token at `i`.
pub open spec fn parse_binding(t: Seq<TokenV>, i: int) -> Result<Option<Seq<char>>, ParseErrorV> {
    if 0 <= i < t.len() && t[i] is Identifier {
        Ok(Some(t[i]->Identifier_0))
    } else if 0 <= i < t.len() && t[i] is Placeholder {
        Ok(None)
    } else {
        Err(perr(t, i, Expected::Binding))
    }
}

/// `e` followed by the declarations of `r`, when `r` is a success.
pub open spec fn cons_decl(e: ExprV, r: Result<(Seq<ExprV>, int), ParseErrorV>) -> Result<
    (Seq<ExprV>, int),
    ParseErrorV,
> {
    match r {
        Ok((es, k)) => Ok((seq![e] + es, k)),
        Err(x) => Err(x),
    }
}

/// Parses the declaration that starts at `i`: the declaration and the
/// position after it.
pub open spec fn parse_decl(t: Seq<TokenV>, i: int) -> Result<(ExprV, int), ParseErrorV>
    decreases t.len() - i, 0int,
{
    if i < 0 || i >= t.len() {
        Err(perr(t, i, Expected::Declaration))
    } else {
        match t[i] {
            TokenV::DType(s) => match dtype_of(s) {
                None => Err(perr(t, i, Expected::TypeName)),
                Some(d) => match parse_count(t, i + 1) {
                    Err(x) => Err(x),
                    Ok(c) => match parse_binding(t, i + 2) {
                        Err(x) => Err(x),
                        Ok(b) => Ok((ExprV::Primative { dtype: d, count: c, identifier: b }, i + 3)),
                    },
                },
            },
            TokenV::TakeUntil => match parse_block(t, i + 1) {
                Err(x) => Err(x),
                Ok((body, k)) => Ok((ExprV::TakeUntil(body), k)),
            },
            TokenV::TakeN => match parse_count(t, i + 1) {
                Err(x) => Err(x),
                Ok(c) => match parse_block(t, i + 2) {
                    Err(x) => Err(x),
                    Ok((body, k)) => Ok((ExprV::TakeN { count: c, exprs: body }, k)),
                },
            },
            TokenV::TakeOver => match parse_name(t, i + 1) {
                Err(x) => Err(x),
                Ok(it) => match parse_name(t, i + 2) {
                    Err(x) => Err(x),
                    Ok(ix) => match parse_block(t, i + 3) {
                        Err(x) => Err(x),
                        Ok((body, k)) => Ok(
                            (
                                ExprV::TakeOver {
                                    iter_identifier: it,
                                    index_identifier: ix,
                                    exprs: body,
                                },
                                k,
                            ),
                        ),
                    },
                },
            },
            _ => Err(perr(t, i, Expected::Declaration)),
        }
    }
}

/// Parses a braced block that starts at `i`: its declarations and the
/// position after the closing brace.
pub open spec fn parse_block(t: Seq<TokenV>, i: int) -> Result<(Seq<ExprV>, int), ParseErrorV>
    decreases t.len() - i, 2int,
{
    if 0 <= i < t.len() && t[i] is LeftBrace {
        match parse_decls(t, i + 1, true) {
            Err(x) => Err(x),
            Ok((es, k)) => Ok((es, k + 1)),
        }
    } else {
        Err(perr(t, i, Expected::LeftBrace))
    }
}

/// Parses declarations from `i` on, up to a closing brace (left in place)
/// inside a block, or up to the end of the tokens outside one.
pub open spec fn parse_decls(t: Seq<TokenV>, i: int, in_block: bool) -> Result<
    (Seq<ExprV>, int),
    ParseErrorV,
>
    decreases t.len() - i, 1int,
{
    if i < 0 || i >= t.len() {
        if in_block {
            Err(perr(t, i, Expected::RightBrace))
        } else {
            Ok((Seq::empty(), i))
        }
    } else if t[i] is RightBrace {
        if in_block {
            Ok((Seq::empty(), i))
        } else {
            Err(perr(t, i, Expected::Declaration))
        }
    } else {
        match parse_decl(t, i) {
            Err(x) => Err(x),
            Ok((e, j)) => if j <= i || j > t.len() {
                Err(perr(t, i, Expected::Declaration))
            } else {
                cons_decl(e, parse_decls(t, j, in_block))
            },
        }
    }
}

/// The declarations that the tokens `t` spell.
pub open spec fn parse_spec(t: Seq<TokenV>) -> Result<Seq<ExprV>, ParseErrorV> {
    match parse_decls(t, 0, false) {
        Ok((es, _)) => Ok(es),
        Err(x) => Err(x),
    }
}

/// `prefix` followed by the declarations of `r`, when `r` is a success.
pub open spec fn prepend_decls(prefix: Seq<ExprV>, r: Result<(Seq<ExprV>, int), ParseErrorV>) -> Result<
    (Seq<ExprV>, int),
    ParseErrorV,
> {
    match r {
        Ok((es, k)) => Ok((prefix + es, k)),
        Err(x) => Err(x),
    }
}

/// Prefixing one declaration and then a sequence is prefixing the longer sequence.
proof fn lemma_prepend_decl(p: Seq<ExprV>, e: ExprV, r: Result<(Seq<ExprV>, int), ParseErrorV>)
    ensures
        prepend_decls(p, cons_decl(e, r)) == prepend_decls(p.push(e), r),
{
    if let Ok((es, k)) = r {
        assert(p + (seq![e] + es) =~= p.push(e) + es);
    }
}

/// Appending a declaration appends its model.
proof fn lemma_exprs_view_push(s: Seq<Expr>, e: Expr)
    ensures
        exprs_view(s.push(e)) == exprs_view(s).push(expr_view(e)),
{
    assert(s.push(e).drop_last() =~= s);
}

/// A copy of the token `t`.
fn copy_token(t: &Token) -> (r: Token)
    ensures
        r@ == t@,
{
    match t {
        Token::LeftBrace => Token::LeftBrace,
        Token::RightBrace => Token::RightBrace,
        Token::Number(n) => Token::Number(*n),
        Token::Wildcard => Token::Wildcard,
        Token::Identifier(s) => Token::Identifier(s.clone()),
        Token::Placeholder => Token::Placeholder,
        Token::TakeUntil => Token::TakeUntil,
        Token::TakeN => Token::TakeN,
        Token::TakeOver => Token::TakeOver,
        Token::DType(s) => Token::DType(s.clone()),
    }
}

/// The error for expecting `x` at position `i` of `t`.
fn error_at(t: &Vec<Token>, i: usize, x: Expected) -> (r: ParseError)
    ensures
        r@ == perr(tokens_view(t@), i as int, x),
{
    let found = if i < t.len() {
        Some(copy_token(&t[i]))
    } else {
        None
    };
    ParseError { position: i, expected: x, found }
}

/// The type that the type name `s` spells, if any.
fn dtype_from_name(s: &String) -> (r: Option<DType>)
    ensures
        r == dtype_of(s@),
{
    if word_is(s, "u8") {
        Some(DType::U8)
    } else if word_is(s, "u16le") {
        Some(DType::U16(Endianness::Little))
    } else if word_is(s, "u16be") {
        Some(DType::U16(Endianness::Big))
    } else if word_is(s, "u32le") {
        Some(DType::U32(Endianness::Little))
    } else if word_is(s, "u32be") {
        Some(DType::U32(Endianness::Big))
    } else if word_is(s, "u64le") {
        Some(DType::U64(Endianness::Little))
    } else if word_is(s, "u64be") {
        Some(DType::U64(Endianness::Big))
    } else if word_is(s, "u128le") {
        Some(DType::U128(Endianness::Little))
    } else if word_is(s, "u128be") {
        Some(DType::U128(Endianness::Big))
    } else if word_is(s, "char") {
        Some(DType::Char)
    } else {
        None
    }
}

fn parse_count_at(t: &Vec<Token>, i: usize) -> (r: Result<Count, ParseError>)
    ensures
        match parse_count(tokens_view(t@), i as int) {
            Ok(c) => r matches Ok(x) && x@ == c,
            Err(e) => r matches Err(x) && x@ == e,
        },
{
    if i < t.len() {
        match &t[i] {
            Token::Number(n) => Ok(Count::Number(*n)),
            Token::Identifier(s) => Ok(Count::Identifier(s.clone())),
            Token::Wildcard => Ok(Count::Infinite),
            _ => Err(error_at(t, i, Expected::Count)),
        }
    } else {
        Err(error_at(t, i, Expected::Count))
    }
}

fn parse_name_at(t: &Vec<Token>, i: usize) -> (r: Result<String, ParseError>)
    ensures
        match parse_name(tokens_view(t@), i as int) {
            Ok(n) => r matches Ok(x) && x@ == n,
            Err(e) => r matches Err(x) && x@ == e,
        },
{
    if i < t.len() {
        match &t[i] {
            Token::Identifier(s) => Ok(s.clone()),
            _ => Err(error_at(t, i, Expected::Name)),
        }
    } else {
        Err(error_at(t, i, Expected::Name))
    }
}

fn parse_binding_at(t: &Vec<Token>, i: usize) -> (r: Result<Option<String>, ParseError>)
    ensures
        match parse_binding(tokens_view(t@), i as int) {
            Ok(n) => r matches Ok(x) && name_view(x) == n,
            Err(e) => r matches Err(x) && x@ == e,
        },
{
    if i < t.len() {
        match &t[i] {
            Token::Identifier(s) => Ok(Some(s.clone())),
            Token::Placeholder => Ok(None),
            _ => Err(error_at(t, i, Expected::Binding)),
        }
    } else {
        Err(error_at(t, i, Expected::Binding))
    }
}

fn parse_decl_at(t: &Vec<Token>, i: usize) -> (r: Result<(Expr, usize), ParseError>)
    ensures
        match parse_decl(tokens_view(t@), i as int) {
            Ok((e, j)) => r matches Ok((x, k)) && x@ == e && k == j && i < k <= t@.len(),
            Err(e) => r matches Err(x) && x@ == e,
        },
    decreases t@.len() - i, 0int,
{
    let ghost tv = tokens_view(t@);
    if i >= t.len() {
        return Err(error_at(t, i, Expected::Declaration));
    }
    match &t[i] {
        Token::DType(s) => {
            let d = match dtype_from_name(s) {
                None => {
                    return Err(error_at(t, i, Expected::TypeName));
                },
                Some(d) => d,
            };
            let c = match parse_count_at(t, i + 1) {
                Err(x) => {
                    return Err(x);
                },
                Ok(c) => c,
            };
            let b = match parse_binding_at(t, i + 2) {
                Err(x) => {
                    return Err(x);
                },
                Ok(b) => b,
            };
            Ok((Expr::Primative { dtype: d, count: c, identifier: b }, i + 3))
        },
        Token::TakeUntil => match parse_block_at(t, i + 1) {
            Err(x) => Err(x),
            Ok((body, k)) => Ok((Expr::TakeUntil(body), k)),
        },
        Token::TakeN => {
            let c = match parse_count_at(t, i + 1) {
                Err(x) => {
                    return Err(x);
                },
                Ok(c) => c,
            };
            match parse_block_at(t, i + 2) {
                Err(x) => Err(x),
                Ok((body, k)) => Ok((Expr::TakeN { count: c, exprs: body }, k)),
            }
        },
        Token::TakeOver => {
            let it = match parse_name_at(t, i + 1) {
                Err(x) => {
                    return Err(x);
                },
                Ok(n) => n,
            };
            let ix = match parse_name_at(t, i + 2) {
                Err(x) => {
                    return Err(x);
                },
                Ok(n) => n,
            };
            match parse_block_at(t, i + 3) {
                Err(x) => Err(x),
                Ok((body, k)) => Ok(
                    (Expr::TakeOver { iter_identifier: it, index_identifier: ix, exprs: body }, k),
                ),
            }
        },
        _ => Err(error_at(t, i, Expected::Declaration)),
    }
}

fn parse_block_at(t: &Vec<Token>, i: usize) -> (r: Result<(Vec<Expr>, usize), ParseError>)
    requires
        i <= t@.len(),
    ensures
        match parse_block(tokens_view(t@), i as int) {
            Ok((es, j)) => r matches Ok((v, k)) && exprs_view(v@) == es && k == j && i < k
                <= t@.len(),
            Err(e) => r matches Err(x) && x@ == e,
        },
    decreases t@.len() - i, 2int,
{
    if i < t.len() {
        if let Token::LeftBrace = &t[i] {
            return match parse_decls_at(t, i + 1, true) {
                Err(x) => Err(x),
                Ok((es, k)) => Ok((es, k + 1)),
            };
        }
    }
    Err(error_at(t, i, Expected::LeftBrace))
}

fn parse_decls_at(t: &Vec<Token>, i: usize, in_block: bool) -> (r: Result<
    (Vec<Expr>, usize),
    ParseError,
>)
    requires
        i <= t@.len(),
    ensures
        match parse_decls(tokens_view(t@), i as int, in_block) {
            Ok((es, j)) => r matches Ok((v, k)) && exprs_view(v@) == es && k == j && i <= k
                <= t@.len() && (in_block ==> k < t@.len()),
            Err(e) => r matches Err(x) && x@ == e,
        },
    decreases t@.len() - i, 1int,
{
    let ghost tv = tokens_view(t@);
    let mut out: Vec<Expr> = Vec::new();
    let mut j: usize = i;
    assert(prepend_decls(exprs_view(out@), parse_decls(tv, i as int, in_block)) == parse_decls(
        tv,
        i as int,
        in_block,
    )) by {
        assert(exprs_view(out@) =~= Seq::<ExprV>::empty());
        if let Ok((es, k)) = parse_decls(tv, i as int, in_block) {
            assert(Seq::<ExprV>::empty() + es =~= es);
        }
    }
    while j < t.len() && !(t[j] matches Token::RightBrace)
        invariant
            tv == tokens_view(t@),
            i <= j <= t@.len(),
            parse_decls(tv, i as int, in_block) == prepend_decls(
                exprs_view(out@),
                parse_decls(tv, j as int, in_block),
            ),
        decreases t@.len() - j,
    {
        match parse_decl_at(t, j) {
            Err(x) => {
                return Err(x);
            },
            Ok((e, k)) => {
                proof {
                    lemma_prepend_decl(exprs_view(out@), e@, parse_decls(tv, k as int, in_block));
                    lemma_exprs_view_push(out@, e);
                }
                out.push(e);
                j = k;
            },
        }
    }
    assert(exprs_view(out@) + Seq::<ExprV>::empty() =~= exprs_view(out@));
    if j >= t.len() {
        if in_block {
            Err(error_at(t, j, Expected::RightBrace))
        } else {
            Ok((out, j))
        }
    } else if in_block {
        Ok((out, j))
    } else {
        Err(error_at(t, j, Expected::Declaration))
    }
}

/// A sequence of declarations is written one declaration after the other.
proof fn lemma_unparse_seq_cons(e: ExprV, es: Seq<ExprV>)
    ensures
        unparse_seq(seq![e] + es) == unparse(e) + unparse_seq(es),
{
    assert((seq![e] + es).subrange(1, (seq![e] + es).len() as int) =~= es);
}

/// What the parser reads as a declaration at `i` are the tokens that write
/// it, and it reads at least one token.
proof fn lemma_decl_sound(t: Seq<TokenV>, i: int)
    requires
        parse_decl(t, i) is Ok,
    ensures
        ({
            let (e, j) = parse_decl(t, i)->Ok_0;
            0 <= i < j <= t.len() && t.subrange(i, j) == unparse(e)
        }),
    decreases t.len() - i, 0int,
{
    let (e, j) = parse_decl(t, i)->Ok_0;
    match t[i] {
        TokenV::DType(s) => {
            assert(t.subrange(i, j) =~= unparse(e));
        },
        TokenV::TakeUntil => {
            lemma_block_sound(t, i + 1);
            let (body, k) = parse_block(t, i + 1)->Ok_0;
            assert(t.subrange(i, j) =~= seq![t[i]] + t.subrange(i + 1, k));
        },
        TokenV::TakeN => {
            lemma_block_sound(t, i + 2);
            let (body, k) = parse_block(t, i + 2)->Ok_0;
            assert(t.subrange(i, j) =~= seq![t[i], t[i + 1]] + t.subrange(i + 2, k));
        },
        TokenV::TakeOver => {
            lemma_block_sound(t, i + 3);
            let (body, k) = parse_block(t, i + 3)->Ok_0;
            assert(t.subrange(i, j) =~= seq![t[i], t[i + 1], t[i + 2]] + t.subrange(i + 3, k));
        },
        _ => {},
    }
}

/// What the parser reads as a block is written by the tokens it spans.
proof fn lemma_block_sound(t: Seq<TokenV>, i: int)
    requires
        parse_block(t, i) is Ok,
    ensures
        ({
            let (es, j) = parse_block(t, i)->Ok_0;
            0 <= i < j <= t.len() && t.subrange(i, j) == seq![TokenV::LeftBrace] + unparse_seq(es)
                + seq![TokenV::RightBrace]
        }),
    decreases t.len() - i, 2int,
{
    lemma_decls_sound(t, i + 1, true);
    let (es, k) = parse_decls(t, i + 1, true)->Ok_0;
    assert(t.subrange(i, k + 1) =~= seq![t[i]] + t.subrange(i + 1, k) + seq![t[k]]);
}

/// What the parser reads as declarations is written by the tokens it spans,
/// which end at a closing brace inside a block and at the end outside one.
proof fn lemma_decls_sound(t: Seq<TokenV>, i: int, in_block: bool)
    requires
        0 <= i <= t.len(),
        parse_decls(t, i, in_block) is Ok,
    ensures
        ({
            let (es, k) = parse_decls(t, i, in_block)->Ok_0;
            &&& i <= k <= t.len()
            &&& t.subrange(i, k) == unparse_seq(es)
            &&& in_block ==> k < t.len() && t[k] is RightBrace
            &&& !in_block ==> k == t.len()
        }),
    decreases t.len() - i, 1int,
{
    if i < t.len() && !(t[i] is RightBrace) {
        lemma_decl_sound(t, i);
        let (e, j) = parse_decl(t, i)->Ok_0;
        lemma_decls_sound(t, j, in_block);
        let (es, k) = parse_decls(t, j, in_block)->Ok_0;
        lemma_unparse_seq_cons(e, es);
        assert(t.subrange(i, k) =~= t.subrange(i, j) + t.subrange(j, k));
    } else {
        assert(t.subrange(i, i) =~= Seq::<TokenV>::empty());
    }
}

/// Each type name spells the type it names.
proof fn lemma_dtype_name(d: DType)
    ensures
        dtype_of(dtype_name(d)) == Some(d),
{
    reveal_strlit("u8");
    reveal_strlit("u16le");
    reveal_strlit("u16be");
    reveal_strlit("u32le");
    reveal_strlit("u32be");
    reveal_strlit("u64le");
    reveal_strlit("u64be");
    reveal_strlit("u128le");
    reveal_strlit("u128be");
    reveal_strlit("char");
    assert("u8"@.len() == 2 && "char"@.len() == 4 && "u128le"@.len() == 6 && "u128be"@.len() == 6);
    assert("u16le"@.len() == 5 && "u16be"@.len() == 5 && "u32le"@.len() == 5 && "u32be"@.len()
        == 5 && "u64le"@.len() == 5 && "u64be"@.len() == 5);
    assert("u16le"@[1] == '1' && "u16be"@[1] == '1' && "u32le"@[1] == '3' && "u32be"@[1] == '3'
        && "u64le"@[1] == '6' && "u64be"@[1] == '6');
    assert("u16le"@[3] == 'l' && "u16be"@[3] == 'b' && "u32le"@[3] == 'l' && "u32be"@[3] == 'b'
        && "u64le"@[3] == 'l' && "u64be"@[3] == 'b');
    assert("u128le"@[4] == 'l' && "u128be"@[4] == 'b');
}

/// The tokens that write a braced block.
pub open spec fn block_tokens(body: Seq<ExprV>) -> Seq<TokenV> {
    seq![TokenV::LeftBrace] + unparse_seq(body) + seq![TokenV::RightBrace]
}

/// A declaration is written with at least three tokens, the first of which
/// is no closing brace, and a repetition ends with its block.
proof fn lemma_unparse_shape(e: ExprV)
    ensures
        unparse(e).len() >= 3,
        !(unparse(e)[0] is RightBrace),
        e is TakeUntil ==> unparse(e) == seq![TokenV::TakeUntil] + block_tokens(e->TakeUntil_0),
        e is TakeN ==> unparse(e) == seq![TokenV::TakeN, count_token(e->TakeN_count)]
            + block_tokens(e->TakeN_exprs),
        e is TakeOver ==> unparse(e) == seq![
            TokenV::TakeOver,
            TokenV::Identifier(e->iter_identifier),
            TokenV::Identifier(e->index_identifier),
        ] + block_tokens(e->TakeOver_exprs),
{
    match e {
        ExprV::Primative { .. } => {},
        ExprV::TakeUntil(body) => {
            assert(unparse(e) =~= seq![TokenV::TakeUntil] + block_tokens(body));
        },
        ExprV::TakeN { count, exprs } => {
            assert(unparse(e) =~= seq![TokenV::TakeN, count_token(count)] + block_tokens(exprs));
        },
        ExprV::TakeOver { iter_identifier, index_identifier, exprs } => {
            assert(unparse(e) =~= seq![
                TokenV::TakeOver,
                TokenV::Identifier(iter_identifier),
                TokenV::Identifier(index_identifier),
            ] + block_tokens(exprs));
        },
    }
}

/// A window of the tokens that holds `u` holds each part of `u`.
proof fn lemma_window(t: Seq<TokenV>, i: int, u: Seq<TokenV>, a: int, b: int)
    requires
        0 <= i,
        i + u.len() <= t.len(),
        t.subrange(i, i + u.len()) == u,
        0 <= a <= b <= u.len(),
    ensures
        t.subrange(i + a, i + b) == u.subrange(a, b),
{
    assert forall|k: int| 0 <= k < b - a implies t.subrange(i + a, i + b)[k] == u.subrange(
        a,
        b,
    )[k] by {
        assert(t.subrange(i, i + u.len())[a + k] == t[i + a + k]);
    }
    assert(t.subrange(i + a, i + b) =~= u.subrange(a, b));
}

/// The parser reads the tokens that write `e` back as `e`.
proof fn lemma_decl_complete(t: Seq<TokenV>, i: int, e: ExprV)
    requires
        0 <= i,
        i + unparse(e).len() <= t.len(),
        t.subrange(i, i + unparse(e).len()) == unparse(e),
    ensures
        parse_decl(t, i) == Ok::<(ExprV, int), ParseErrorV>((e, i + unparse(e).len())),
    decreases e,
{
    let u = unparse(e);
    lemma_unparse_shape(e);
    assert(t.subrange(i, i + u.len())[0] == t[i]);
    assert(t.subrange(i, i + u.len())[1] == t[i + 1]);
    assert(t.subrange(i, i + u.len())[2] == t[i + 2]);
    match e {
        ExprV::Primative { dtype, count, identifier } => {
            lemma_dtype_name(dtype);
        },
        ExprV::TakeUntil(body) => {
            lemma_window(t, i, u, 1, u.len() as int);
            assert(u.subrange(1, u.len() as int) =~= block_tokens(body));
            lemma_block_complete(t, i + 1, body);
        },
        ExprV::TakeN { count, exprs } => {
            lemma_window(t, i, u, 2, u.len() as int);
            assert(u.subrange(2, u.len() as int) =~= block_tokens(exprs));
            lemma_block_complete(t, i + 2, exprs);
        },
        ExprV::TakeOver { iter_identifier, index_identifier, exprs } => {
            lemma_window(t, i, u, 3, u.len() as int);
            assert(u.subrange(3, u.len() as int) =~= block_tokens(exprs));
            lemma_block_complete(t, i + 3, exprs);
        },
    }
}

/// The parser reads the tokens that write a braced block back.
proof fn lemma_block_complete(t: Seq<TokenV>, i: int, body: Seq<ExprV>)
    requires
        0 <= i,
        i + block_tokens(body).len() <= t.len(),
        t.subrange(i, i + block_tokens(body).len()) == block_tokens(body),
    ensures
        parse_block(t, i) == Ok::<(Seq<ExprV>, int), ParseErrorV>(
            (body, i + block_tokens(body).len()),
        ),
    decreases body, 1int,
{
    let u = block_tokens(body);
    let n = unparse_seq(body).len() as int;
    assert(t.subrange(i, i + u.len())[0] == t[i]);
    assert(t.subrange(i, i + u.len())[n + 1] == t[i + n + 1]);
    lemma_window(t, i, u, 1, n + 1);
    assert(u.subrange(1, n + 1) =~= unparse_seq(body));
    lemma_decls_complete(t, i + 1, body, true);
}

/// The parser reads the tokens that write `es` back as `es`, up to a closing
/// brace inside a block or up to the end outside one.
proof fn lemma_decls_complete(t: Seq<TokenV>, i: int, es: Seq<ExprV>, in_block: bool)
    requires
        0 <= i,
        i + unparse_seq(es).len() <= t.len(),
        t.subrange(i, i + unparse_seq(es).len()) == unparse_seq(es),
        in_block ==> i + unparse_seq(es).len() < t.len() && t[i + unparse_seq(es).len()] is RightBrace,
        !in_block ==> i + unparse_seq(es).len() == t.len(),
    ensures
        parse_decls(t, i, in_block) == Ok::<(Seq<ExprV>, int), ParseErrorV>(
            (es, i + unparse_seq(es).len()),
        ),
    decreases es, 0int,
{
    if es.len() > 0 {
        let e = es[0];
        let rest = es.subrange(1, es.len() as int);
        assert(es =~= seq![e] + rest);
        lemma_unparse_seq_cons(e, rest);
        lemma_unparse_shape(e);
        let u = unparse_seq(es);
        let a = unparse(e).len() as int;
        let b = unparse_seq(rest).len() as int;
        lemma_window(t, i, u, 0, a);
        assert(u.subrange(0, a) =~= unparse(e));
        lemma_window(t, i, u, a, a + b);
        assert(u.subrange(a, a + b) =~= unparse_seq(rest));
        assert(t.subrange(i, i + u.len())[0] == t[i]);
        lemma_decl_complete(t, i, e);
        lemma_decls_complete(t, i + a, rest, in_block);
        assert(u.len() == a + b);
        assert(t[i] == unparse(e)[0]);
        assert(parse_decl(t, i) == Ok::<(ExprV, int), ParseErrorV>((e, i + a)));
        assert(parse_decls(t, i + a, in_block) == Ok::<(Seq<ExprV>, int), ParseErrorV>(
            (rest, i + a + b),
        ));
    } else {
        assert(es =~= Seq::<ExprV>::empty());
    }
}

/// Parses a token sequence into the declarations of a pattern.
///
/// The parse succeeds exactly when the tokens write some sequence of
/// declarations, and then it gives that sequence. Otherwise the error names
/// the first position where the grammar cannot go on.
pub fn parse_pattern(tokens: &Vec<Token>) -> (r: Result<Vec<Expr>, ParseError>)
    ensures
        r matches Ok(p) ==> unparse_seq(exprs_view(p@)) == tokens_view(tokens@),
        r is Err <==> !exists|p: Seq<ExprV>| unparse_seq(p) == tokens_view(tokens@),
        match parse_spec(tokens_view(tokens@)) {
            Ok(es) => r matches Ok(p) && exprs_view(p@) == es,
            Err(x) => r matches Err(e) && e@ == x,
        },
{
    let ghost tv = tokens_view(tokens@);
    let r = parse_decls_at(tokens, 0, false);
    proof {
        if parse_decls(tv, 0, false) is Ok {
            lemma_decls_sound(tv, 0, false);
            assert(tv.subrange(0, tv.len() as int) =~= tv);
        }
        if exists|p: Seq<ExprV>| unparse_seq(p) == tv {
            let p = choose|p: Seq<ExprV>| unparse_seq(p) == tv;
            assert(tv.subrange(0, unparse_seq(p).len() as int) =~= tv);
            lemma_decls_complete(tv, 0, p, false);
        }
    }
    match r {
        Ok((es, _)) => Ok(es),
        Err(e) => Err(e),
    }
}

/// Why pattern text could not be compiled.
#[derive(Debug)]
pub enum CompileError {
    Lex(LexError),
    Parse(ParseError),
}

/// Lexes and parses pattern text.
pub fn compile_pattern(text: &str) -> (r: Result<Vec<Expr>, CompileError>)
    ensures
        match lex_spec(text) {
            Err(e) => r matches Err(CompileError::Lex(x)) && x == e,
            Ok(ts) => match parse_spec(ts) {
                Ok(es) => r matches Ok(p) && exprs_view(p@) == es && unparse_seq(es) == ts,
                Err(x) => r matches Err(CompileError::Parse(y)) && y@ == x && !exists|
                    p: Seq<ExprV>,
                | unparse_seq(p) == ts,
            },
        },
{
    match lex(text) {
        Err(e) => Err(CompileError::Lex(e)),
        Ok(tokens) => match parse_pattern(&tokens) {
            Ok(p) => Ok(p),
            Err(e) => Err(CompileError::Parse(e)),
        },
    }
}

} // verus!
