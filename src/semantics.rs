//! What evaluating a pattern against a byte source means, as spec functions
//! over the models of declarations, arrays and environments.
use vstd::prelude::*;
use crate::parser::{CountV, ExprV};
use crate::stack::{bind, lookup};
use crate::values::{array_len, decode_array, width, ArrayV, DType, DataV};

verus! {

/// Model of an environment: its layers, innermost last.
pub type Env = Seq<Map<Seq<char>, ArrayV>>;

/// Why an evaluation failed.
#[derive(Debug)]
pub enum EvalError {
    /// A count or an iterable names nothing that is in scope.
    UnboundName(String),
    /// A count or an iterable names an array of 16-byte scalars.
    UnsupportedWidthAsCount(String),
    /// A count or an iterable names an array of characters, or a count names
    /// an empty array.
    NotACount(String),
    /// A primitive needs `needed` bytes and only `available` are left.
    SourceExhausted { needed: u128, available: usize },
    /// Repetition `index` of a repeated block failed.
    RepetitionFailure { index: u64, cause: Box<EvalError> },
    /// Declaration `index` of a block failed.
    DeclarationFailure { index: usize, cause: Box<EvalError> },
    /// A block repeated until the end of the source consumed no byte, so it
    /// would repeat forever.
    NoProgress,
}

/// Model of an [`EvalError`].
pub enum EvalErrorV {
    UnboundName(Seq<char>),
    UnsupportedWidthAsCount(Seq<char>),
    NotACount(Seq<char>),
    SourceExhausted { needed: nat, available: nat },
    RepetitionFailure { index: nat, cause: Box<EvalErrorV> },
    DeclarationFailure { index: nat, cause: Box<EvalErrorV> },
    NoProgress,
}

/// Model of an evaluation error.
pub open spec fn error_view(e: EvalError) -> EvalErrorV
    decreases e,
{
    match e {
        EvalError::UnboundName(s) => EvalErrorV::UnboundName(s@),
        EvalError::UnsupportedWidthAsCount(s) => EvalErrorV::UnsupportedWidthAsCount(s@),
        EvalError::NotACount(s) => EvalErrorV::NotACount(s@),
        EvalError::SourceExhausted { needed, available } => EvalErrorV::SourceExhausted {
            needed: needed as nat,
            available: available as nat,
        },
        EvalError::RepetitionFailure { index, cause } => EvalErrorV::RepetitionFailure {
            index: index as nat,
            cause: Box::new(error_view(*cause)),
        },
        EvalError::DeclarationFailure { index, cause } => EvalErrorV::DeclarationFailure {
            index: index as nat,
            cause: Box::new(error_view(*cause)),
        },
        EvalError::NoProgress => EvalErrorV::NoProgress,
    }
}

impl View for EvalError {
    type V = EvalErrorV;

    open spec fn view(&self) -> EvalErrorV {
        error_view(*self)
    }
}

/// The count that the array `a`, bound to `name`, stands for: its first
/// element. Arrays of 16-byte scalars and of characters, and empty arrays,
/// stand for no count.
pub open spec fn count_of(a: ArrayV, name: Seq<char>) -> Result<nat, EvalErrorV> {
    match a {
        ArrayV::U8(s) => if s.len() > 0 { Ok(s[0] as nat) } else { Err(EvalErrorV::NotACount(name)) },
        ArrayV::U16(s) => if s.len() > 0 { Ok(s[0] as nat) } else { Err(EvalErrorV::NotACount(name)) },
        ArrayV::U32(s) => if s.len() > 0 { Ok(s[0] as nat) } else { Err(EvalErrorV::NotACount(name)) },
        ArrayV::U64(s) => if s.len() > 0 { Ok(s[0] as nat) } else { Err(EvalErrorV::NotACount(name)) },
        ArrayV::U128(_) => Err(EvalErrorV::UnsupportedWidthAsCount(name)),
        ArrayV::Char(_) => Err(EvalErrorV::NotACount(name)),
    }
}

/// What `c` resolves to in `env`: `Some(n)` for a bounded count, `None` for
/// an unbounded one.
pub open spec fn resolve_count(c: CountV, env: Env) -> Result<Option<nat>, EvalErrorV> {
    match c {
        CountV::Number(n) => Ok(Some(n as nat)),
        CountV::Identifier(name) => match lookup(env, name) {
            None => Err(EvalErrorV::UnboundName(name)),
            Some(a) => match count_of(a, name) {
                Ok(n) => Ok(Some(n)),
                Err(e) => Err(e),
            },
        },
        CountV::Infinite => Ok(None),
    }
}

/// The elements of the array `a`, bound to `name`, as the values a loop
/// variable takes. Arrays of 16-byte scalars and of characters are refused.
pub open spec fn items_of(a: ArrayV, name: Seq<char>) -> Result<Seq<u64>, EvalErrorV> {
    match a {
        ArrayV::U8(s) => Ok(s.map_values(|x: u8| x as u64)),
        ArrayV::U16(s) => Ok(s.map_values(|x: u16| x as u64)),
        ArrayV::U32(s) => Ok(s.map_values(|x: u32| x as u64)),
        ArrayV::U64(s) => Ok(s),
        ArrayV::U128(_) => Err(EvalErrorV::UnsupportedWidthAsCount(name)),
        ArrayV::Char(_) => Err(EvalErrorV::NotACount(name)),
    }
}

/// How many bytes a primitive of type `d` reads when its count resolved to
/// `n` and `avail` bytes are left: `n * width(d)` for a bounded count, and
/// for an unbounded one as many whole scalars as are left.
pub open spec fn bytes_wanted(d: DType, n: Option<nat>, avail: nat) -> nat {
    match n {
        Some(k) => k * width(d),
        None => (avail / width(d)) * width(d),
    }
}

/// Evaluates a primitive declaration: the decoded array, the rest of the
/// input, and the environment with the array bound when a name is given.
pub open spec fn eval_primitive(
    d: DType,
    c: CountV,
    id: Option<Seq<char>>,
    env: Env,
    input: Seq<u8>,
) -> Result<(DataV, Seq<u8>, Env), EvalErrorV> {
    match resolve_count(c, env) {
        Err(e) => Err(e),
        Ok(n) => {
            let take = bytes_wanted(d, n, input.len());
            if take > input.len() {
                Err(EvalErrorV::SourceExhausted { needed: take, available: input.len() })
            } else {
                let arr = decode_array(input.take(take as int), d);
                let env2 = match id {
                    Some(name) => bind(env, name, arr),
                    None => env,
                };
                Ok((DataV::Primative(arr), input.skip(take as int), env2))
            }
        },
    }
}

/// Evaluates a block: a fresh layer is pushed, the declarations run in order,
/// and the result is a group with one child per declaration. The layer is
/// gone afterwards, so the caller's environment is unchanged.
pub open spec fn eval_block(es: Seq<ExprV>, env: Env, input: Seq<u8>) -> Result<
    (DataV, Seq<u8>),
    EvalErrorV,
>
    decreases es, 0int, es.len() + 1,
{
    match eval_seq(es, 0, env.push(Map::empty()), input) {
        Ok((ds, rest)) => Ok((DataV::List(ds), rest)),
        Err(e) => Err(e),
    }
}

/// Evaluates the declarations of `es` from the `k`-th on.
pub open spec fn eval_seq(es: Seq<ExprV>, k: int, env: Env, input: Seq<u8>) -> Result<
    (Seq<DataV>, Seq<u8>),
    EvalErrorV,
>
    decreases es, 0int, es.len() - k,
{
    if k < 0 || k >= es.len() {
        Ok((Seq::empty(), input))
    } else {
        match eval_decl(es[k], env, input) {
            Err(e) => Err(EvalErrorV::DeclarationFailure { index: k as nat, cause: Box::new(e) }),
            Ok((d, rest, env2)) => match eval_seq(es, k + 1, env2, rest) {
                Ok((ds, rest2)) => Ok((seq![d] + ds, rest2)),
                Err(e) => Err(e),
            },
        }
    }
}

/// Evaluates one declaration: its value, the rest of the input and the
/// environment after it.
pub open spec fn eval_decl(e: ExprV, env: Env, input: Seq<u8>) -> Result<
    (DataV, Seq<u8>, Env),
    EvalErrorV,
>
    decreases e, 0int, 0int,
{
    match e {
        ExprV::Primative { dtype, count, identifier } => eval_primitive(
            dtype,
            count,
            identifier,
            env,
            input,
        ),
        ExprV::TakeUntil(body) => match eval_until(body, env, input) {
            Ok((ds, rest)) => Ok((DataV::List(ds), rest, env)),
            Err(e) => Err(e),
        },
        ExprV::TakeN { count, exprs } => match resolve_count(count, env) {
            Err(e) => Err(e),
            Ok(None) => match eval_until(exprs, env, input) {
                Ok((ds, rest)) => Ok((DataV::List(ds), rest, env)),
                Err(e) => Err(e),
            },
            Ok(Some(n)) => match eval_n(exprs, 0, n, env, input) {
                Ok((ds, rest)) => Ok((DataV::List(ds), rest, env)),
                Err(e) => Err(e),
            },
        },
        ExprV::TakeOver { iter_identifier, index_identifier, exprs } => match lookup(
            env,
            iter_identifier,
        ) {
            None => Err(EvalErrorV::UnboundName(iter_identifier)),
            Some(a) => match items_of(a, iter_identifier) {
                Err(e) => Err(e),
                Ok(items) => match eval_over(exprs, index_identifier, items, 0, env, input) {
                    Ok((ds, rest)) => Ok((DataV::List(ds), rest, env)),
                    Err(e) => Err(e),
                },
            },
        },
    }
}

/// Applies `body` as long as the input is not exhausted, checking before
/// each repetition. A repetition that consumes nothing is an error.
pub open spec fn eval_until(body: Seq<ExprV>, env: Env, input: Seq<u8>) -> Result<
    (Seq<DataV>, Seq<u8>),
    EvalErrorV,
>
    decreases body, input.len() + 1, 0int,
{
    if input.len() == 0 {
        Ok((Seq::empty(), input))
    } else {
        match eval_block(body, env, input) {
            Err(e) => Err(e),
            Ok((d, rest)) => if rest.len() >= input.len() {
                Err(EvalErrorV::NoProgress)
            } else {
                match eval_until(body, env, rest) {
                    Ok((ds, rest2)) => Ok((seq![d] + ds, rest2)),
                    Err(e) => Err(e),
                }
            },
        }
    }
}

/// Applies `body` for repetitions `i` up to `n`, exclusive.
pub open spec fn eval_n(body: Seq<ExprV>, i: nat, n: nat, env: Env, input: Seq<u8>) -> Result<
    (Seq<DataV>, Seq<u8>),
    EvalErrorV,
>
    decreases body, n - i + 1, 0int,
{
    if i >= n {
        Ok((Seq::empty(), input))
    } else {
        match eval_block(body, env, input) {
            Err(e) => Err(EvalErrorV::RepetitionFailure { index: i, cause: Box::new(e) }),
            Ok((d, rest)) => match eval_n(body, i + 1, n, env, rest) {
                Ok((ds, rest2)) => Ok((seq![d] + ds, rest2)),
                Err(e) => Err(e),
            },
        }
    }
}

/// The layer that holds a loop variable `name` with value `v`.
pub open spec fn loop_layer(name: Seq<char>, v: u64) -> Map<Seq<char>, ArrayV> {
    Map::empty().insert(name, ArrayV::U64(seq![v]))
}

/// Applies `body` once for each of `items` from the `i`-th on, with the item
/// bound to `name` in a layer of its own outside the body's layer.
pub open spec fn eval_over(
    body: Seq<ExprV>,
    name: Seq<char>,
    items: Seq<u64>,
    i: int,
    env: Env,
    input: Seq<u8>,
) -> Result<(Seq<DataV>, Seq<u8>), EvalErrorV>
    decreases body, items.len() - i + 1, 0int,
{
    if i < 0 || i >= items.len() {
        Ok((Seq::empty(), input))
    } else {
        match eval_block(body, env.push(loop_layer(name, items[i])), input) {
            Err(e) => Err(EvalErrorV::RepetitionFailure { index: i as nat, cause: Box::new(e) }),
            Ok((d, rest)) => match eval_over(body, name, items, i + 1, env, rest) {
                Ok((ds, rest2)) => Ok((seq![d] + ds, rest2)),
                Err(e) => Err(e),
            },
        }
    }
}

/// Evaluates a whole pattern: a block in an environment with no layers.
pub open spec fn eval_pattern(es: Seq<ExprV>, input: Seq<u8>) -> Result<(DataV, Seq<u8>), EvalErrorV> {
    eval_block(es, Seq::empty(), input)
}

/// The number of scalars that `bytes` decode to is the number of whole
/// chunks of `width(d)` bytes in them.
pub proof fn lemma_decode_len(bytes: Seq<u8>, d: DType)
    ensures
        array_len(decode_array(bytes, d)) == bytes.len() / width(d),
{
}

/// Every array that a primitive declaration decodes took `count * width`
/// bytes from the front of the source: `n * width` for a count that
/// resolved to `n`, and for an unbounded count as many whole scalars as were
/// left, the remainder (shorter than one scalar) staying in the source.
pub proof fn lemma_width_invariant(
    d: DType,
    c: CountV,
    id: Option<Seq<char>>,
    env: Env,
    input: Seq<u8>,
)
    requires
        eval_primitive(d, c, id, env, input) is Ok,
    ensures
        ({
            let (v, rest, _) = eval_primitive(d, c, id, env, input)->Ok_0;
            let used = input.len() - rest.len();
            &&& v is Primative
            &&& used == array_len(v->Primative_0) * width(d)
            &&& rest == input.skip(used)
            &&& resolve_count(c, env) matches Ok(Some(n)) ==> array_len(v->Primative_0) == n
            &&& resolve_count(c, env) is Ok && resolve_count(c, env)->Ok_0 is None ==> array_len(
                v->Primative_0,
            ) == input.len() / width(d) && rest.len() == input.len() % width(d)
        }),
{
    let w = width(d);
    let n = resolve_count(c, env)->Ok_0;
    let take = bytes_wanted(d, n, input.len());
    lemma_decode_len(input.take(take as int), d);
    assert(w > 0);
    match n {
        Some(k) => {
            assert((k * w) / w == k) by (nonlinear_arith)
                requires
                    w > 0,
            ;
        },
        None => {
            let l = input.len();
            assert(((l / w) * w) / w == l / w) by (nonlinear_arith)
                requires
                    w > 0,
            ;
            assert(l - (l / w) * w == l % w) by (nonlinear_arith)
                requires
                    w > 0,
            ;
        },
    }
}

/// A repetition leaves the environment as it found it, so a name bound in
/// its body is not visible after it. A layer pushed for a nested block hides
/// nothing bound outside it, and the layer of a loop variable hides only
/// that variable.
pub proof fn lemma_scoping(
    e: ExprV,
    env: Env,
    input: Seq<u8>,
    name: Seq<char>,
    loop_var: Seq<char>,
    v: u64,
)
    requires
        !(e is Primative),
        eval_decl(e, env, input) is Ok,
    ensures
        eval_decl(e, env, input)->Ok_0.2 == env,
        lookup(env.push(Map::empty()), name) == lookup(env, name),
        name != loop_var ==> lookup(env.push(loop_layer(loop_var, v)), name) == lookup(env, name),
{
    assert(env.push(Map::empty()).drop_last() =~= env);
    assert(env.push(loop_layer(loop_var, v)).drop_last() =~= env);
}

/// A name bound to an array of 16-byte scalars is refused as a count and as
/// an iterable, whatever the array holds.
pub proof fn lemma_wide_count_rejected(
    name: Seq<char>,
    s: Seq<u128>,
    env: Env,
    input: Seq<u8>,
    d: DType,
    id: Option<Seq<char>>,
    body: Seq<ExprV>,
    loop_var: Seq<char>,
)
    requires
        lookup(env, name) == Some(ArrayV::U128(s)),
    ensures
        resolve_count(CountV::Identifier(name), env) == Err::<Option<nat>, EvalErrorV>(
            EvalErrorV::UnsupportedWidthAsCount(name),
        ),
        eval_primitive(d, CountV::Identifier(name), id, env, input) == Err::<
            (DataV, Seq<u8>, Env),
            EvalErrorV,
        >(EvalErrorV::UnsupportedWidthAsCount(name)),
        eval_decl(ExprV::TakeN { count: CountV::Identifier(name), exprs: body }, env, input)
            == Err::<(DataV, Seq<u8>, Env), EvalErrorV>(EvalErrorV::UnsupportedWidthAsCount(name)),
        eval_decl(
            ExprV::TakeOver { iter_identifier: name, index_identifier: loop_var, exprs: body },
            env,
            input,
        ) == Err::<(DataV, Seq<u8>, Env), EvalErrorV>(EvalErrorV::UnsupportedWidthAsCount(name)),
{
}

/// Repeating a block until the end of an exhausted source gives an empty
/// group and consumes nothing.
pub proof fn lemma_exhausted_source(body: Seq<ExprV>, env: Env)
    ensures
        eval_decl(ExprV::TakeUntil(body), env, Seq::empty()) == Ok::<
            (DataV, Seq<u8>, Env),
            EvalErrorV,
        >((DataV::List(Seq::empty()), Seq::empty(), env)),
        eval_decl(ExprV::TakeN { count: CountV::Infinite, exprs: body }, env, Seq::empty())
            == Ok::<(DataV, Seq<u8>, Env), EvalErrorV>(
            (DataV::List(Seq::empty()), Seq::empty(), env),
        ),
{
}

/// The error at the bottom of a chain of context.
pub open spec fn root_cause_spec(e: EvalErrorV) -> EvalErrorV
    decreases e,
{
    match e {
        EvalErrorV::RepetitionFailure { cause, .. } => root_cause_spec(*cause),
        EvalErrorV::DeclarationFailure { cause, .. } => root_cause_spec(*cause),
        _ => e,
    }
}

impl EvalError {
    /// The error at the bottom of the chain of context that this error adds
    /// (which declaration, which repetition).
    pub fn root_cause(&self) -> (r: &EvalError)
        ensures
            r@ == root_cause_spec(self@),
        decreases self,
    {
        match self {
            EvalError::RepetitionFailure { cause, .. } => cause.root_cause(),
            EvalError::DeclarationFailure { cause, .. } => cause.root_cause(),
            _ => self,
        }
    }
}

/// Evaluating declarations `k..` of a block gives one node per declaration.
proof fn lemma_seq_shape(es: Seq<ExprV>, k: int, env: Env, input: Seq<u8>)
    requires
        0 <= k <= es.len(),
        eval_seq(es, k, env, input) is Ok,
    ensures
        eval_seq(es, k, env, input)->Ok_0.0.len() == es.len() - k,
    decreases es.len() - k,
{
    if k < es.len() {
        let (d, rest, env2) = eval_decl(es[k], env, input)->Ok_0;
        lemma_seq_shape(es, k + 1, env2, rest);
    }
}

/// Repetitions `i..n` give one node each.
proof fn lemma_n_shape(body: Seq<ExprV>, i: nat, n: nat, env: Env, input: Seq<u8>)
    requires
        i <= n,
        eval_n(body, i, n, env, input) is Ok,
    ensures
        eval_n(body, i, n, env, input)->Ok_0.0.len() == n - i,
    decreases n - i,
{
    if i < n {
        let (d, rest) = eval_block(body, env, input)->Ok_0;
        lemma_n_shape(body, i + 1, n, env, rest);
    }
}

/// Repetitions over items `i..` give one node each.
proof fn lemma_over_shape(
    body: Seq<ExprV>,
    name: Seq<char>,
    items: Seq<u64>,
    i: int,
    env: Env,
    input: Seq<u8>,
)
    requires
        0 <= i <= items.len(),
        eval_over(body, name, items, i, env, input) is Ok,
    ensures
        eval_over(body, name, items, i, env, input)->Ok_0.0.len() == items.len() - i,
    decreases items.len() - i,
{
    if i < items.len() {
        let (d, rest) = eval_block(body, env.push(loop_layer(name, items[i])), input)->Ok_0;
        lemma_over_shape(body, name, items, i + 1, env, rest);
    }
}

/// The value tree mirrors the pattern: a block gives a group with one child
/// per declaration, a primitive gives an array, a bounded repetition gives a
/// group with one child per repetition, and a repetition over an array gives
/// a group with one child per element.
pub proof fn lemma_tree_shape(es: Seq<ExprV>, e: ExprV, env: Env, input: Seq<u8>)
    ensures
        eval_block(es, env, input) is Ok ==> (eval_block(es, env, input)->Ok_0.0 is List
            && eval_block(es, env, input)->Ok_0.0->List_0.len() == es.len()),
        eval_decl(e, env, input) is Ok ==> (eval_decl(e, env, input)->Ok_0.0 is Primative <==> e is Primative),
        (e is TakeN && eval_decl(e, env, input) is Ok && resolve_count(e->TakeN_count, env) is Ok
            && resolve_count(e->TakeN_count, env)->Ok_0 is Some) ==> (eval_decl(
            e,
            env,
            input,
        )->Ok_0.0 is List && eval_decl(e, env, input)->Ok_0.0->List_0.len() == resolve_count(
            e->TakeN_count,
            env,
        )->Ok_0->Some_0),
        (e is TakeOver && eval_decl(e, env, input) is Ok) ==> ({
            let a = lookup(env, e->iter_identifier);
            &&& a is Some
            &&& items_of(a->Some_0, e->iter_identifier) is Ok
            &&& eval_decl(e, env, input)->Ok_0.0 is List
            &&& eval_decl(e, env, input)->Ok_0.0->List_0.len() == items_of(
                a->Some_0,
                e->iter_identifier,
            )->Ok_0.len()
        }),
{
    if eval_block(es, env, input) is Ok {
        lemma_seq_shape(es, 0, env.push(Map::empty()), input);
    }
    if eval_decl(e, env, input) is Ok {
        match e {
            ExprV::TakeN { count, exprs } => {
                if let Ok(Some(n)) = resolve_count(count, env) {
                    lemma_n_shape(exprs, 0, n, env, input);
                }
            },
            ExprV::TakeOver { iter_identifier, index_identifier, exprs } => {
                let a = lookup(env, iter_identifier)->Some_0;
                let items = items_of(a, iter_identifier)->Ok_0;
                lemma_over_shape(exprs, index_identifier, items, 0, env, input);
            },
            _ => {},
        }
    }
}

} // verus!
