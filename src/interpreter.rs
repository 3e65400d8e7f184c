//! The evaluator: walks a pattern against a byte source.
use vstd::prelude::*;
use crate::parser::{name_view, Count, Expr, ExprV, exprs_view, lemma_exprs_view};
use crate::semantics::{
    count_of, eval_block, eval_decl, eval_pattern, eval_n, eval_over, eval_primitive, eval_seq, eval_until,
    items_of, loop_layer, resolve_count, bytes_wanted, Env, EvalError, EvalErrorV,
};
use crate::source::{is_suffix, lemma_skip_suffix, lemma_suffix_refl, lemma_suffix_trans, ByteSource};
use crate::stack::lookup;
use crate::values::{
    datas_view, dtype_width, lemma_datas_view_push, ArrayV, DType, DataV, width,
};
pub use crate::stack::Stack;
pub use crate::values::{Data, PrimativeArray};

verus! {

/// `r` prefixed with the models `prefix` when it is a success.
pub open spec fn prepend(prefix: Seq<DataV>, r: Result<(Seq<DataV>, Seq<u8>), EvalErrorV>) -> Result<
    (Seq<DataV>, Seq<u8>),
    EvalErrorV,
> {
    match r {
        Ok((ds, rest)) => Ok((prefix + ds, rest)),
        Err(e) => Err(e),
    }
}

/// Prefixing one node and then a sequence is prefixing the longer sequence.
proof fn lemma_prepend_step(p: Seq<DataV>, d: DataV, r: Result<(Seq<DataV>, Seq<u8>), EvalErrorV>)
    ensures
        prepend(p, prepend(seq![d], r)) == prepend(p.push(d), r),
{
    if let Ok((ds, rest)) = r {
        assert(p + (seq![d] + ds) =~= p.push(d) + ds);
    }
}

/// A run that returned `r` and left `after` in the source did what `s` says
/// a block evaluation does.
pub open spec fn block_outcome(
    r: Result<Data, EvalError>,
    after: Seq<u8>,
    s: Result<(DataV, Seq<u8>), EvalErrorV>,
) -> bool {
    match s {
        Ok((d, rest)) => r matches Ok(v) && v@ == d && after == rest,
        Err(e) => r matches Err(x) && x@ == e,
    }
}

/// A run that returned `r` and left `after` in the source and `env` in the
/// stack did what `s` says a declaration does. On failure the stack is
/// `env0`, as before the run.
pub open spec fn decl_outcome(
    r: Result<Data, EvalError>,
    after: Seq<u8>,
    env: Env,
    env0: Env,
    s: Result<(DataV, Seq<u8>, Env), EvalErrorV>,
) -> bool {
    match s {
        Ok((d, rest, env2)) => r matches Ok(v) && v@ == d && after == rest && env == env2,
        Err(e) => r matches Err(x) && x@ == e && env == env0,
    }
}

/// A run that returned `r` did what `s` says a repetition does.
pub open spec fn list_outcome(
    r: Result<Data, EvalError>,
    after: Seq<u8>,
    s: Result<(Seq<DataV>, Seq<u8>), EvalErrorV>,
) -> bool {
    match s {
        Ok((ds, rest)) => r matches Ok(v) && v@ == DataV::List(ds) && after == rest,
        Err(e) => r matches Err(x) && x@ == e,
    }
}

/// The count that `a`, bound to `name`, stands for.
fn array_count(a: &PrimativeArray, name: &String) -> (r: Result<u64, EvalError>)
    ensures
        match count_of(a@, name@) {
            Ok(n) => r matches Ok(k) && k as nat == n,
            Err(e) => r matches Err(x) && x@ == e,
        },
{
    match a {
        PrimativeArray::U8(items) => if items.len() > 0 {
            Ok(items[0] as u64)
        } else {
            Err(EvalError::NotACount(name.clone()))
        },
        PrimativeArray::U16(items) => if items.len() > 0 {
            Ok(items[0] as u64)
        } else {
            Err(EvalError::NotACount(name.clone()))
        },
        PrimativeArray::U32(items) => if items.len() > 0 {
            Ok(items[0] as u64)
        } else {
            Err(EvalError::NotACount(name.clone()))
        },
        PrimativeArray::U64(items) => if items.len() > 0 {
            Ok(items[0])
        } else {
            Err(EvalError::NotACount(name.clone()))
        },
        PrimativeArray::U128(_) => Err(EvalError::UnsupportedWidthAsCount(name.clone())),
        PrimativeArray::Char(_) => Err(EvalError::NotACount(name.clone())),
    }
}

/// Resolves `count` in the environment: `Some(n)` for a bounded count,
/// `None` for an unbounded one.
fn resolve(stack: &Stack, count: &Count) -> (r: Result<Option<u64>, EvalError>)
    ensures
        match resolve_count(count@, stack@) {
            Ok(Some(n)) => r matches Ok(Some(k)) && k as nat == n,
            Ok(None) => r matches Ok(None),
            Err(e) => r matches Err(x) && x@ == e,
        },
{
    match count {
        Count::Number(n) => Ok(Some(*n)),
        Count::Identifier(id) => match stack.get_var(id) {
            None => Err(EvalError::UnboundName(id.clone())),
            Some(a) => match array_count(a, id) {
                Ok(n) => Ok(Some(n)),
                Err(e) => Err(e),
            },
        },
        Count::Infinite => Ok(None),
    }
}

/// The elements of `a`, bound to `name`, as loop-variable values.
fn array_items(a: &PrimativeArray, name: &String) -> (r: Result<Vec<u64>, EvalError>)
    ensures
        match items_of(a@, name@) {
            Ok(s) => r matches Ok(v) && v@ == s,
            Err(e) => r matches Err(x) && x@ == e,
        },
{
    let n = match a {
        PrimativeArray::U8(v) => v.len(),
        PrimativeArray::U16(v) => v.len(),
        PrimativeArray::U32(v) => v.len(),
        PrimativeArray::U64(v) => v.len(),
        PrimativeArray::U128(_) => {
            return Err(EvalError::UnsupportedWidthAsCount(name.clone()));
        },
        PrimativeArray::Char(_) => {
            return Err(EvalError::NotACount(name.clone()));
        },
    };
    let ghost s = items_of(a@, name@)->Ok_0;
    let mut out: Vec<u64> = Vec::new();
    let mut i: usize = 0;
    while i < n
        invariant
            items_of(a@, name@) is Ok,
            s == items_of(a@, name@)->Ok_0,
            n == s.len(),
            i <= n,
            out@ == s.take(i as int),
        decreases n - i,
    {
        let x: u64 = match a {
            PrimativeArray::U8(v) => v[i] as u64,
            PrimativeArray::U16(v) => v[i] as u64,
            PrimativeArray::U32(v) => v[i] as u64,
            PrimativeArray::U64(v) => v[i],
            PrimativeArray::U128(_) => 0,
            PrimativeArray::Char(_) => 0,
        };
        out.push(x);
        i = i + 1;
        assert(out@ =~= s.take(i as int));
    }
    assert(out@ =~= s);
    Ok(out)
}

/// Reads one primitive declaration from the source and binds it to
/// `identifier`, if one is given, in the innermost layer.
///
/// A bounded count reads exactly `count * width(dtype)` bytes. An unbounded
/// one reads as many whole scalars as are left and leaves a remainder shorter
/// than one scalar in the source.
fn process_primative(
    stack: &mut Stack,
    bytes: &mut ByteSource,
    dtype: DType,
    count: &Count,
    identifier: &Option<String>,
) -> (r: Result<Data, EvalError>)
    requires
        old(stack)@.len() > 0,
    ensures
        decl_outcome(
            r,
            final(bytes)@,
            final(stack)@,
            old(stack)@,
            eval_primitive(dtype, count@, name_view(*identifier), old(stack)@, old(bytes)@),
        ),
        r is Err ==> final(bytes)@ == old(bytes)@,
        is_suffix(final(bytes)@, old(bytes)@),
{
    proof {
        lemma_suffix_refl(bytes@);
    }
    let n = match resolve(stack, count) {
        Ok(n) => n,
        Err(e) => {
            return Err(e);
        },
    };
    let w = dtype_width(dtype);
    let avail = bytes.remaining();
    let take: usize = match n {
        Some(k) => {
            let needed: u128 = (k as u128) * (w as u128);
            if needed > avail as u128 {
                return Err(EvalError::SourceExhausted { needed, available: avail });
            }
            (k as usize) * w
        },
        None => (avail / w) * w,
    };
    proof {
        let nn: Option<nat> = match n {
            Some(k) => Some(k as nat),
            None => None,
        };
        assert(take as nat == bytes_wanted(dtype, nn, avail as nat)) by (nonlinear_arith)
            requires
                n is Some ==> take == (n->0 as nat) * width(dtype),
                n is None ==> take == (avail as nat / width(dtype)) * width(dtype),
                nn == (match n {
                    Some(k) => Some(k as nat),
                    None => None::<nat>,
                }),
        ;
        assert(take <= avail) by (nonlinear_arith)
            requires
                n is None ==> take == (avail as nat / w as nat) * w as nat,
                w > 0,
                n is Some ==> take <= avail,
        ;
    }
    let raw = match bytes.take(take) {
        Some(raw) => raw,
        None => {
            return Err(EvalError::SourceExhausted { needed: take as u128, available: avail });
        },
    };
    proof {
        lemma_skip_suffix(old(bytes)@, take as int);
    }
    let arr = PrimativeArray::from_chunked_array(raw, dtype);
    match identifier {
        Some(id) => {
            stack.set_var(id.clone(), arr.duplicate());
        },
        None => {},
    }
    Ok(Data::Primative(arr))
}

/// Applies the block `exprs` again and again until the source is exhausted,
/// checking before each repetition.
fn process_take_until(
    stack: &mut Stack,
    bytes: &mut ByteSource,
    exprs: &Vec<Expr>,
) -> (r: Result<Data, EvalError>)
    ensures
        list_outcome(r, final(bytes)@, eval_until(exprs_view(exprs@), old(stack)@, old(bytes)@)),
        final(stack)@ == old(stack)@,
        is_suffix(final(bytes)@, old(bytes)@),
    decreases exprs, 1int,
{
    proof {
        lemma_suffix_refl(bytes@);
    }
    let ghost body = exprs_view(exprs@);
    let ghost env = stack@;
    let mut parsed: Vec<Data> = Vec::new();
    assert(datas_view(parsed@) =~= Seq::<DataV>::empty());
    assert(prepend(Seq::empty(), eval_until(body, env, bytes@)) == eval_until(body, env, bytes@))
        by {
        if let Ok((ds, rest)) = eval_until(body, env, bytes@) {
            assert(Seq::<DataV>::empty() + ds =~= ds);
        }
    }
    while bytes.has_more()
        invariant
            body == exprs_view(exprs@),
            stack@ == env,
            env == old(stack)@,
            eval_until(body, env, old(bytes)@) == prepend(
                datas_view(parsed@),
                eval_until(body, env, bytes@),
            ),
            is_suffix(bytes@, old(bytes)@),
        decreases bytes@.len(),
    {
        let before = bytes.remaining();
        let ghost input = bytes@;
        let res = process_bytes(exprs, bytes, stack);
        proof {
            lemma_suffix_trans(bytes@, input, old(bytes)@);
        }
        match res {
            Err(e) => {
                return Err(e);
            },
            Ok(d) => {
                if bytes.remaining() >= before {
                    return Err(EvalError::NoProgress);
                }
                proof {
                    lemma_prepend_step(datas_view(parsed@), d@, eval_until(body, env, bytes@));
                    lemma_datas_view_push(parsed@, d);
                }
                parsed.push(d);
            },
        }
    }
    assert(datas_view(parsed@) + Seq::<DataV>::empty() =~= datas_view(parsed@));
    Ok(Data::List(parsed))
}

/// Applies the block `exprs` `count` times, or until the source is exhausted
/// when the count is unbounded.
fn process_take_n(
    stack: &mut Stack,
    bytes: &mut ByteSource,
    count: &Count,
    exprs: &Vec<Expr>,
) -> (r: Result<Data, EvalError>)
    ensures
        match resolve_count(count@, old(stack)@) {
            Err(e) => r matches Err(x) && x@ == e,
            Ok(None) => list_outcome(
                r,
                final(bytes)@,
                eval_until(exprs_view(exprs@), old(stack)@, old(bytes)@),
            ),
            Ok(Some(n)) => list_outcome(
                r,
                final(bytes)@,
                eval_n(exprs_view(exprs@), 0, n, old(stack)@, old(bytes)@),
            ),
        },
        final(stack)@ == old(stack)@,
        is_suffix(final(bytes)@, old(bytes)@),
    decreases exprs, 2int,
{
    proof {
        lemma_suffix_refl(bytes@);
    }
    let n = match resolve(stack, count) {
        Err(e) => {
            return Err(e);
        },
        Ok(None) => {
            return process_take_until(stack, bytes, exprs);
        },
        Ok(Some(n)) => n,
    };
    let ghost body = exprs_view(exprs@);
    let ghost env = stack@;
    let mut parsed: Vec<Data> = Vec::new();
    assert(datas_view(parsed@) =~= Seq::<DataV>::empty());
    assert(prepend(Seq::empty(), eval_n(body, 0, n as nat, env, bytes@)) == eval_n(
        body,
        0,
        n as nat,
        env,
        bytes@,
    )) by {
        if let Ok((ds, rest)) = eval_n(body, 0, n as nat, env, bytes@) {
            assert(Seq::<DataV>::empty() + ds =~= ds);
        }
    }
    let mut i: u64 = 0;
    while i < n
        invariant
            body == exprs_view(exprs@),
            stack@ == env,
            env == old(stack)@,
            i <= n,
            resolve_count(count@, env) == Ok::<Option<nat>, EvalErrorV>(Some(n as nat)),
            is_suffix(bytes@, old(bytes)@),
            eval_n(body, 0, n as nat, env, old(bytes)@) == prepend(
                datas_view(parsed@),
                eval_n(body, i as nat, n as nat, env, bytes@),
            ),
        decreases n - i,
    {
        let ghost input = bytes@;
        let res = process_bytes(exprs, bytes, stack);
        proof {
            lemma_suffix_trans(bytes@, input, old(bytes)@);
        }
        match res {
            Err(e) => {
                let err = EvalError::RepetitionFailure { index: i, cause: Box::new(e) };
                proof {
                    assert(err@ == EvalErrorV::RepetitionFailure {
                        index: i as nat,
                        cause: Box::new(e@),
                    });
                    assert(eval_n(body, i as nat, n as nat, env, input) == Err::<
                        (Seq<DataV>, Seq<u8>),
                        EvalErrorV,
                    >(err@));
                    assert(eval_n(body, 0, n as nat, env, old(bytes)@) == Err::<
                        (Seq<DataV>, Seq<u8>),
                        EvalErrorV,
                    >(err@));
                }
                return Err(err);
            },
            Ok(d) => {
                proof {
                    lemma_prepend_step(
                        datas_view(parsed@),
                        d@,
                        eval_n(body, (i + 1) as nat, n as nat, env, bytes@),
                    );
                    lemma_datas_view_push(parsed@, d);
                }
                parsed.push(d);
            },
        }
        i = i + 1;
    }
    assert(datas_view(parsed@) + Seq::<DataV>::empty() =~= datas_view(parsed@));
    Ok(Data::List(parsed))
}

/// Applies the block `exprs` once per element of the array bound to
/// `iter_identifier`, with the element bound to `index_identifier` in a
/// layer shared by the repetitions.
fn process_take_over(
    stack: &mut Stack,
    bytes: &mut ByteSource,
    iter_identifier: &String,
    index_identifier: &String,
    exprs: &Vec<Expr>,
) -> (r: Result<Data, EvalError>)
    ensures
        match lookup(old(stack)@, iter_identifier@) {
            None => r matches Err(x) && x@ == EvalErrorV::UnboundName(iter_identifier@),
            Some(a) => match items_of(a, iter_identifier@) {
                Err(e) => r matches Err(x) && x@ == e,
                Ok(items) => list_outcome(
                    r,
                    final(bytes)@,
                    eval_over(
                        exprs_view(exprs@),
                        index_identifier@,
                        items,
                        0,
                        old(stack)@,
                        old(bytes)@,
                    ),
                ),
            },
        },
        final(stack)@ == old(stack)@,
        is_suffix(final(bytes)@, old(bytes)@),
    decreases exprs, 1int,
{
    proof {
        lemma_suffix_refl(bytes@);
    }
    let items = match stack.get_var(iter_identifier) {
        None => {
            return Err(EvalError::UnboundName(iter_identifier.clone()));
        },
        Some(a) => match array_items(a, iter_identifier) {
            Err(e) => {
                return Err(e);
            },
            Ok(items) => items,
        },
    };
    let ghost body = exprs_view(exprs@);
    let ghost env = stack@;
    let ghost name = index_identifier@;
    let mut parsed: Vec<Data> = Vec::new();
    assert(datas_view(parsed@) =~= Seq::<DataV>::empty());
    assert(prepend(Seq::empty(), eval_over(body, name, items@, 0, env, bytes@)) == eval_over(
        body,
        name,
        items@,
        0,
        env,
        bytes@,
    )) by {
        if let Ok((ds, rest)) = eval_over(body, name, items@, 0, env, bytes@) {
            assert(Seq::<DataV>::empty() + ds =~= ds);
        }
    }
    stack.add_layer();
    let mut i: usize = 0;
    while i < items.len()
        invariant
            body == exprs_view(exprs@),
            name == index_identifier@,
            env == old(stack)@,
            stack@.len() == env.len() + 1,
            stack@.drop_last() == env,
            i == 0 ==> stack@.last() == Map::<Seq<char>, ArrayV>::empty(),
            i > 0 ==> stack@.last() == loop_layer(name, items@[i - 1]),
            i <= items@.len(),
            lookup(env, iter_identifier@) matches Some(a) && items_of(a, iter_identifier@) == Ok::<
                Seq<u64>,
                EvalErrorV,
            >(items@),
            is_suffix(bytes@, old(bytes)@),
            eval_over(body, name, items@, 0, env, old(bytes)@) == prepend(
                datas_view(parsed@),
                eval_over(body, name, items@, i as int, env, bytes@),
            ),
        decreases items@.len() - i,
    {
        let v: u64 = items[i];
        let mut cell: Vec<u64> = Vec::new();
        cell.push(v);
        let ghost prev = stack@;
        stack.set_var(index_identifier.clone(), PrimativeArray::U64(cell));
        proof {
            assert(cell@ =~= seq![v]);
            assert(prev.last().insert(name, ArrayV::U64(seq![v])) =~= loop_layer(name, v));
            assert(stack@ =~= env.push(loop_layer(name, v)));
        }
        let ghost input = bytes@;
        let res = process_bytes(exprs, bytes, stack);
        proof {
            lemma_suffix_trans(bytes@, input, old(bytes)@);
        }
        match res {
            Err(e) => {
                stack.remove_layer();
                let err = EvalError::RepetitionFailure { index: i as u64, cause: Box::new(e) };
                proof {
                    assert(err@ == EvalErrorV::RepetitionFailure {
                        index: i as nat,
                        cause: Box::new(e@),
                    });
                    assert(eval_over(body, name, items@, i as int, env, input) == Err::<
                        (Seq<DataV>, Seq<u8>),
                        EvalErrorV,
                    >(err@));
                }
                return Err(err);
            },
            Ok(d) => {
                proof {
                    lemma_prepend_step(
                        datas_view(parsed@),
                        d@,
                        eval_over(body, name, items@, i + 1, env, bytes@),
                    );
                    lemma_datas_view_push(parsed@, d);
                }
                parsed.push(d);
            },
        }
        i = i + 1;
    }
    stack.remove_layer();
    assert(datas_view(parsed@) + Seq::<DataV>::empty() =~= datas_view(parsed@));
    Ok(Data::List(parsed))
}

/// Evaluates one declaration of a block.
fn process_decl(stack: &mut Stack, bytes: &mut ByteSource, e: &Expr) -> (r: Result<
    Data,
    EvalError,
>)
    requires
        old(stack)@.len() > 0,
    ensures
        decl_outcome(
            r,
            final(bytes)@,
            final(stack)@,
            old(stack)@,
            eval_decl(e@, old(stack)@, old(bytes)@),
        ),
        is_suffix(final(bytes)@, old(bytes)@),
    decreases e, 0int,
{
    match e {
        Expr::Primative { dtype, count, identifier } => process_primative(
            stack,
            bytes,
            *dtype,
            count,
            identifier,
        ),
        Expr::TakeUntil(exprs) => process_take_until(stack, bytes, exprs),
        Expr::TakeN { count, exprs } => process_take_n(stack, bytes, count, exprs),
        Expr::TakeOver { iter_identifier, index_identifier, exprs } => process_take_over(
            stack,
            bytes,
            iter_identifier,
            index_identifier,
            exprs,
        ),
    }
}

/// Evaluates the block `pattern` against `bytes`: a fresh layer is pushed
/// onto `stack`, the declarations run in order, the layer is popped again
/// (also on failure), and the result is a group with one child per
/// declaration.
pub fn process_bytes(pattern: &Vec<Expr>, bytes: &mut ByteSource, stack: &mut Stack) -> (r: Result<
    Data,
    EvalError,
>)
    ensures
        block_outcome(r, final(bytes)@, eval_block(exprs_view(pattern@), old(stack)@, old(bytes)@)),
        final(stack)@ == old(stack)@,
        is_suffix(final(bytes)@, old(bytes)@),
    decreases pattern, 0int,
{
    proof {
        lemma_suffix_refl(bytes@);
    }
    let ghost es = exprs_view(pattern@);
    let ghost env0 = stack@;
    proof {
        lemma_exprs_view(pattern@);
    }
    stack.add_layer();
    let mut parsed: Vec<Data> = Vec::new();
    assert(datas_view(parsed@) =~= Seq::<DataV>::empty());
    assert(prepend(Seq::empty(), eval_seq(es, 0, stack@, bytes@)) == eval_seq(
        es,
        0,
        stack@,
        bytes@,
    )) by {
        if let Ok((ds, rest)) = eval_seq(es, 0, stack@, bytes@) {
            assert(Seq::<DataV>::empty() + ds =~= ds);
        }
    }
    let mut k: usize = 0;
    while k < pattern.len()
        invariant
            es == exprs_view(pattern@),
            es.len() == pattern@.len(),
            forall|i: int| 0 <= i < pattern@.len() ==> #[trigger] es[i] == pattern@[i]@,
            env0 == old(stack)@,
            stack@.len() == env0.len() + 1,
            stack@.drop_last() == env0,
            k <= pattern@.len(),
            is_suffix(bytes@, old(bytes)@),
            eval_seq(es, 0, env0.push(Map::empty()), old(bytes)@) == prepend(
                datas_view(parsed@),
                eval_seq(es, k as int, stack@, bytes@),
            ),
        decreases pattern@.len() - k,
    {
        let ghost env_k = stack@;
        let ghost in_k = bytes@;
        proof {
            assert(decreases_to!(pattern => pattern@[k as int]));
        }
        let res = process_decl(stack, bytes, &pattern[k]);
        proof {
            lemma_suffix_trans(bytes@, in_k, old(bytes)@);
        }
        match res {
            Err(e) => {
                stack.remove_layer();
                return Err(EvalError::DeclarationFailure { index: k, cause: Box::new(e) });
            },
            Ok(d) => {
                proof {
                    lemma_prepend_step(
                        datas_view(parsed@),
                        d@,
                        eval_seq(es, k + 1, stack@, bytes@),
                    );
                    lemma_datas_view_push(parsed@, d);
                    assert(stack@.drop_last() =~= env0);
                }
                parsed.push(d);
            },
        }
        k = k + 1;
    }
    stack.remove_layer();
    assert(datas_view(parsed@) + Seq::<DataV>::empty() =~= datas_view(parsed@));
    Ok(Data::List(parsed))
}

/// Evaluates a whole pattern against `bytes`, in an environment that starts
/// with no bindings. Either the value tree comes back, with the source
/// advanced past what the pattern read, or the first error does.
pub fn evaluate(pattern: &Vec<Expr>, bytes: &mut ByteSource) -> (r: Result<Data, EvalError>)
    ensures
        block_outcome(r, final(bytes)@, eval_pattern(exprs_view(pattern@), old(bytes)@)),
        is_suffix(final(bytes)@, old(bytes)@),
{
    let mut stack = Stack::new();
    process_bytes(pattern, bytes, &mut stack)
}

/// Two evaluations of one pattern against one byte sequence agree: both
/// give value trees with the same model and leave the same bytes, or both
/// fail with errors with the same model.
pub proof fn lemma_deterministic(
    es: Seq<ExprV>,
    input: Seq<u8>,
    r1: Result<Data, EvalError>,
    after1: Seq<u8>,
    r2: Result<Data, EvalError>,
    after2: Seq<u8>,
)
    requires
        block_outcome(r1, after1, eval_pattern(es, input)),
        block_outcome(r2, after2, eval_pattern(es, input)),
    ensures
        r1 is Ok <==> r2 is Ok,
        r1 is Ok ==> r1->Ok_0@ == r2->Ok_0@ && after1 == after2,
        r1 is Err ==> r1->Err_0@ == r2->Err_0@,
{
}

} // verus!
