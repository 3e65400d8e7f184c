//! Scalar types, decoded arrays and the value tree, with their models.
use vstd::prelude::*;

verus! {

/// Byte order of a multi-byte scalar.
#[derive(Clone, Copy, Debug, PartialEq, Eq, Structural)]
pub enum Endianness {
    Big,
    Little,
}

/// Scalar type of a primitive declaration.
#[derive(Clone, Copy, Debug, PartialEq, Eq, Structural)]
pub enum DType {
    U8,
    U16(Endianness),
    U32(Endianness),
    U64(Endianness),
    U128(Endianness),
    /// A byte shown as text.
    Char,
}

/// Number of bytes one scalar of type `d` occupies.
pub open spec fn width(d: DType) -> nat {
    match d {
        DType::U8 => 1,
        DType::U16(_) => 2,
        DType::U32(_) => 4,
        DType::U64(_) => 8,
        DType::U128(_) => 16,
        DType::Char => 1,
    }
}

/// The unsigned number whose big-endian bytes are `s`.
pub open spec fn be_value(s: Seq<u8>) -> nat
    decreases s.len(),
{
    if s.len() == 0 {
        0
    } else {
        (be_value(s.drop_last()) * 256 + s.last()) as nat
    }
}

/// The unsigned number whose little-endian bytes are `s`.
pub open spec fn le_value(s: Seq<u8>) -> nat
    decreases s.len(),
{
    if s.len() == 0 {
        0
    } else {
        (le_value(s.drop_first()) * 256 + s[0]) as nat
    }
}

/// The unsigned number that the bytes `s` stand for in byte order `e`.
pub open spec fn uint_value(s: Seq<u8>, e: Endianness) -> nat {
    match e {
        Endianness::Big => be_value(s),
        Endianness::Little => le_value(s),
    }
}

/// `256` to the power `n`.
pub open spec fn pow256(n: nat) -> nat
    decreases n,
{
    if n == 0 {
        1
    } else {
        256 * pow256((n - 1) as nat)
    }
}

/// The `i`-th chunk of `w` bytes of `bytes`.
pub open spec fn chunk(bytes: Seq<u8>, w: nat, i: int) -> Seq<u8> {
    bytes.subrange(i * w, i * w + w)
}

/// Value of the `i`-th scalar of width `w` and byte order `e` in `bytes`.
pub open spec fn scalar_at(bytes: Seq<u8>, w: nat, e: Endianness, i: int) -> nat {
    uint_value(chunk(bytes, w, i), e)
}

/// Model of a decoded array: its scalar kind and its elements.
pub enum ArrayV {
    U8(Seq<u8>),
    U16(Seq<u16>),
    U32(Seq<u32>),
    U64(Seq<u64>),
    U128(Seq<u128>),
    Char(Seq<u8>),
}

/// The array that `bytes` decode to as scalars of type `d`: one element per
/// whole chunk of `width(d)` bytes, in source order.
pub open spec fn decode_array(bytes: Seq<u8>, d: DType) -> ArrayV {
    let n = bytes.len() / width(d);
    match d {
        DType::U8 => ArrayV::U8(bytes),
        DType::Char => ArrayV::Char(bytes),
        DType::U16(e) => ArrayV::U16(Seq::new(n, |i: int| scalar_at(bytes, 2, e, i) as u16)),
        DType::U32(e) => ArrayV::U32(Seq::new(n, |i: int| scalar_at(bytes, 4, e, i) as u32)),
        DType::U64(e) => ArrayV::U64(Seq::new(n, |i: int| scalar_at(bytes, 8, e, i) as u64)),
        DType::U128(e) => ArrayV::U128(Seq::new(n, |i: int| scalar_at(bytes, 16, e, i) as u128)),
    }
}

/// Number of elements of an array model.
pub open spec fn array_len(a: ArrayV) -> nat {
    match a {
        ArrayV::U8(s) => s.len(),
        ArrayV::U16(s) => s.len(),
        ArrayV::U32(s) => s.len(),
        ArrayV::U64(s) => s.len(),
        ArrayV::U128(s) => s.len(),
        ArrayV::Char(s) => s.len(),
    }
}

/// A homogeneous sequence of decoded scalars.
#[derive(Clone, Debug)]
pub enum PrimativeArray {
    U8(Vec<u8>),
    U16(Vec<u16>),
    U32(Vec<u32>),
    U64(Vec<u64>),
    U128(Vec<u128>),
    Char(Vec<u8>),
}

impl View for PrimativeArray {
    type V = ArrayV;

    open spec fn view(&self) -> ArrayV {
        match self {
            PrimativeArray::U8(v) => ArrayV::U8(v@),
            PrimativeArray::U16(v) => ArrayV::U16(v@),
            PrimativeArray::U32(v) => ArrayV::U32(v@),
            PrimativeArray::U64(v) => ArrayV::U64(v@),
            PrimativeArray::U128(v) => ArrayV::U128(v@),
            PrimativeArray::Char(v) => ArrayV::Char(v@),
        }
    }
}

/// One more byte multiplies the number of values by 256.
proof fn lemma_pow256_step(k: nat)
    ensures
        pow256(k + 1) == 256 * pow256(k),
        pow256(k) >= 1,
    decreases k,
{
    if k > 0 {
        lemma_pow256_step((k - 1) as nat);
    }
}

/// Powers of 256 grow with the exponent.
proof fn lemma_pow256_mono(a: nat, b: nat)
    requires
        a <= b,
    ensures
        pow256(a) <= pow256(b),
    decreases b - a,
{
    if a < b {
        lemma_pow256_mono(a, (b - 1) as nat);
        lemma_pow256_step((b - 1) as nat);
    }
}

/// Sixteen bytes hold exactly the values of a `u128`.
proof fn lemma_pow256_16()
    ensures
        pow256(16) == 0x1_0000_0000_0000_0000_0000_0000_0000_0000,
{
    reveal_with_fuel(pow256, 17);
}

/// Reads the `w`-byte unsigned number at `bytes[start..start + w]` in byte
/// order `e`.
fn read_uint(bytes: &[u8], start: usize, w: usize, e: Endianness) -> (r: u128)
    requires
        1 <= w <= 16,
        start + w <= bytes@.len(),
    ensures
        r as nat == uint_value(bytes@.subrange(start as int, start + w), e),
{
    let len = bytes.len();
    let mut acc: u128 = 0;
    let mut k: usize = 0;
    while k < w
        invariant
            len == bytes@.len(),
            1 <= w <= 16,
            start + w <= bytes@.len(),
            k <= w,
            acc < pow256(k as nat),
            e is Big ==> acc as nat == be_value(bytes@.subrange(start as int, start + k)),
            e is Little ==> acc as nat == le_value(
                bytes@.subrange(start + w - k, start + w),
            ),
        decreases w - k,
    {
        let b: u8 = match e {
            Endianness::Big => bytes[start + k],
            Endianness::Little => bytes[start + w - 1 - k],
        };
        proof {
            lemma_pow256_step(k as nat);
            lemma_pow256_mono((k + 1) as nat, 16);
            lemma_pow256_16();
            let p = pow256(k as nat);
            assert(acc * 256 + b < 256 * p) by (nonlinear_arith)
                requires
                    acc < p,
                    b < 256,
            ;
            let hi = bytes@.subrange(start as int, start + k + 1);
            assert(hi.drop_last() =~= bytes@.subrange(start as int, start + k));
            let lo = bytes@.subrange(start + w - k - 1, start + w);
            assert(lo.drop_first() =~= bytes@.subrange(start + w - k, start + w));
        }
        acc = acc * 256 + b as u128;
        k = k + 1;
    }
    acc
}

/// Chunk `i` of `n` whole chunks of `w` bytes lies within `len` bytes.
proof fn lemma_chunk_fits(i: int, n: int, w: int, len: int)
    requires
        0 <= i < n,
        w > 0,
        len >= 0,
        n == len / w,
    ensures
        i * w + w <= len,
        0 <= i * w,
{
    assert(i * w + w <= len) by (nonlinear_arith)
        requires
            0 <= i < n,
            w > 0,
            n == len / w,
            len >= 0,
    ;
    assert(0 <= i * w) by (nonlinear_arith)
        requires
            0 <= i,
            w > 0,
    ;
}

impl PrimativeArray {
    /// Decodes `bytes` as consecutive scalars of type `dtype`, one element
    /// per whole chunk of `width(dtype)` bytes, in source order.
    pub fn from_chunked_array(bytes: Vec<u8>, dtype: DType) -> (r: PrimativeArray)
        ensures
            r@ == decode_array(bytes@, dtype),
    {
        match dtype {
            DType::U8 => PrimativeArray::U8(bytes),
            DType::Char => PrimativeArray::Char(bytes),
            DType::U16(e) => {
                let n = bytes.len() / 2;
                let mut out: Vec<u16> = Vec::new();
                let mut i: usize = 0;
                while i < n
                    invariant
                        n == bytes@.len() / 2,
                        bytes@.len() <= usize::MAX,
                        i <= n,
                        out@.len() == i,
                        forall|j: int|
                            0 <= j < i ==> out@[j] == scalar_at(bytes@, 2, e, j) as u16,
                    decreases n - i,
                {
                    proof {
                        lemma_chunk_fits(i as int, n as int, 2, bytes@.len() as int);
                    }
                    let v = read_uint(bytes.as_slice(), i * 2, 2, e);
                    out.push(v as u16);
                    i = i + 1;
                }
                assert(out@ =~= Seq::new(n as nat, |j: int| scalar_at(bytes@, 2, e, j) as u16));
                PrimativeArray::U16(out)
            },
            DType::U32(e) => {
                let n = bytes.len() / 4;
                let mut out: Vec<u32> = Vec::new();
                let mut i: usize = 0;
                while i < n
                    invariant
                        n == bytes@.len() / 4,
                        bytes@.len() <= usize::MAX,
                        i <= n,
                        out@.len() == i,
                        forall|j: int|
                            0 <= j < i ==> out@[j] == scalar_at(bytes@, 4, e, j) as u32,
                    decreases n - i,
                {
                    proof {
                        lemma_chunk_fits(i as int, n as int, 4, bytes@.len() as int);
                    }
                    let v = read_uint(bytes.as_slice(), i * 4, 4, e);
                    out.push(v as u32);
                    i = i + 1;
                }
                assert(out@ =~= Seq::new(n as nat, |j: int| scalar_at(bytes@, 4, e, j) as u32));
                PrimativeArray::U32(out)
            },
            DType::U64(e) => {
                let n = bytes.len() / 8;
                let mut out: Vec<u64> = Vec::new();
                let mut i: usize = 0;
                while i < n
                    invariant
                        n == bytes@.len() / 8,
                        bytes@.len() <= usize::MAX,
                        i <= n,
                        out@.len() == i,
                        forall|j: int|
                            0 <= j < i ==> out@[j] == scalar_at(bytes@, 8, e, j) as u64,
                    decreases n - i,
                {
                    proof {
                        lemma_chunk_fits(i as int, n as int, 8, bytes@.len() as int);
                    }
                    let v = read_uint(bytes.as_slice(), i * 8, 8, e);
                    out.push(v as u64);
                    i = i + 1;
                }
                assert(out@ =~= Seq::new(n as nat, |j: int| scalar_at(bytes@, 8, e, j) as u64));
                PrimativeArray::U64(out)
            },
            DType::U128(e) => {
                let n = bytes.len() / 16;
                let mut out: Vec<u128> = Vec::new();
                let mut i: usize = 0;
                while i < n
                    invariant
                        n == bytes@.len() / 16,
                        bytes@.len() <= usize::MAX,
                        i <= n,
                        out@.len() == i,
                        forall|j: int|
                            0 <= j < i ==> out@[j] == scalar_at(bytes@, 16, e, j) as u128,
                    decreases n - i,
                {
                    proof {
                        lemma_chunk_fits(i as int, n as int, 16, bytes@.len() as int);
                    }
                    let v = read_uint(bytes.as_slice(), i * 16, 16, e);
                    out.push(v);
                    i = i + 1;
                }
                assert(out@ =~= Seq::new(
                    n as nat,
                    |j: int| scalar_at(bytes@, 16, e, j) as u128,
                ));
                PrimativeArray::U128(out)
            },
        }
    }
}

impl PrimativeArray {
    /// A copy of this array.
    pub fn duplicate(&self) -> (r: PrimativeArray)
        ensures
            r@ == self@,
    {
        match self {
            PrimativeArray::U8(v) => {
                let c = v.clone();
                assert(c@ =~= v@);
                PrimativeArray::U8(c)
            },
            PrimativeArray::U16(v) => {
                let c = v.clone();
                assert(c@ =~= v@);
                PrimativeArray::U16(c)
            },
            PrimativeArray::U32(v) => {
                let c = v.clone();
                assert(c@ =~= v@);
                PrimativeArray::U32(c)
            },
            PrimativeArray::U64(v) => {
                let c = v.clone();
                assert(c@ =~= v@);
                PrimativeArray::U64(c)
            },
            PrimativeArray::U128(v) => {
                let c = v.clone();
                assert(c@ =~= v@);
                PrimativeArray::U128(c)
            },
            PrimativeArray::Char(v) => {
                let c = v.clone();
                assert(c@ =~= v@);
                PrimativeArray::Char(c)
            },
        }
    }
}

/// Number of bytes one scalar of type `d` occupies.
pub fn dtype_width(d: DType) -> (r: usize)
    ensures
        r as nat == width(d),
{
    match d {
        DType::U8 => 1,
        DType::U16(_) => 2,
        DType::U32(_) => 4,
        DType::U64(_) => 8,
        DType::U128(_) => 16,
        DType::Char => 1,
    }
}

/// Appending a node appends its model.
pub proof fn lemma_datas_view_push(s: Seq<Data>, d: Data)
    ensures
        datas_view(s.push(d)) == datas_view(s).push(data_view(d)),
{
    assert(s.push(d).drop_last() =~= s);
}

/// Model of a value tree.
pub enum DataV {
    Primative(ArrayV),
    List(Seq<DataV>),
}

/// A node of the value tree: a decoded array, or a group of child nodes.
#[derive(Debug)]
pub enum Data {
    Primative(PrimativeArray),
    List(Vec<Data>),
}

/// Model of a value tree node.
pub open spec fn data_view(d: Data) -> DataV
    decreases d,
{
    match d {
        Data::Primative(a) => DataV::Primative(a@),
        Data::List(v) => DataV::List(datas_view(v@)),
    }
}

/// Models of a sequence of value tree nodes, in order.
pub open spec fn datas_view(s: Seq<Data>) -> Seq<DataV>
    decreases s,
{
    if s.len() == 0 {
        Seq::empty()
    } else {
        datas_view(s.drop_last()).push(data_view(s.last()))
    }
}

impl View for Data {
    type V = DataV;

    open spec fn view(&self) -> DataV {
        data_view(*self)
    }
}

} // verus!
