//! A forward-only byte source with one byte of lookahead.
use vstd::prelude::*;

verus! {

/// `a` is what is left of `b` after some bytes were consumed from its front.
pub open spec fn is_suffix(a: Seq<u8>, b: Seq<u8>) -> bool {
    a.len() <= b.len() && a == b.subrange(b.len() - a.len(), b.len() as int)
}

/// Nothing consumed leaves all of the bytes.
pub proof fn lemma_suffix_refl(a: Seq<u8>)
    ensures
        is_suffix(a, a),
{
    assert(a.subrange(0, a.len() as int) =~= a);
}

/// Consuming twice is consuming once.
pub proof fn lemma_suffix_trans(a: Seq<u8>, b: Seq<u8>, c: Seq<u8>)
    requires
        is_suffix(a, b),
        is_suffix(b, c),
    ensures
        is_suffix(a, c),
{
    assert(a =~= c.subrange(c.len() - a.len(), c.len() as int));
}

/// Dropping bytes from the front leaves a suffix.
pub proof fn lemma_skip_suffix(b: Seq<u8>, n: int)
    requires
        0 <= n <= b.len(),
    ensures
        is_suffix(b.skip(n), b),
{
    assert(b.skip(n) =~= b.subrange(b.len() - b.skip(n).len(), b.len() as int));
}

/// The bytes of an input, consumed from the front and never re-read.
pub struct ByteSource {
    bytes: Vec<u8>,
    pos: usize,
}

impl ByteSource {
    #[verifier::type_invariant]
    spec fn inv(&self) -> bool {
        self.pos <= self.bytes@.len()
    }
}

impl View for ByteSource {
    /// The bytes that have not been consumed yet.
    type V = Seq<u8>;

    closed spec fn view(&self) -> Seq<u8> {
        self.bytes@.subrange(self.pos as int, self.bytes@.len() as int)
    }
}

impl ByteSource {
    /// A source that yields `bytes` in order.
    pub fn new(bytes: Vec<u8>) -> (r: ByteSource)
        ensures
            r@ == bytes@,
    {
        let r = ByteSource { bytes, pos: 0 };
        assert(r@ =~= r.bytes@);
        r
    }

    /// Whether at least one more byte can be read.
    pub fn has_more(&self) -> (r: bool)
        ensures
            r == (self@.len() > 0),
    {
        proof {
            use_type_invariant(self);
        }
        self.pos < self.bytes.len()
    }

    /// How many bytes are left.
    pub fn remaining(&self) -> (r: usize)
        ensures
            r == self@.len(),
    {
        proof {
            use_type_invariant(self);
        }
        self.bytes.len() - self.pos
    }

    /// Consumes the next byte, if there is one.
    pub fn next(&mut self) -> (r: Option<u8>)
        ensures
            old(self)@.len() > 0 ==> r == Some(old(self)@[0]) && final(self)@ == old(
                self,
            )@.drop_first(),
            old(self)@.len() == 0 ==> r is None && final(self)@ == old(self)@,
    {
        proof {
            use_type_invariant(&*self);
        }
        if self.pos < self.bytes.len() {
            let b = self.bytes[self.pos];
            self.pos = self.pos + 1;
            assert(self@ =~= old(self)@.drop_first());
            Some(b)
        } else {
            None
        }
    }

    /// Consumes the next `n` bytes and returns them, or consumes nothing and
    /// returns `None` when fewer than `n` are left.
    pub fn take(&mut self, n: usize) -> (r: Option<Vec<u8>>)
        ensures
            n <= old(self)@.len() ==> r is Some && r->0@ == old(self)@.take(n as int)
                && final(self)@ == old(self)@.skip(n as int),
            n > old(self)@.len() ==> r is None && final(self)@ == old(self)@,
    {
        proof {
            use_type_invariant(&*self);
        }
        if n > self.bytes.len() - self.pos {
            return None;
        }
        let end = self.pos + n;
        let mut out: Vec<u8> = Vec::new();
        let mut k: usize = 0;
        while k < n
            invariant
                end == self.pos + n,
                end <= self.bytes@.len(),
                k <= n,
                out@ == self.bytes@.subrange(self.pos as int, self.pos + k),
            decreases n - k,
        {
            out.push(self.bytes[self.pos + k]);
            k = k + 1;
            assert(out@ =~= self.bytes@.subrange(self.pos as int, self.pos + k));
        }
        self.pos = self.pos + n;
        assert(out@ =~= old(self)@.take(n as int));
        assert(self@ =~= old(self)@.skip(n as int));
        Some(out)
    }
}

} // verus!
