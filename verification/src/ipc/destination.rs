//! A typed destination whose byte prefix is private until it is complete.
use super::payload::{faithful, IpcPod};
use super::wire::ByteOrder;
use super::Fault;
use core::marker::PhantomData;
use vstd::arithmetic::div_mod::lemma_fundamental_div_mod;
use vstd::prelude::*;
use vstd::slice::slice_subrange;

verus! {

/// The bytes that values are made of, in order.
pub open spec fn images<P: IpcPod>(values: Seq<P>, order: ByteOrder) -> Seq<u8>
    decreases values.len(),
{
    if values.len() == 0 {
        Seq::empty()
    } else {
        images(values.drop_last(), order) + values.last().image(order)
    }
}

/// Values have as many bytes as all of them together.
pub proof fn lemma_images_len<P: IpcPod>(values: Seq<P>, order: ByteOrder)
    requires
        faithful::<P>(),
    ensures
        images(values, order).len() == values.len() * P::width(),
    decreases values.len(),
{
    if values.len() > 0 {
        lemma_images_len(values.drop_last(), order);
        assert(values.last().image(order).len() == P::width());
        assert((values.len() - 1) * P::width() + P::width() == values.len() * P::width())
            by (nonlinear_arith);
    }
}

/// The bytes of values tell the values: what is rebuilt from the bytes of values is those
/// values.
pub proof fn law_values_are_their_bytes<P: IpcPod>(a: Seq<P>, b: Seq<P>, order: ByteOrder)
    requires
        faithful::<P>(),
        a.len() == b.len(),
        images(a, order) == images(b, order),
    ensures
        a == b,
    decreases a.len(),
{
    if a.len() > 0 {
        let x = a.drop_last();
        let y = b.drop_last();
        lemma_images_len(x, order);
        lemma_images_len(y, order);
        let n = images(x, order).len() as int;
        assert(images(a, order).take(n) =~= images(x, order));
        assert(images(b, order).take(n) =~= images(y, order));
        assert(images(a, order).skip(n) =~= a.last().image(order));
        assert(images(b, order).skip(n) =~= b.last().image(order));
        law_values_are_their_bytes(x, y, order);
        assert(a =~= x.push(a.last()));
        assert(b =~= y.push(b.last()));
    } else {
        assert(a =~= b);
    }
}

/// The bytes that values are made of.
pub fn bytes_of<P: IpcPod>(values: &[P], order: ByteOrder) -> (bytes: Vec<u8>)
    ensures
        bytes@ == images(values@, order),
        bytes@.len() == values@.len() * P::width(),
{
    let mut bytes: Vec<u8> = Vec::new();
    let len: usize = values.len();
    let mut k: usize = 0;
    assert(values@.take(0) =~= Seq::empty());
    while k < len
        invariant
            k <= len,
            len == values@.len(),
            bytes@ == images(values@.take(k as int), order),
            bytes@.len() == k * P::width(),
        decreases len - k,
    {
        proof {
            assert((k + 1) * P::width() == k * P::width() + P::width()) by (nonlinear_arith);
        }
        values[k].encode(order, &mut bytes);
        k = k + 1;
        proof {
            let taken = values@.take(k as int);
            assert(taken.drop_last() =~= values@.take(k - 1));
        }
    }
    assert(values@.take(len as int) =~= values@);
    bytes
}

/// A destination for a fixed number of bytes that make up values.
pub struct PodDestination<P: IpcPod> {
    bytes: usize,
    order: ByteOrder,
    prefix: Vec<u8>,
    payload: PhantomData<P>,
}

impl<P: IpcPod> PodDestination<P> {
    /// The bytes that it takes in all.
    pub closed spec fn extent(&self) -> int {
        self.bytes as int
    }

    /// The byte order of its values.
    pub closed spec fn order(&self) -> ByteOrder {
        self.order
    }

    /// The bytes that it has.
    pub closed spec fn held(&self) -> Seq<u8> {
        self.prefix@
    }

    /// Whether the bytes make up values, and fit.
    pub open spec fn wf(&self) -> bool {
        &&& P::width() > 0
        &&& self.extent() % (P::width() as int) == 0
        &&& self.held().len() <= self.extent()
    }

    /// How many more bytes it takes.
    pub open spec fn room(&self) -> int {
        self.extent() - self.held().len()
    }

    /// A destination for `bytes` bytes on a machine of some byte order.
    pub fn new(bytes: usize, order: ByteOrder) -> (result: Result<Self, Fault>)
        ensures
            result is Ok <==> P::width() > 0 && bytes as int % (P::width() as int) == 0,
            result matches Ok(destination) ==> destination.wf() && destination.extent() == bytes
                && destination.order() == order && destination.held() == Seq::<u8>::empty(),
            result matches Err(fault) ==> fault == Fault::PodDestinationShape,
    {
        let size: usize = P::size();
        if size == 0 || bytes % size != 0 {
            return Err(Fault::PodDestinationShape);
        }
        Ok(PodDestination { bytes, order, prefix: Vec::new(), payload: PhantomData })
    }

    /// How many bytes have been written.
    pub fn written(&self) -> (count: usize)
        ensures
            count == self.held().len(),
    {
        self.prefix.len()
    }

    /// Take as many bytes as fit.
    pub fn write(&mut self, input: &[u8]) -> (count: usize)
        requires
            old(self).wf(),
        ensures
            final(self).wf(),
            final(self).extent() == old(self).extent(),
            final(self).order() == old(self).order(),
            count == if input@.len() < old(self).room() {
                input@.len() as int
            } else {
                old(self).room()
            },
            final(self).held() == old(self).held() + input@.take(count as int),
    {
        let ghost before = self.prefix@;
        let left: usize = self.bytes - self.prefix.len();
        let n: usize = if input.len() < left {
            input.len()
        } else {
            left
        };
        let mut k: usize = 0;
        assert(self.prefix@ =~= before + input@.take(0));
        while k < n
            invariant
                k <= n,
                n <= input@.len(),
                before.len() + n <= self.bytes,
                self.bytes == old(self).bytes,
                self.order == old(self).order,
                self.prefix@ == before + input@.take(k as int),
            decreases n - k,
        {
            self.prefix.push(input[k]);
            k = k + 1;
            assert(self.prefix@ =~= before + input@.take(k as int));
        }
        n
    }

    /// Take all bytes, or as many as fit and fail.
    pub fn write_all(&mut self, input: &[u8]) -> (result: Result<(), Fault>)
        requires
            old(self).wf(),
        ensures
            final(self).wf(),
            final(self).extent() == old(self).extent(),
            final(self).order() == old(self).order(),
            result is Ok <==> input@.len() <= old(self).room(),
            result is Ok ==> final(self).held() == old(self).held() + input@,
            result matches Err(fault) ==> fault == Fault::WriteZero && final(self).held() == old(self).held() + input@.take(old(self).room()),
    {
        let written: usize = self.write(input);
        if written < input.len() {
            return Err(Fault::WriteZero);
        }
        assert(input@.take(written as int) =~= input@);
        Ok(())
    }

    /// The values, once all bytes are there.
    pub fn finish(self) -> (result: Result<Vec<P>, Fault>)
        requires
            self.wf(),
        ensures
            result is Ok <==> self.held().len() == self.extent(),
            result matches Ok(values) ==> values@.len() == self.extent() / (P::width() as int)
                && images(values@, self.order()) == self.held(),
            result matches Err(fault) ==> fault == Fault::PodDestinationShort,
    {
        if self.prefix.len() != self.bytes {
            return Err(Fault::PodDestinationShort);
        }
        let size: usize = P::size();
        let count: usize = self.bytes / size;
        let mut values: Vec<P> = Vec::with_capacity(count);
        let mut k: usize = 0;
        let mut at: usize = 0;
        proof {
            lemma_fundamental_div_mod(self.bytes as int, size as int);
            assert(count * size == self.bytes) by (nonlinear_arith)
                requires
                    self.bytes as int == size as int * (self.bytes as int / (size as int)),
                    count as int == self.bytes as int / (size as int),
            ;
            assert(self.prefix@.take(0) =~= Seq::empty());
        }
        while k < count
            invariant
                size == P::width(),
                size > 0,
                k <= count,
                at == k * size,
                count * size == self.bytes,
                self.prefix@.len() == self.bytes,
                values@.len() == k,
                images(values@, self.order) == self.prefix@.take(at as int),
            decreases count - k,
        {
            proof {
                assert((k + 1) * size == k * size + size) by (nonlinear_arith);
                assert((k + 1) * size <= count * size) by (nonlinear_arith)
                    requires
                        k + 1 <= count,
                ;
            }
            let ghost before = values@;
            let part: &[u8] = slice_subrange(self.prefix.as_slice(), at, at + size);
            values.push(P::decode(part, self.order));
            at = at + size;
            k = k + 1;
            proof {
                assert(values@.drop_last() =~= before);
                assert(self.prefix@.take(at as int) =~= self.prefix@.take(at - size) + part@);
            }
        }
        assert(self.prefix@.take(self.bytes as int) =~= self.prefix@);
        Ok(values)
    }
}

} // verus!
