//! Slices and vectors of bytes as streams.
use vstd::prelude::*;
use crate::collect::append_bytes;
use crate::content::Content;
use crate::error::Error;
use crate::stream::{lawful, BufRead, Read, Write};

verus! {

/// Copies the first `n` bytes of `src` over the first `n` bytes of `dst`.
pub fn copy_prefix(dst: &mut [u8], src: &[u8], n: usize)
    requires
        n <= old(dst)@.len(),
        n <= src@.len(),
    ensures
        final(dst)@ == src@.take(n as int) + old(dst)@.skip(n as int),
{
    let mut i: usize = 0;
    assert(dst@ =~= src@.take(0) + old(dst)@.skip(0));
    while i < n
        invariant
            i <= n,
            n <= src@.len(),
            n <= dst@.len(),
            dst@.len() == old(dst)@.len(),
            dst@ == src@.take(i as int) + old(dst)@.skip(i as int),
        decreases n - i,
    {
        dst[i] = src[i];
        i = i + 1;
        assert(dst@ =~= src@.take(i as int) + old(dst)@.skip(i as int));
    }
}

/// A slice is read from its front; what has been read is cut off.
impl<'a> Read for &'a [u8] {
    open spec fn content(&self) -> Content {
        Content::Finite(self@)
    }

    open spec fn read_reliable(&self) -> bool {
        true
    }

    open spec fn read_stalls(&self) -> nat {
        0
    }

    open spec fn delivers(&self, want: nat) -> Option<nat> {
        Some(if self@.len() <= want { self@.len() } else { want })
    }

    fn read(&mut self, buf: &mut [u8]) -> (r: Result<usize, Error>)
        ensures
            r is Ok,
            r->Ok_0 == if old(self)@.len() <= old(buf)@.len() { old(self)@.len() } else { old(buf)@.len() },
    {
        let source: &'a [u8] = *self;
        let len = if source.len() < buf.len() {
            source.len()
        } else {
            buf.len()
        };
        copy_prefix(buf, source, len);
        *self = &source[len..source.len()];
        assert((*self).read_reliable() && (*old(self)).read_reliable());
        assert((*old(self)).delivers(buf@.len()) == Some(len as nat));
        assert((*old(self)).content() == Content::Finite(old(self)@));
        assert((*self).content() == Content::Finite(self@));
        assert((*old(self)).origin() is None && (*self).origin() is None);
        Ok(len)
    }
}

/// All of a slice is its own buffer.
impl<'a> BufRead for &'a [u8] {
    fn fill_buf(&mut self) -> (r: Result<&[u8], Error>)
        ensures
            r is Ok,
            r->Ok_0@ == old(self)@,
            *final(self) == *old(self),
    {
        Ok(*self)
    }

    fn consume(&mut self, n: usize)
        ensures
            final(self)@ == old(self)@.skip(n as int),
    {
        let source: &'a [u8] = *self;
        *self = &source[n..source.len()];
    }
}

/// A vector takes bytes at its end and grows.
impl Write for Vec<u8> {
    open spec fn room(&self) -> Option<nat> {
        None
    }

    open spec fn accepts(&self, data: Seq<u8>, after: &Self) -> bool {
        after@ == self@ + data
    }

    open spec fn write_reliable(&self) -> bool {
        true
    }

    open spec fn write_stalls(&self) -> nat {
        0
    }

    fn write(&mut self, buf: &[u8]) -> (r: Result<usize, Error>)
        ensures
            r == Ok::<usize, Error>(buf@.len() as usize),
            final(self)@ == old(self)@ + buf@,
    {
        append_bytes(self, buf);
        proof {
            assert((*self).room() is None && (*self).write_reliable());
            assert((*self).write_stalls() == 0 && (*old(self)).write_stalls() == 0);
            assert(buf@.take(buf@.len() as int) =~= buf@);
            assert((*old(self)).accepts(buf@, &*self));
        }
        Ok(buf.len())
    }

    fn flush(&mut self) -> (r: Result<(), Error>)
        ensures
            r is Ok,
            *final(self) == *old(self),
    {
        proof {
            assert((*self).room() is None && (*self).write_reliable());
            assert(self@ + Seq::<u8>::empty() =~= self@);
        }
        Ok(())
    }
}

/// Taking bytes obeys the laws in `Vec<u8>`.
pub proof fn lemma_vec_lawful()
    ensures
        lawful::<Vec<u8>>(),
{
    reveal(lawful);
    assert forall|a: &Vec<u8>| #[trigger] a.accepts(Seq::empty(), a) by {
        assert(a@ + Seq::<u8>::empty() =~= a@);
    }
    assert forall|a: &Vec<u8>, first: Seq<u8>, b: &Vec<u8>, second: Seq<u8>, c: &Vec<u8>|
        (#[trigger] a.accepts(first, b)) && (#[trigger] b.accepts(second, c)) implies a.accepts(first + second, c) by {
        assert(a@ + first + second =~= a@ + (first + second));
    }
}

/// `core::mem::take` on a borrowed slice: hands out the slice and leaves an
/// empty one in its place.
#[verifier::external_body]
fn take_slice<'a>(dest: &mut &'a mut [u8]) -> (taken: &'a mut [u8])
    ensures
        taken@ == old(dest)@,
        final(taken)@ == final(*old(dest))@,
        final(dest)@.len() == 0,
{
    core::mem::take(dest)
}

/// A borrowed slice is written from its front; what has been written is cut
/// off, and the slice never grows.
impl<'a> Write for &'a mut [u8] {
    open spec fn room(&self) -> Option<nat> {
        Some(self@.len())
    }

    open spec fn accepts(&self, data: Seq<u8>, after: &Self) -> bool {
        &&& data.len() <= self@.len()
        &&& after@ == self@.skip(data.len() as int)
    }

    open spec fn write_reliable(&self) -> bool {
        true
    }

    open spec fn write_stalls(&self) -> nat {
        0
    }

    fn write(&mut self, buf: &[u8]) -> (r: Result<usize, Error>)
        ensures
            r is Ok,
            r->Ok_0 == if buf@.len() <= old(self)@.len() { buf@.len() } else { old(self)@.len() },
            final(*old(self))@ == buf@.take(r->Ok_0 as int) + final(*final(self))@,
    {
        let len = if self.len() < buf.len() {
            self.len()
        } else {
            buf.len()
        };
        let whole = take_slice(self);
        let (head, tail) = whole.split_at_mut(len);
        copy_prefix(head, buf, len);
        *self = tail;
        proof {
            assert((*self).room() == Some(self@.len()) && (*self).write_reliable());
            assert((*old(self)).room() == Some(old(self)@.len()));
            assert((*old(self)).accepts(buf@.take(len as int), &*self));
            assert(head@ =~= buf@.take(len as int));
        }
        Ok(len)
    }

    fn flush(&mut self) -> (r: Result<(), Error>)
        ensures
            r is Ok,
            *final(self) == *old(self),
    {
        proof {
            assert((*self).room() == Some(self@.len()) && (*self).write_reliable());
            assert(self@.skip(0) =~= self@);
        }
        Ok(())
    }
}

/// Taking bytes obeys the laws in `&mut [u8]`.
pub proof fn lemma_slice_lawful<'a>()
    ensures
        lawful::<&'a mut [u8]>(),
{
    reveal(lawful);
    assert forall|a: &&'a mut [u8]| #[trigger] a.accepts(Seq::empty(), a) by {
        assert(a@.skip(0) =~= a@);
    }
    assert forall|a: &&'a mut [u8], first: Seq<u8>, b: &&'a mut [u8], second: Seq<u8>, c: &&'a mut [u8]|
        (#[trigger] a.accepts(first, b)) && (#[trigger] b.accepts(second, c)) implies a.accepts(first + second, c) by {
        assert(a@.skip(first.len() as int).skip(second.len() as int) =~= a@.skip(
            (first + second).len() as int,
        ));
    }
}

} // verus!
