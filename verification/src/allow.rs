//! Wrappers that mark a value as a stream of this crate.
use vstd::prelude::*;
use crate::content::Content;
use crate::error::Error;
use crate::slices::lemma_slice_lawful;
use crate::stream::{lawful, Read, Write};

verus! {

/// A value which is a stream where the value inside it is one.
///
/// It reads as the slice inside it does, and writes as the slice or vector
/// inside it does.
pub struct AllowStd<T>(pub T);

/// A value which is kept apart from the streams of the standard library.
pub struct NotIo<T>(pub T);

impl<'a> Read for AllowStd<&'a [u8]> {
    open spec fn content(&self) -> Content {
        self.0.content()
    }

    open spec fn read_reliable(&self) -> bool {
        true
    }

    open spec fn read_stalls(&self) -> nat {
        0
    }

    open spec fn delivers(&self, want: nat) -> Option<nat> {
        self.0.delivers(want)
    }

    fn read(&mut self, buf: &mut [u8]) -> (r: Result<usize, Error>)
        ensures
            r is Ok,
            r->Ok_0 == if old(self).0@.len() <= old(buf)@.len() {
                old(self).0@.len()
            } else {
                old(buf)@.len()
            },
    {
        proof {
            assert((*self).content() == self.0.content());
            assert((*self).delivers(buf@.len()) == self.0.delivers(buf@.len()));
            assert((*self).read_reliable() && self.0.read_reliable());
        }
        self.0.read(buf)
    }
}

impl<'a> Write for AllowStd<&'a mut [u8]> {
    open spec fn room(&self) -> Option<nat> {
        self.0.room()
    }

    open spec fn accepts(&self, data: Seq<u8>, after: &Self) -> bool {
        self.0.accepts(data, &after.0)
    }

    open spec fn write_reliable(&self) -> bool {
        true
    }

    open spec fn write_stalls(&self) -> nat {
        0
    }

    fn write(&mut self, buf: &[u8]) -> (r: Result<usize, Error>)
        ensures
            r is Ok,
            r->Ok_0 == if buf@.len() <= old(self).0@.len() { buf@.len() } else { old(self).0@.len() },
            final(old(self).0)@ == buf@.take(r->Ok_0 as int) + final(final(self).0)@,
    {
        proof {
            assert((*self).room() == self.0.room());
            assert((*self).write_reliable() && self.0.write_reliable());
        }
        let r = self.0.write(buf);
        proof {
            assert((*self).room() == self.0.room());
            assert(forall|data: Seq<u8>| #[trigger]
                (*old(self)).accepts(data, &*self) == old(self).0.accepts(data, &self.0));
        }
        r
    }

    fn flush(&mut self) -> (r: Result<(), Error>)
        ensures
            r is Ok,
            *final(self) == *old(self),
    {
        proof {
            assert((*self).room() == self.0.room());
            assert((*self).write_reliable());
            assert(self.0@.skip(0) =~= self.0@);
        }
        Ok(())
    }
}

/// Taking bytes obeys the laws in `AllowStd<&mut [u8]>`.
pub proof fn lemma_allowed_slice_lawful<'a>()
    ensures
        lawful::<AllowStd<&'a mut [u8]>>(),
{
    reveal(lawful);
    assert forall|a: &AllowStd<&'a mut [u8]>| #[trigger] a.accepts(Seq::empty(), a) by {
        lemma_slice_lawful();
        reveal(lawful);
        assert(a.0.accepts(Seq::empty(), &a.0));
    }
    assert forall|a: &AllowStd<&'a mut [u8]>, first: Seq<u8>, b: &AllowStd<&'a mut [u8]>, second: Seq<u8>, c: &AllowStd<&'a mut [u8]>|
        (#[trigger] a.accepts(first, b)) && (#[trigger] b.accepts(second, c)) implies a.accepts(first + second, c) by {
        lemma_slice_lawful();
        reveal(lawful);
        assert(a.0.accepts(first, &b.0) && b.0.accepts(second, &c.0));
    }
}

impl Write for AllowStd<Vec<u8>> {
    open spec fn room(&self) -> Option<nat> {
        None
    }

    open spec fn accepts(&self, data: Seq<u8>, after: &Self) -> bool {
        after.0@ == self.0@ + data
    }

    open spec fn write_reliable(&self) -> bool {
        true
    }

    open spec fn write_stalls(&self) -> nat {
        0
    }

    fn write(&mut self, buf: &[u8]) -> (r: Result<usize, Error>)
        ensures
            r == Ok::<usize, Error>(buf@.len() as usize),
            final(self).0@ == old(self).0@ + buf@,
    {
        let r = self.0.write(buf);
        proof {
            assert((*self).room() is None && (*self).write_reliable());
            assert(buf@.take(buf@.len() as int) =~= buf@);
            assert((*old(self)).accepts(buf@, &*self));
        }
        r
    }

    fn flush(&mut self) -> (r: Result<(), Error>)
        ensures
            r is Ok,
            *final(self) == *old(self),
    {
        proof {
            assert((*self).room() is None && (*self).write_reliable());
            assert(self.0@ + Seq::<u8>::empty() =~= self.0@);
        }
        Ok(())
    }
}

/// Taking bytes obeys the laws in `AllowStd<Vec<u8>>`.
pub proof fn lemma_allowed_vec_lawful()
    ensures
        lawful::<AllowStd<Vec<u8>>>(),
{
    reveal(lawful);
    assert forall|a: &AllowStd<Vec<u8>>| #[trigger] a.accepts(Seq::empty(), a) by {
        assert(a.0@ + Seq::<u8>::empty() =~= a.0@);
    }
    assert forall|a: &AllowStd<Vec<u8>>, first: Seq<u8>, b: &AllowStd<Vec<u8>>, second: Seq<u8>, c: &AllowStd<Vec<u8>>|
        (#[trigger] a.accepts(first, b)) && (#[trigger] b.accepts(second, c)) implies a.accepts(first + second, c) by {
        assert(a.0@ + first + second =~= a.0@ + (first + second));
    }
}

} // verus!
