//! Streams behind a mutable reference: the reference reads and writes as the
//! stream does, and the stream is there again when the reference is given up.
use vstd::prelude::*;
use crate::content::Content;
use crate::error::Error;
use crate::stream::{lawful, Read, Write};

verus! {

impl<'a, R: Read> Read for &'a mut R {
    open spec fn content(&self) -> Content {
        (**self).content()
    }

    open spec fn read_reliable(&self) -> bool {
        (**self).read_reliable()
    }

    open spec fn read_stalls(&self) -> nat {
        (**self).read_stalls()
    }

    open spec fn delivers(&self, want: nat) -> Option<nat> {
        (**self).delivers(want)
    }

    /// The place of the stream, and nothing that tells one stream from
    /// another.
    open spec fn origin(&self) -> Option<(Box<Self>, nat)> {
        match (**self).origin() {
            Some((_, at)) => Some((arbitrary(), at)),
            None => None,
        }
    }

    fn read(&mut self, buf: &mut [u8]) -> (r: Result<usize, Error>)
        ensures
            *final(*final(self)) == *final(*old(self)),
    {
        assert((*old(self)).delivers(buf@.len()) == (**old(self)).delivers(buf@.len()));
        assert((*old(self)).content() == (**old(self)).content());
        assert((*old(self)).read_reliable() == (**old(self)).read_reliable());
        assert((*old(self)).read_stalls() == (**old(self)).read_stalls());
        assert((*old(self)).origin() == match (**old(self)).origin() {
            Some((_, at)) => Some((arbitrary::<Box<Self>>(), at)),
            None => None,
        });
        let r = (**self).read(buf);
        assert((*self).content() == (**self).content());
        assert((*self).read_reliable() == (**self).read_reliable());
        assert((*self).read_stalls() == (**self).read_stalls());
        assert((*self).origin() == match (**self).origin() {
            Some((_, at)) => Some((arbitrary::<Box<Self>>(), at)),
            None => None,
        });
        r
    }
}

impl<'a, W: Write> Write for &'a mut W {
    open spec fn room(&self) -> Option<nat> {
        (**self).room()
    }

    open spec fn accepts(&self, data: Seq<u8>, after: &Self) -> bool {
        (**self).accepts(data, &**after)
    }

    open spec fn write_reliable(&self) -> bool {
        (**self).write_reliable()
    }

    open spec fn write_stalls(&self) -> nat {
        (**self).write_stalls()
    }

    fn write(&mut self, buf: &[u8]) -> (r: Result<usize, Error>)
        ensures
            *final(*final(self)) == *final(*old(self)),
    {
        assert((*old(self)).room() == (**old(self)).room());
        assert((*old(self)).write_reliable() == (**old(self)).write_reliable());
        assert((*old(self)).write_stalls() == (**old(self)).write_stalls());
        let r = (**self).write(buf);
        assert((*self).room() == (**self).room());
        assert((*self).write_reliable() == (**self).write_reliable());
        assert((*self).write_stalls() == (**self).write_stalls());
        assert(forall|data: Seq<u8>| #[trigger]
            (*old(self)).accepts(data, &*self) == (**old(self)).accepts(data, &**self));
        r
    }

    fn flush(&mut self) -> (r: Result<(), Error>)
        ensures
            *final(*final(self)) == *final(*old(self)),
    {
        assert((*old(self)).room() == (**old(self)).room());
        assert((*old(self)).write_reliable() == (**old(self)).write_reliable());
        let r = (**self).flush();
        assert((*self).room() == (**self).room());
        assert((*self).write_reliable() == (**self).write_reliable());
        assert((*old(self)).accepts(Seq::empty(), &*self) == (**old(self)).accepts(
            Seq::empty(),
            &**self,
        ));
        r
    }
}

/// Taking bytes obeys the laws behind a mutable reference where it obeys them
/// in the stream.
pub proof fn lemma_borrowed_lawful<'a, W: Write>()
    requires
        lawful::<W>(),
    ensures
        lawful::<&'a mut W>(),
{
    reveal(lawful);
    assert forall|a: &&'a mut W| #[trigger] a.accepts(Seq::empty(), a) by {
        assert((**a).accepts(Seq::empty(), &**a));
    }
    assert forall|a: &&'a mut W, first: Seq<u8>, b: &&'a mut W, second: Seq<u8>, c: &&'a mut W|
        (#[trigger] a.accepts(first, b)) && (#[trigger] b.accepts(second, c)) implies a.accepts(
        first + second,
        c,
    ) by {
        assert((**a).accepts(first, &**b));
        assert((**b).accepts(second, &**c));
        assert((**a).accepts(first + second, &**c));
    }
}

} // verus!
