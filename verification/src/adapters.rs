//! The simplest streams, a reader cut off after a number of bytes, and copying
//! from a reader to a writer.
use vstd::prelude::*;
use crate::content::Content;
use crate::error::Error;
use crate::step::{after_transfer, Step};
use crate::stream::{lawful, moved_on, room_after, room_for, BufRead, Read, Seek, SeekFrom, Write};

verus! {

/// A source that is always at its end.
#[derive(Clone, Copy, Debug, Default)]
pub struct Empty;

/// A source that is always at its end.
pub fn empty() -> Empty {
    Empty
}

impl Read for Empty {
    open spec fn content(&self) -> Content {
        Content::Finite(Seq::empty())
    }

    open spec fn read_reliable(&self) -> bool {
        true
    }

    open spec fn read_stalls(&self) -> nat {
        0
    }

    open spec fn delivers(&self, want: nat) -> Option<nat> {
        Some(0)
    }

    fn read(&mut self, buf: &mut [u8]) -> (r: Result<usize, Error>)
        ensures
            r == Ok::<usize, Error>(0),
    {
        proof {
            (*self).content().lemma_skip_none();
            assert(buf@ =~= Seq::<u8>::empty() + buf@.skip(0));
            assert((*self).read_reliable());
            assert((*self).delivers(buf@.len()) == Some(0nat));
        }
        Ok(0)
    }
}

impl BufRead for Empty {
    fn fill_buf(&mut self) -> (r: Result<&[u8], Error>)
        ensures
            r is Ok,
            r->Ok_0@.len() == 0,
    {
        proof {
            assert((*self).content() == Content::Finite(Seq::empty()));
            assert((*self).read_reliable());
        }
        let nothing: &[u8] = &[];
        Ok(nothing)
    }

    fn consume(&mut self, amt: usize) {
        proof {
            (*self).content().lemma_skip_none();
            assert((*self).read_reliable());
        }
    }
}

impl Seek for Empty {
    open spec fn landing(&self, pos: SeekFrom) -> Option<u64> {
        Some(0)
    }

    open spec fn seek_reliable(&self) -> bool {
        true
    }

    open spec fn lands(&self, pos: SeekFrom, at: u64, after: &Self) -> bool {
        at == 0
    }

    fn seek(&mut self, pos: SeekFrom) -> (r: Result<u64, Error>)
        ensures
            r == Ok::<u64, Error>(0),
    {
        proof {
            assert(self.landing(pos) == Some(0u64));
            assert(self.seek_reliable());
            assert(self.lands(pos, 0, &*self));
        }
        Ok(0)
    }

    fn stream_position(&mut self) -> (r: Result<u64, Error>)
        ensures
            r == Ok::<u64, Error>(0),
    {
        proof {
            assert(self.landing(SeekFrom::Current(0)) == Some(0u64));
            assert(self.seek_reliable());
            assert(self.lands(SeekFrom::Current(0), 0, &*self));
        }
        Ok(0)
    }
}

/// A source that delivers one byte without end.
#[derive(Clone, Copy, Debug)]
pub struct Repeat {
    /// The byte.
    pub byte: u8,
}

/// A source that delivers `byte` without end.
pub fn repeat(byte: u8) -> (source: Repeat)
    ensures
        source.byte == byte,
{
    Repeat { byte }
}

/// Sets every byte of `buf` to `byte`.
pub fn fill(buf: &mut [u8], byte: u8)
    ensures
        final(buf)@ == Seq::new(old(buf)@.len(), |i: int| byte),
{
    let mut i: usize = 0;
    while i < buf.len()
        invariant
            i <= buf@.len(),
            buf@.len() == old(buf)@.len(),
            forall|j: int| 0 <= j < i ==> buf@[j] == byte,
        decreases buf@.len() - i,
    {
        buf[i] = byte;
        i = i + 1;
    }
    assert(buf@ =~= Seq::new(old(buf)@.len(), |i: int| byte));
}

impl Read for Repeat {
    open spec fn content(&self) -> Content {
        Content::Endless(|i: nat| self.byte)
    }

    open spec fn read_reliable(&self) -> bool {
        true
    }

    open spec fn read_stalls(&self) -> nat {
        0
    }

    open spec fn delivers(&self, want: nat) -> Option<nat> {
        Some(want)
    }

    fn read(&mut self, buf: &mut [u8]) -> (r: Result<usize, Error>)
        ensures
            r == Ok::<usize, Error>(old(buf)@.len() as usize),
            *final(self) == *old(self),
    {
        fill(buf, self.byte);
        proof {
            let byte = self.byte;
            let n = buf@.len();
            assert((*self).read_reliable());
            assert((*self).delivers(n) == Some(n));
            assert((*self).content() == Content::Endless(|i: nat| byte));
            assert((*self).content().first(n) =~= buf@);
            assert(buf@ =~= (*self).content().first(n) + old(buf)@.skip(n as int));
            assert((|i: nat| (|j: nat| byte)(i + n)) =~= (|i: nat| byte));
        }
        Ok(buf.len())
    }

    fn read_exact(&mut self, buf: &mut [u8]) -> (r: Result<(), Error>)
        ensures
            r is Ok,
            *final(self) == *old(self),
    {
        fill(buf, self.byte);
        proof {
            let byte = self.byte;
            let n = buf@.len();
            assert((*self).read_reliable());
            assert((*self).content() == Content::Endless(|i: nat| byte));
            assert((*self).content().holds(n));
            assert((*self).content().first(n) =~= buf@);
            assert((|i: nat| (|j: nat| byte)(i + n)) =~= (|i: nat| byte));
        }
        Ok(())
    }
}

/// A sink that takes every byte and keeps none.
#[derive(Clone, Copy, Debug, Default)]
pub struct Sink;

/// A sink that takes every byte and keeps none.
pub fn sink() -> Sink {
    Sink
}

impl Write for Sink {
    open spec fn room(&self) -> Option<nat> {
        None
    }

    open spec fn accepts(&self, data: Seq<u8>, after: &Self) -> bool {
        true
    }

    open spec fn write_reliable(&self) -> bool {
        true
    }

    open spec fn write_stalls(&self) -> nat {
        0
    }

    fn write(&mut self, buf: &[u8]) -> (r: Result<usize, Error>)
        ensures
            r == Ok::<usize, Error>(buf@.len() as usize),
    {
        proof {
            assert((*self).room() is None && (*self).write_reliable());
            assert((*self).accepts(buf@.take(buf@.len() as int), &*self));
        }
        Ok(buf.len())
    }

    fn flush(&mut self) -> (r: Result<(), Error>)
        ensures
            r is Ok,
    {
        proof {
            assert((*self).room() is None && (*self).write_reliable());
            assert((*self).accepts(Seq::empty(), &*self));
        }
        Ok(())
    }
}

/// Taking bytes obeys the laws in `Sink`.
pub proof fn lemma_sink_lawful()
    ensures
        lawful::<Sink>(),
{
    reveal(lawful);
    assert forall|a: &Sink| #[trigger] a.accepts(Seq::empty(), a) by {
    }
    assert forall|a: &Sink, first: Seq<u8>, b: &Sink, second: Seq<u8>, c: &Sink|
        (#[trigger] a.accepts(first, b)) && (#[trigger] b.accepts(second, c)) implies a.accepts(first + second, c) by {
    }
}

impl<'a> Write for &'a Sink {
    open spec fn room(&self) -> Option<nat> {
        None
    }

    open spec fn accepts(&self, data: Seq<u8>, after: &Self) -> bool {
        true
    }

    open spec fn write_reliable(&self) -> bool {
        true
    }

    open spec fn write_stalls(&self) -> nat {
        0
    }

    fn write(&mut self, buf: &[u8]) -> (r: Result<usize, Error>)
        ensures
            r == Ok::<usize, Error>(buf@.len() as usize),
    {
        proof {
            assert((*self).room() is None && (*self).write_reliable());
            assert((*self).accepts(buf@.take(buf@.len() as int), &*self));
        }
        Ok(buf.len())
    }

    fn flush(&mut self) -> (r: Result<(), Error>)
        ensures
            r is Ok,
    {
        proof {
            assert((*self).room() is None && (*self).write_reliable());
            assert((*self).accepts(Seq::empty(), &*self));
        }
        Ok(())
    }
}

/// Taking bytes obeys the laws in `&Sink`.
pub proof fn lemma_sink_ref_lawful<'a>()
    ensures
        lawful::<&'a Sink>(),
{
    reveal(lawful);
    assert forall|a: &&'a Sink| #[trigger] a.accepts(Seq::empty(), a) by {
    }
    assert forall|a: &&'a Sink, first: Seq<u8>, b: &&'a Sink, second: Seq<u8>, c: &&'a Sink|
        (#[trigger] a.accepts(first, b)) && (#[trigger] b.accepts(second, c)) implies a.accepts(first + second, c) by {
    }
}

/// The smaller of `limit` and `len`.
pub fn cap_min(limit: u64, len: usize) -> (n: usize)
    ensures
        n == if limit <= len { limit as int } else { len as int },
{
    if limit <= len as u64 {
        limit as usize
    } else {
        len
    }
}

/// A reader cut off after `limit` bytes.
///
/// Once the limit is used up the reader is at its end, and the stream behind
/// it is not asked again.
#[derive(Debug)]
pub struct Take<R> {
    inner: R,
    limit: u64,
}

impl<R> Take<R> {
    /// The stream behind the limit.
    pub closed spec fn inner(&self) -> R {
        self.inner
    }

    /// How many more bytes may be read.
    pub closed spec fn left(&self) -> u64 {
        self.limit
    }

    /// Cuts off `inner` after `limit` bytes.
    pub fn new(inner: R, limit: u64) -> (take: Self)
        ensures
            take.inner() == inner,
            take.left() == limit,
    {
        Take { inner, limit }
    }

    /// How many more bytes may be read.
    pub fn limit(&self) -> (limit: u64)
        ensures
            limit == self.left(),
    {
        self.limit
    }

    /// Sets how many more bytes may be read.
    pub fn set_limit(&mut self, limit: u64)
        ensures
            final(self).left() == limit,
            final(self).inner() == old(self).inner(),
    {
        self.limit = limit;
    }

    /// Gives back the stream.
    pub fn into_inner(self) -> (inner: R)
        ensures
            inner == self.inner(),
    {
        self.inner
    }

    /// Lends out the stream.
    pub fn get_ref(&self) -> (inner: &R)
        ensures
            *inner == self.inner(),
    {
        &self.inner
    }
}

impl<R: Read> Take<R> {
    /// This reader before it has read anything, as far as the stream behind
    /// it says where it started. Reading leaves it as it is.
    pub closed spec fn unread(&self) -> Self {
        Take {
            inner: match self.inner.origin() {
                Some((start, _)) => *start,
                None => arbitrary(),
            },
            limit: 0,
        }
    }
}

impl<R: Read> Read for Take<R> {
    open spec fn content(&self) -> Content {
        self.inner().content().limit(self.left() as nat)
    }

    /// A cut-off reader counts the bytes it has delivered by the limit that
    /// it has used up.
    open spec fn origin(&self) -> Option<(Box<Self>, nat)> {
        Some((Box::new(self.unread()), (u64::MAX - self.left()) as nat))
    }

    open spec fn read_reliable(&self) -> bool {
        self.inner().read_reliable()
    }

    open spec fn read_stalls(&self) -> nat {
        self.inner().read_stalls()
    }

    open spec fn delivers(&self, want: nat) -> Option<nat> {
        if self.left() == 0 {
            Some(0)
        } else {
            self.inner().delivers(if self.left() <= want { self.left() as nat } else { want })
        }
    }

    fn read(&mut self, buf: &mut [u8]) -> (r: Result<usize, Error>)
        ensures
            r matches Ok(n) ==> final(self).left() == old(self).left() - n,
            r is Err ==> final(self).left() == old(self).left(),
            old(self).left() == 0 ==> r == Ok::<usize, Error>(0) && final(self).inner() == old(
                self,
            ).inner(),
    {
        let ghost held = old(self).inner().content();
        let ghost left = old(self).left() as nat;
        proof {
            assert((*old(self)).content() == held.limit(left));
            assert((*old(self)).read_reliable() == old(self).inner().read_reliable());
            assert((*old(self)).read_stalls() == old(self).inner().read_stalls());
            assert((*old(self)).delivers(buf@.len()) == if left == 0 {
                Some(0nat)
            } else {
                old(self).inner().delivers(if left <= buf@.len() { left } else { buf@.len() })
            });
            held.lemma_skip_none();
        }
        if self.limit == 0 {
            proof {
                (*old(self)).content().lemma_skip_none();
                assert(buf@ =~= Seq::<u8>::empty() + buf@.skip(0));
            }
            return Ok(0);
        }
        let len = cap_min(self.limit, buf.len());
        let (head, tail) = buf.split_at_mut(len);
        let got = self.inner.read(head);
        match got {
            Ok(n) => {
                self.limit = self.limit - n as u64;
                proof {
                    lemma_limit_step(held, left, n as nat);
                    assert(buf@ =~= held.first(n as nat) + old(buf)@.skip(n as int));
                }
                Ok(n)
            },
            Err(e) => Err(e),
        }
    }
}

/// Reading `n` bytes of a content cut off after `left` reads them of the
/// content itself and leaves the rest, cut off after `left - n`.
pub proof fn lemma_limit_step(held: Content, left: nat, n: nat)
    requires
        n <= left,
        held.holds(n),
    ensures
        held.limit(left).holds(n),
        held.limit(left).first(n) == held.first(n),
        held.limit(left).skip(n) == held.skip(n).limit((left - n) as nat),
        held.exhausted() ==> held.limit(left).exhausted(),
{
    held.lemma_skip_again(n, (left - n) as nat);
    match held {
        Content::Finite(bytes) => {
            if left <= bytes.len() {
                assert(bytes.take(left as int).take(n as int) =~= bytes.take(n as int));
                assert(bytes.take(left as int).skip(n as int) =~= bytes.skip(n as int).take(
                    left - n,
                ));
            }
        },
        Content::Endless(byte_at) => {
            let all = Seq::new(left, |i: int| byte_at(i as nat));
            let rest = |i: nat| byte_at(i + n);
            assert(all.take(n as int) =~= Seq::new(n, |i: int| byte_at(i as nat)));
            assert(all.skip(n as int) =~= Seq::new((left - n) as nat, |i: int| rest(i as nat)));
        },
    }
}

impl<T: BufRead> BufRead for Take<T> {
    fn fill_buf(&mut self) -> (r: Result<&[u8], Error>)
        ensures
            final(self).left() == old(self).left(),
            old(self).left() == 0 ==> r is Ok && final(self).inner() == old(self).inner(),
    {
        let ghost held = old(self).inner().content();
        let ghost left = old(self).left() as nat;
        proof {
            assert((*old(self)).content() == held.limit(left));
            assert((*old(self)).read_reliable() == old(self).inner().read_reliable());
            assert((*old(self)).read_stalls() == old(self).inner().read_stalls());
        }
        if self.limit == 0 {
            let nothing: &[u8] = &[];
            assert(nothing@ =~= (*old(self)).content().first(0));
            return Ok(nothing);
        }
        let limit = self.limit;
        match self.inner.fill_buf() {
            Ok(buf) => {
                let len = cap_min(limit, buf.len());
                proof {
                    held.lemma_skip_again(len as nat, (buf@.len() - len) as nat);
                    lemma_limit_step(held, left, len as nat);
                    assert(buf@.take(len as int) =~= held.first(len as nat));
                }
                Ok(&buf[0..len])
            },
            Err(e) => Err(e),
        }
    }

    fn consume(&mut self, amt: usize)
        ensures
            final(self).left() == old(self).left() - amt,
    {
        let ghost held = old(self).inner().content();
        let ghost left = old(self).left() as nat;
        proof {
            assert((*old(self)).content() == held.limit(left));
            assert((*old(self)).read_reliable() == old(self).inner().read_reliable());
            assert(held.limit(left).first(amt as nat).len() == amt) by {
                held.limit(left).lemma_skip_again(amt as nat, 0);
            }
            assert(held.holds(amt as nat) && amt <= left);
            lemma_limit_step(held, left, amt as nat);
        }
        let amt = cap_min(self.limit, amt);
        self.limit = self.limit - amt as u64;
        self.inner.consume(amt);
    }
}

/// How many bytes [`stack_copy`] moves at a time.
pub const DEFAULT_STACK_BUFFER_SIZE: usize = 512;

/// Reads `read` to its end and writes every byte to `write`. Returns how many
/// bytes were moved.
///
/// An interruption of the reader is answered by reading again. The copy stops
/// at the first other error of the reader, and at the first failure to write
/// all that was read.
pub fn stack_copy<R, W>(read: &mut R, write: &mut W) -> (ret: Result<u64, Error>) where
    R: Read + ?Sized,
    W: Write + ?Sized,

    requires
        (*old(read)).content() is Finite,
        (*old(read)).content()->Finite_0.len() <= u64::MAX,
    ensures
        ret matches Err(e) ==> !e.interrupted(),
        (*final(read)).read_reliable() == (*old(read)).read_reliable(),
        (*final(read)).read_stalls() <= (*old(read)).read_stalls(),
        (*final(write)).write_reliable() == (*old(write)).write_reliable(),
        (*final(write)).write_stalls() <= (*old(write)).write_stalls(),
        (*old(read)).read_reliable() && (*old(write)).write_reliable() ==> (ret is Ok <==> room_for(
            (*old(write)).room(),
            (*old(read)).content()->Finite_0.len(),
        )),
        match ret {
            Ok(n) => {
                &&& n == (*old(read)).content()->Finite_0.len()
                &&& (*final(read)).content() == (*old(read)).content().skip(n as nat)
                &&& (*final(read)).origin() == moved_on((*old(read)).origin(), n as nat)
                &&& lawful::<W>() ==> (*old(write)).accepts((*old(read)).content()->Finite_0, &*final(write))
                &&& room_for((*old(write)).room(), n as nat)
                &&& (*final(write)).room() == room_after((*old(write)).room(), n as nat)
            },
            Err(e) => exists|taken: nat, passed: nat|
                {
                    &&& passed <= taken <= (*old(read)).content()->Finite_0.len()
                    &&& (*final(read)).content() == #[trigger] (*old(read)).content().skip(taken)
                    &&& lawful::<W>() ==> (*old(write)).accepts(
                        #[trigger] (*old(read)).content()->Finite_0.take(passed as int),
                        &*final(write),
                    )
                },
        },
{
    let ghost all = (*old(read)).content()->Finite_0;
    let mut written: u64 = 0;
    let mut buffer = [0u8; DEFAULT_STACK_BUFFER_SIZE];
    proof {
        (*old(read)).content().lemma_skip_none();
        if lawful::<W>() {
            assert((*old(write)).accepts(Seq::empty(), &*old(write))) by {
                reveal(lawful);
            }
        }
        assert(all.take(0) =~= Seq::<u8>::empty());
    }
    loop
        invariant
            (*old(read)).content() == Content::Finite(all),
            all.len() <= u64::MAX,
            written <= all.len(),
            (*read).content() == (*old(read)).content().skip(written as nat),
            (*read).origin() == moved_on((*old(read)).origin(), written as nat),
            (*read).read_reliable() == (*old(read)).read_reliable(),
            (*read).read_stalls() <= (*old(read)).read_stalls(),
            (*write).write_reliable() == (*old(write)).write_reliable(),
            (*write).write_stalls() <= (*old(write)).write_stalls(),
            lawful::<W>() ==> (*old(write)).accepts(all.take(written as int), &*write),
            room_for((*old(write)).room(), written as nat),
            (*write).room() == room_after((*old(write)).room(), written as nat),
        decreases all.len() - written, (*read).read_stalls(),
    {
        let got = read.read(&mut buffer);
        proof {
            (*old(read)).content().lemma_skip_again(written as nat, 1);
        }
        let len = match after_transfer(got) {
            Step::Done => {
                proof {
                    (*old(read)).content().skip(written as nat).lemma_skip_none();
                    assert(all.take(written as int) =~= all);
                }
                return Ok(written);
            },
            Step::Advance(n) => n,
            Step::Retry => {
                continue ;
            },
            Step::Fail(e) => {
                assert((*old(read)).content().skip(written as nat) == (*read).content());
                return Err(e);
            },
        };
        let ghost before: &W = &*write;
        let ghost chunk = all.skip(written as int).take(len as int);
        proof {
            (*old(read)).content().lemma_skip_again(written as nat, len as nat);
            assert(buffer@.take(len as int) =~= chunk);
            assert(all.take(written as int) + chunk =~= all.take(written + len));
        }
        let passed = write.write_all(&buffer.as_slice()[0..len]);
        match passed {
            Ok(_) => {
                proof {
                    if lawful::<W>() {
                        assert(before.accepts(chunk, &*write)) by {
                            reveal(lawful);
                        }
                        assert((*old(write)).accepts(all.take(written as int) + chunk, &*write)) by {
                            reveal(lawful);
                        }
                    }
                }
                written = written + len as u64;
            },
            Err(e) => {
                proof {
                    reveal(lawful);
                    let k = choose|k: nat|
                        {
                            &&& k < chunk.len()
                            &&& room_for(before.room(), k)
                            &&& (*write).room() == #[trigger] room_after(before.room(), k)
                            &&& lawful::<W>() ==> before.accepts(chunk.take(k as int), &*write)
                        };
                    if lawful::<W>() {
                        assert(before.accepts(chunk.take(k as int), &*write)) by {
                            reveal(lawful);
                        }
                        assert((*old(write)).accepts(
                            all.take(written as int) + chunk.take(k as int),
                            &*write,
                        )) by {
                            reveal(lawful);
                        }
                    }
                    assert(all.take(written as int) + chunk.take(k as int) =~= all.take(written + k));
                    assert((*old(read)).content().skip((written + len) as nat) == (*read).content());
                }
                return Err(e);
            },
        }
    }
}

} // verus!
