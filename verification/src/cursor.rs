//! A position in a buffer of bytes, which is read, written and moved.
use vstd::prelude::*;
use vstd::string::StringSliceAdditionalSpecFns;
use crate::content::Content;
use crate::error::{Error, ErrorKind};
use crate::collect::append_bytes;
use crate::slices::copy_prefix;
use crate::stream::{lawful, BufRead, Read, Seek, SeekFrom, Write};

verus! {

/// A value that lends out the bytes it holds.
pub trait Bytes {
    /// The bytes held.
    spec fn bytes(&self) -> Seq<u8>;

    /// Lends out the bytes held.
    fn as_bytes_ref(&self) -> (s: &[u8])
        ensures
            s@ == self.bytes(),
    ;
}

impl<'a> Bytes for &'a [u8] {
    open spec fn bytes(&self) -> Seq<u8> {
        self@
    }

    fn as_bytes_ref(&self) -> (s: &[u8]) {
        *self
    }
}

impl<'a> Bytes for &'a mut [u8] {
    open spec fn bytes(&self) -> Seq<u8> {
        self@
    }

    fn as_bytes_ref(&self) -> (s: &[u8]) {
        &**self
    }
}

impl Bytes for Vec<u8> {
    open spec fn bytes(&self) -> Seq<u8> {
        self@
    }

    fn as_bytes_ref(&self) -> (s: &[u8]) {
        self.as_slice()
    }
}

impl<'a, T: Bytes> Bytes for &'a mut T {
    open spec fn bytes(&self) -> Seq<u8> {
        (**self).bytes()
    }

    fn as_bytes_ref(&self) -> (s: &[u8]) {
        (**self).as_bytes_ref()
    }
}

impl<'a> Bytes for &'a str {
    open spec fn bytes(&self) -> Seq<u8> {
        self.spec_bytes()
    }

    fn as_bytes_ref(&self) -> (s: &[u8]) {
        self.as_bytes()
    }
}

/// A buffer together with a position in it.
///
/// Reading and writing start at the position and move it on. The position may
/// lie beyond the end of the buffer: nothing is read from there.
#[derive(Clone, Debug, Default, Eq, PartialEq)]
pub struct Cursor<R> {
    /// The buffer.
    pub inner: R,
    /// The position, in bytes from the start of the buffer.
    pub pos: u64,
}

impl<T> Cursor<T> {
    /// The buffer.
    pub open spec fn inner(&self) -> T {
        self.inner
    }

    /// The position, in bytes from the start of the buffer.
    pub open spec fn pos(&self) -> u64 {
        self.pos
    }

    /// A cursor at the start of `inner`.
    pub fn new(inner: T) -> (cursor: Self)
        ensures
            cursor.inner() == inner,
            cursor.pos() == 0,
    {
        Cursor { inner, pos: 0 }
    }

    /// Gives back the buffer.
    pub fn into_inner(self) -> (inner: T)
        ensures
            inner == self.inner(),
    {
        self.inner
    }

    /// Lends out the buffer.
    pub fn get_ref(&self) -> (inner: &T)
        ensures
            *inner == self.inner(),
    {
        &self.inner
    }

    /// Lends out the buffer for change. The position stays where it is.
    pub fn get_mut(&mut self) -> (inner: &mut T)
        ensures
            *inner == old(self).inner(),
            final(self).inner() == *final(inner),
            final(self).pos() == old(self).pos(),
    {
        &mut self.inner
    }

    /// The position, in bytes from the start of the buffer.
    pub fn position(&self) -> (pos: u64)
        ensures
            pos == self.pos(),
    {
        self.pos
    }

    /// Moves to `pos`. The buffer stays as it is.
    pub fn set_position(&mut self, pos: u64)
        ensures
            final(self).pos() == pos,
            final(self).inner() == old(self).inner(),
    {
        self.pos = pos;
    }
}

/// The offset from which a cursor at `pos` reads and writes in a buffer of
/// `len` bytes: the position, or the end where the position lies beyond it.
pub open spec fn clamped(pos: u64, len: nat) -> nat {
    if pos <= len {
        pos as nat
    } else {
        len
    }
}

/// Where a seek to `to` arrives from the position `pos` in a buffer of `len`
/// bytes, `None` where that would lie before the start or beyond what a `u64`
/// holds.
pub open spec fn seek_target(pos: u64, len: nat, to: SeekFrom) -> Option<u64> {
    let target: int = match to {
        SeekFrom::Start(n) => n as int,
        SeekFrom::End(by) => len + by,
        SeekFrom::Current(by) => pos + by,
    };
    if 0 <= target <= u64::MAX {
        Some(target as u64)
    } else {
        None
    }
}

impl<T: Bytes> Cursor<T> {
    /// The bytes from the position to the end of the buffer.
    pub open spec fn ahead(&self) -> Seq<u8> {
        self.inner().bytes().skip(clamped(self.pos(), self.inner().bytes().len()) as int)
    }
}

impl<T: Bytes> Read for Cursor<T> {
    open spec fn content(&self) -> Content {
        Content::Finite(self.ahead())
    }

    open spec fn read_reliable(&self) -> bool {
        true
    }

    open spec fn read_stalls(&self) -> nat {
        0
    }

    open spec fn delivers(&self, want: nat) -> Option<nat> {
        Some(if self.ahead().len() <= want { self.ahead().len() } else { want })
    }

    open spec fn origin(&self) -> Option<(Box<Self>, nat)> {
        Some((Box::new(Cursor { inner: self.inner, pos: 0 }), self.pos as nat))
    }

    fn read(&mut self, buf: &mut [u8]) -> (r: Result<usize, Error>)
        ensures
            r is Ok,
            r->Ok_0 == if old(self).ahead().len() <= old(buf)@.len() {
                old(self).ahead().len()
            } else {
                old(buf)@.len()
            },
            final(self).inner() == old(self).inner(),
            final(self).pos() == old(self).pos() + r->Ok_0,
    {
        let buffer = self.inner.as_bytes_ref();
        let len = buffer.len();
        let start = if self.pos <= len as u64 {
            self.pos as usize
        } else {
            len
        };
        let mut rest: &[u8] = &buffer[start..len];
        assert((*old(self)).delivers(buf@.len()) == Some(
            if old(self).ahead().len() <= buf@.len() {
                old(self).ahead().len()
            } else {
                buf@.len()
            },
        ));
        let got = rest.read(buf);
        match got {
            Ok(n) => {
                self.pos = self.pos + n as u64;
                proof {
                    let all = old(self).inner().bytes();
                    assert(all.skip(start as int).skip(n as int) =~= all.skip(start + n));
                }
                Ok(n)
            },
            Err(e) => Err(e),
        }
    }

    fn read_exact(&mut self, buf: &mut [u8]) -> (r: Result<(), Error>)
        ensures
            r is Ok <==> old(buf)@.len() <= old(self).ahead().len(),
            final(self).inner() == old(self).inner(),
            final(self).pos() == if r is Ok { old(self).pos() + old(buf)@.len() } else { old(self).pos() as int },
    {
        let buffer = self.inner.as_bytes_ref();
        let len = buffer.len();
        let start = if self.pos <= len as u64 {
            self.pos as usize
        } else {
            len
        };
        let mut rest: &[u8] = &buffer[start..len];
        let got = rest.read_exact(buf);
        match got {
            Ok(_) => {
                self.pos = self.pos + buf.len() as u64;
                proof {
                    let all = old(self).inner().bytes();
                    assert(all.skip(start as int).skip(buf@.len() as int) =~= all.skip(start + buf@.len()));
                }
                Ok(())
            },
            Err(e) => {
                proof {
                    (*old(self)).content().lemma_skip_none();
                }
                Err(e)
            },
        }
    }
}

impl<T: Bytes> BufRead for Cursor<T> {
    fn fill_buf(&mut self) -> (r: Result<&[u8], Error>)
        ensures
            r is Ok,
            r->Ok_0@ == old(self).ahead(),
            *final(self) == *old(self),
    {
        let buffer = self.inner.as_bytes_ref();
        let len = buffer.len();
        let start = if self.pos <= len as u64 {
            self.pos as usize
        } else {
            len
        };
        Ok(&buffer[start..len])
    }

    fn consume(&mut self, amt: usize)
        ensures
            final(self).inner() == old(self).inner(),
            final(self).pos() == old(self).pos() + amt,
    {
        proof {
            let all = old(self).inner().bytes();
            let start = clamped(old(self).pos(), all.len());
            assert(all.skip(start as int).skip(amt as int) =~= all.skip(start + amt));
        }
        let len = self.inner.as_bytes_ref().len();
        self.pos = self.pos + amt as u64;
    }
}

impl<T: Bytes> Seek for Cursor<T> {
    open spec fn landing(&self, pos: SeekFrom) -> Option<u64> {
        seek_target(self.pos(), self.inner().bytes().len(), pos)
    }

    open spec fn seek_reliable(&self) -> bool {
        true
    }

    open spec fn lands(&self, pos: SeekFrom, at: u64, after: &Self) -> bool {
        after.inner() == self.inner() && after.pos() == at
    }

    fn seek(&mut self, pos: SeekFrom) -> (r: Result<u64, Error>)
        ensures
            final(self).inner() == old(self).inner(),
            match old(self).landing(pos) {
                Some(at) => r == Ok::<u64, Error>(at) && final(self).pos() == at,
                None => r is Err && final(self).pos() == old(self).pos(),
            },
    {
        let (base_pos, offset) = match pos {
            SeekFrom::Start(n) => {
                self.pos = n;
                return Ok(n);
            },
            SeekFrom::End(n) => (self.inner.as_bytes_ref().len() as u64, n),
            SeekFrom::Current(n) => (self.pos, n),
        };
        match base_pos.checked_add_signed(offset) {
            Some(at) => {
                self.pos = at;
                Ok(at)
            },
            None => Err(Error::from_kind(ErrorKind::InvalidInput)),
        }
    }

    fn stream_position(&mut self) -> (r: Result<u64, Error>)
        ensures
            r == Ok::<u64, Error>(old(self).pos()),
            *final(self) == *old(self),
    {
        Ok(self.pos)
    }
}

/// The buffer `before` with `data` written over it from the offset `at` on.
pub open spec fn overlaid(before: Seq<u8>, at: nat, data: Seq<u8>) -> Seq<u8> {
    before.take(at as int) + data + before.skip((at + data.len()) as int)
}

/// A cursor over a borrowed slice writes over the slice from its position on
/// and stops at the end: the slice never grows.
impl<'a> Write for Cursor<&'a mut [u8]> {
    open spec fn room(&self) -> Option<nat> {
        Some((self.inner()@.len() - clamped(self.pos(), self.inner()@.len())) as nat)
    }

    open spec fn accepts(&self, data: Seq<u8>, after: &Self) -> bool {
        &&& data.len() <= self.inner()@.len() - clamped(self.pos(), self.inner()@.len())
        &&& after.pos() == self.pos() + data.len()
        &&& after.inner()@ == overlaid(
            self.inner()@,
            clamped(self.pos(), self.inner()@.len()),
            data,
        )
    }

    open spec fn write_reliable(&self) -> bool {
        true
    }

    open spec fn write_stalls(&self) -> nat {
        0
    }

    fn write(&mut self, buf: &[u8]) -> (r: Result<usize, Error>)
        ensures
            r is Ok,
            r->Ok_0 == if buf@.len() <= (*old(self)).room()->Some_0 {
                buf@.len()
            } else {
                (*old(self)).room()->Some_0
            },
            final(final(self).inner())@ == final(old(self).inner())@,
    {
        let len = self.inner.len();
        let start = if self.pos <= len as u64 {
            self.pos as usize
        } else {
            len
        };
        let n = if buf.len() <= len - start {
            buf.len()
        } else {
            len - start
        };
        let ghost held = self.inner@;
        let (head, tail) = self.inner.split_at_mut(start);
        copy_prefix(tail, buf, n);
        self.pos = self.pos + n as u64;
        proof {
            assert(self.inner@ =~= overlaid(held, start as nat, buf@.take(n as int)));
        }
        Ok(n)
    }

    fn flush(&mut self) -> (r: Result<(), Error>)
        ensures
            r is Ok,
            *final(self) == *old(self),
    {
        proof {
            let held = self.inner()@;
            assert(overlaid(held, clamped(self.pos(), held.len()), Seq::empty()) =~= held);
        }
        Ok(())
    }

    fn write_all(&mut self, buf: &[u8]) -> (r: Result<(), Error>)
        ensures
            r is Ok <==> buf@.len() <= (*old(self)).room()->Some_0,
            final(final(self).inner())@ == final(old(self).inner())@,
            (*old(self)).accepts(
                if r is Ok {
                    buf@
                } else {
                    buf@.take((*old(self)).room()->Some_0 as int)
                },
                &*final(self),
            ),
    {
        match self.write(buf) {
            Ok(n) => {
                if n < buf.len() {
                    Err(Error::from_kind(ErrorKind::WriteZero))
                } else {
                    assert(buf@.take(n as int) =~= buf@);
                    Ok(())
                }
            },
            Err(e) => Err(e),
        }
    }
}

/// Taking bytes obeys the laws in `Cursor<&mut [u8]>`.
pub proof fn lemma_slice_cursor_lawful<'a>()
    ensures
        lawful::<Cursor<&'a mut [u8]>>(),
{
    reveal(lawful);
    assert forall|a: &Cursor<&'a mut [u8]>| #[trigger] a.accepts(Seq::empty(), a) by {
        let held = a.inner()@;
        let at = clamped(a.pos(), held.len());
        assert(overlaid(held, at, Seq::empty()) =~= held);
    }
    assert forall|a: &Cursor<&'a mut [u8]>, first: Seq<u8>, b: &Cursor<&'a mut [u8]>, second: Seq<u8>, c: &Cursor<&'a mut [u8]>|
        (#[trigger] a.accepts(first, b)) && (#[trigger] b.accepts(second, c)) implies a.accepts(first + second, c) by {
        let held = a.inner()@;
        let at = clamped(a.pos(), held.len());
        let next = clamped(b.pos(), b.inner()@.len());
        assert(b.inner()@.len() == held.len());
        if first.len() == 0 {
            assert(b.inner()@ =~= held);
            assert(first + second =~= second);
        } else {
            assert(next == at + first.len());
            assert(overlaid(overlaid(held, at, first), next, second) =~= overlaid(
                held,
                at,
                first + second,
            ));
        }
    }
}

/// How many bytes a vector may hold.
pub open spec fn vec_limit() -> nat {
    isize::MAX as nat
}

/// How many more bytes a cursor at `pos` may write into a vector.
pub open spec fn vec_room(pos: u64) -> nat {
    if pos <= vec_limit() {
        (vec_limit() - pos) as nat
    } else {
        0
    }
}

/// The vector `before` once `data` has been written at `pos`: filled up with
/// zeros to `pos` where it was shorter, written over from `pos` on, and longer
/// by what did not fit. Writing nothing leaves the vector as it was.
pub open spec fn vec_written(before: Seq<u8>, pos: nat, data: Seq<u8>) -> Seq<u8> {
    if data.len() == 0 {
        before
    } else {
        let padded = if pos > before.len() {
            before + Seq::new((pos - before.len()) as nat, |i: int| 0u8)
        } else {
            before
        };
        if pos + data.len() <= padded.len() {
            overlaid(padded, pos, data)
        } else {
            padded.take(pos as int) + data
        }
    }
}

/// Writing one run of bytes and then the next, where the first ended, is
/// writing both at once.
pub proof fn lemma_vec_written_in_turn(before: Seq<u8>, pos: nat, first: Seq<u8>, second: Seq<u8>)
    ensures
        vec_written(vec_written(before, pos, first), pos + first.len(), second) == vec_written(
            before,
            pos,
            first + second,
        ),
{
    if first.len() == 0 {
        assert(first + second =~= second);
    } else if second.len() == 0 {
        assert(first + second =~= first);
    } else {
        assert(vec_written(vec_written(before, pos, first), pos + first.len(), second)
            =~= vec_written(before, pos, first + second));
    }
}

/// Writes the first bytes of `buf` into `vec` at `*pos`, as many as
/// [`vec_room`] allows, and moves `*pos` behind them. Returns their number.
pub fn vec_write(pos: &mut u64, vec: &mut Vec<u8>, buf: &[u8]) -> (n: usize)
    ensures
        n == if buf@.len() <= vec_room(*old(pos)) { buf@.len() } else { vec_room(*old(pos)) },
        *final(pos) == *old(pos) + n,
        final(vec)@ == vec_written(old(vec)@, *old(pos) as nat, buf@.take(n as int)),
{
    if *pos > isize::MAX as u64 {
        assert(buf@.take(0).len() == 0);
        return 0;
    }
    let room = isize::MAX as usize - *pos as usize;
    let n = if buf.len() <= room {
        buf.len()
    } else {
        room
    };
    if n == 0 {
        assert(buf@.take(0).len() == 0);
        return 0;
    }
    let at = *pos as usize;
    if at > vec.len() {
        let ghost short = vec@;
        vec.resize(at, 0);
        assert(vec@ =~= short + Seq::new((at - short.len()) as nat, |i: int| 0u8));
    }
    let ghost padded = vec@;
    let over = if n <= vec.len() - at {
        n
    } else {
        vec.len() - at
    };
    let (head, tail) = vec.as_mut_slice().split_at_mut(at);
    copy_prefix(tail, buf, over);
    append_bytes(vec, &buf[over..n]);
    *pos = *pos + n as u64;
    proof {
        let data = buf@.take(n as int);
        if at + n <= padded.len() {
            assert(vec@ =~= overlaid(padded, at as nat, data));
        } else {
            assert(vec@ =~= padded.take(at as int) + data);
        }
    }
    n
}

/// A cursor over a vector writes over the vector from its position on and
/// makes it longer where it ends: filled up with zeros to a position beyond
/// its end, and by what is written beyond it.
impl Write for Cursor<Vec<u8>> {
    open spec fn room(&self) -> Option<nat> {
        Some(vec_room(self.pos()))
    }

    open spec fn accepts(&self, data: Seq<u8>, after: &Self) -> bool {
        &&& data.len() <= vec_room(self.pos())
        &&& after.pos() == self.pos() + data.len()
        &&& after.inner()@ == vec_written(self.inner()@, self.pos() as nat, data)
    }

    open spec fn write_reliable(&self) -> bool {
        true
    }

    open spec fn write_stalls(&self) -> nat {
        0
    }

    fn write(&mut self, buf: &[u8]) -> (r: Result<usize, Error>)
        ensures
            r is Ok,
            r->Ok_0 == if buf@.len() <= vec_room(old(self).pos()) {
                buf@.len()
            } else {
                vec_room(old(self).pos())
            },
    {
        let n = vec_write(&mut self.pos, &mut self.inner, buf);
        proof {
            assert((*old(self)).room() == Some(vec_room(old(self).pos())));
            assert((*self).room() == Some(vec_room(self.pos())));
            assert((*self).write_reliable());
            assert((*old(self)).accepts(buf@.take(n as int), &*self));
        }
        Ok(n)
    }

    fn flush(&mut self) -> (r: Result<(), Error>)
        ensures
            r is Ok,
            *final(self) == *old(self),
    {
        proof {
            assert((*self).room() == Some(vec_room(self.pos())));
            assert((*self).write_reliable());
            assert((*self).accepts(Seq::empty(), &*self));
        }
        Ok(())
    }
}

/// Taking bytes obeys the laws in `Cursor<Vec<u8>>`.
pub proof fn lemma_vec_cursor_lawful()
    ensures
        lawful::<Cursor<Vec<u8>>>(),
{
    reveal(lawful);
    assert forall|a: &Cursor<Vec<u8>>| #[trigger] a.accepts(Seq::empty(), a) by {
    }
    assert forall|a: &Cursor<Vec<u8>>, first: Seq<u8>, b: &Cursor<Vec<u8>>, second: Seq<u8>, c: &Cursor<Vec<u8>>|
        (#[trigger] a.accepts(first, b)) && (#[trigger] b.accepts(second, c)) implies a.accepts(first + second, c) by {
        lemma_vec_written_in_turn(a.inner()@, a.pos() as nat, first, second);
    }
}

/// A cursor over a borrowed vector writes as a cursor over a vector does.
impl<'a> Write for Cursor<&'a mut Vec<u8>> {
    open spec fn room(&self) -> Option<nat> {
        Some(vec_room(self.pos()))
    }

    open spec fn accepts(&self, data: Seq<u8>, after: &Self) -> bool {
        &&& data.len() <= vec_room(self.pos())
        &&& after.pos() == self.pos() + data.len()
        &&& after.inner()@ == vec_written(self.inner()@, self.pos() as nat, data)
    }

    open spec fn write_reliable(&self) -> bool {
        true
    }

    open spec fn write_stalls(&self) -> nat {
        0
    }

    fn write(&mut self, buf: &[u8]) -> (r: Result<usize, Error>)
        ensures
            r is Ok,
            r->Ok_0 == if buf@.len() <= vec_room(old(self).pos()) {
                buf@.len()
            } else {
                vec_room(old(self).pos())
            },
            final(final(self).inner())@ == final(old(self).inner())@,
    {
        let n = vec_write(&mut self.pos, self.inner, buf);
        proof {
            assert((*old(self)).room() == Some(vec_room(old(self).pos())));
            assert((*self).room() == Some(vec_room(self.pos())));
            assert((*self).write_reliable());
            assert((*old(self)).accepts(buf@.take(n as int), &*self));
        }
        Ok(n)
    }

    fn flush(&mut self) -> (r: Result<(), Error>)
        ensures
            r is Ok,
            *final(self) == *old(self),
    {
        proof {
            assert((*self).room() == Some(vec_room(self.pos())));
            assert((*self).write_reliable());
            assert((*self).accepts(Seq::empty(), &*self));
        }
        Ok(())
    }

    fn write_all(&mut self, buf: &[u8]) -> (r: Result<(), Error>)
        ensures
            r is Ok <==> buf@.len() <= vec_room(old(self).pos()),
            final(final(self).inner())@ == final(old(self).inner())@,
            (*old(self)).accepts(
                if r is Ok {
                    buf@
                } else {
                    buf@.take(vec_room(old(self).pos()) as int)
                },
                &*final(self),
            ),
    {
        match self.write(buf) {
            Ok(n) => {
                if n < buf.len() {
                    Err(Error::from_kind(ErrorKind::WriteZero))
                } else {
                    assert(buf@.take(n as int) =~= buf@);
                    Ok(())
                }
            },
            Err(e) => Err(e),
        }
    }
}

/// Taking bytes obeys the laws in `Cursor<&mut Vec<u8>>`.
pub proof fn lemma_vec_ref_cursor_lawful<'a>()
    ensures
        lawful::<Cursor<&'a mut Vec<u8>>>(),
{
    reveal(lawful);
    assert forall|a: &Cursor<&'a mut Vec<u8>>| #[trigger] a.accepts(Seq::empty(), a) by {
    }
    assert forall|a: &Cursor<&'a mut Vec<u8>>, first: Seq<u8>, b: &Cursor<&'a mut Vec<u8>>, second: Seq<u8>, c: &Cursor<&'a mut Vec<u8>>|
        (#[trigger] a.accepts(first, b)) && (#[trigger] b.accepts(second, c)) implies a.accepts(first + second, c) by {
        lemma_vec_written_in_turn(a.inner()@, a.pos() as nat, first, second);
    }
}

} // verus!
