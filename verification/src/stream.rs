//! The traits that describe a stream: [`Read`], [`BufRead`], [`Seek`] and [`Write`].
use vstd::prelude::*;
use vstd::utf8::{decode_utf8, valid_utf8};
use crate::collect::{runs_to, GROWTH};
use crate::content::Content;
use crate::error::{Error, ErrorKind};
use crate::step::{after_fill, after_transfer, Scan, Step};

verus! {

/// Where a source that stood at `origin` stands once it has delivered `n`
/// bytes.
pub open spec fn moved_on<T: ?Sized>(origin: Option<(Box<T>, nat)>, n: nat) -> Option<(Box<T>, nat)> {
    match origin {
        Some((start, at)) => Some((start, at + n)),
        None => None,
    }
}

/// The start of a source that stands at `origin`.
pub open spec fn start_of<T: ?Sized>(origin: Option<(Box<T>, nat)>) -> Option<Box<T>> {
    match origin {
        Some((start, _)) => Some(start),
        None => None,
    }
}

/// How many bytes into itself a source is that stands at `origin`.
pub open spec fn place_of<T: ?Sized>(origin: Option<(Box<T>, nat)>) -> Option<nat> {
    match origin {
        Some((_, at)) => Some(at),
        None => None,
    }
}

/// Where a source with the start `start` stands once it is `at` bytes into
/// itself.
pub open spec fn based<T: ?Sized>(start: Option<Box<T>>, at: nat) -> Option<(Box<T>, nat)> {
    match start {
        Some(start) => Some((start, at)),
        None => None,
    }
}

/// Where a source that stands at `origin` stands once it is put `at` bytes
/// into itself.
pub open spec fn put_at<T: ?Sized>(origin: Option<(Box<T>, nat)>, at: nat) -> Option<(Box<T>, nat)> {
    based(start_of(origin), at)
}

/// A source of bytes.
///
/// A source is modelled by the [`Content`] that it has yet to deliver. Reading
/// hands out a leading part of the content and leaves the rest. A read may be
/// interrupted, which [`read_stalls`](Read::read_stalls) bounds; a source that
/// is not [reliable](Read::read_reliable) may also fail in any other way, at
/// any time. A read that fails leaves the content as it was.
pub trait Read {
    /// The bytes that this source has yet to deliver. Where a source does not
    /// say, it is taken to hold none.
    open spec fn content(&self) -> Content {
        Content::Finite(Seq::empty())
    }

    /// Whether this source reports no error but an interruption: it may stall,
    /// and then it goes on. A reliable source with no stall left does not fail
    /// at all. Where a source does not say, it is taken to report any error.
    open spec fn read_reliable(&self) -> bool {
        false
    }

    /// A bound on how often this source may still report an interruption.
    open spec fn read_stalls(&self) -> nat {
        0
    }

    /// How many bytes a read into a buffer of `want` bytes delivers, where the
    /// source fixes that; `None` where the count is up to the source.
    open spec fn delivers(&self, want: nat) -> Option<nat> {
        None
    }

    /// Where this source stands: the source as it is at its start, and how
    /// many bytes into itself it is; `None` where the source does not say.
    /// Reading moves a source on by the bytes it delivers, and changes nothing
    /// else of where it stands.
    open spec fn origin(&self) -> Option<(Box<Self>, nat)> {
        None
    }

    /// Moves bytes from the front of the source into the front of `buf` and
    /// returns how many were moved. The count is zero only where `buf` is empty
    /// or the source is at its end, and it is the one that
    /// [`delivers`](Read::delivers) gives where the source fixes it.
    fn read(&mut self, buf: &mut [u8]) -> (r: Result<usize, Error>)
        ensures
            final(buf)@.len() == old(buf)@.len(),
            (*old(self)).delivers(old(buf)@.len()) matches Some(k) ==> r is Ok && r->Ok_0 == k,
            (*final(self)).read_reliable() == (*old(self)).read_reliable(),
            (*final(self)).read_stalls() <= (*old(self)).read_stalls(),
            match r {
                Ok(n) => {
                    &&& n <= old(buf)@.len()
                    &&& (*old(self)).content().holds(n as nat)
                    &&& final(buf)@ == (*old(self)).content().first(n as nat) + old(buf)@.skip(n as int)
                    &&& (*final(self)).content() == (*old(self)).content().skip(n as nat)
                    &&& (*final(self)).origin() == moved_on((*old(self)).origin(), n as nat)
                    &&& n == 0 ==> old(buf)@.len() == 0 || (*old(self)).content().exhausted()
                },
                Err(e) => {
                    &&& (*old(self)).read_reliable() ==> e.interrupted()
                    &&& (*final(self)).content() == (*old(self)).content()
                    &&& (*final(self)).origin() == (*old(self)).origin()
                    &&& e.interrupted() ==> (*final(self)).read_stalls() < (*old(self)).read_stalls()
                },
            },
    ;

    /// Fills all of `buf` from the source, reading again after an interruption.
    ///
    /// Fails with [`ErrorKind::UnexpectedEof`] where the source ends first, and
    /// with the source's own error where it reports any other than an
    /// interruption.
    fn read_exact(&mut self, buf: &mut [u8]) -> (r: Result<(), Error>)
        ensures
            r matches Err(e) ==> !e.interrupted(),
            final(buf)@.len() == old(buf)@.len(),
            (*final(self)).read_reliable() == (*old(self)).read_reliable(),
            (*final(self)).read_stalls() <= (*old(self)).read_stalls(),
            match r {
                Ok(_) => {
                    &&& (*old(self)).content().holds(old(buf)@.len())
                    &&& final(buf)@ == (*old(self)).content().first(old(buf)@.len())
                    &&& (*final(self)).content() == (*old(self)).content().skip(old(buf)@.len())
                    &&& (*final(self)).origin() == moved_on((*old(self)).origin(), old(buf)@.len())
                },
                Err(e) => {
                    &&& exists|k: nat|
                        {
                            &&& k < old(buf)@.len()
                            &&& #[trigger] (*old(self)).content().skip(k) == (*final(self)).content()
                            &&& (*final(self)).origin() == moved_on((*old(self)).origin(), k)
                        }
                    &&& (*old(self)).read_reliable() ==> e@ == ErrorKind::UnexpectedEof && !(*old(self)).content().holds(old(buf)@.len())
                },
            },
    {
        let len = buf.len();
        let mut off: usize = 0;
        proof {
            (*old(self)).content().lemma_skip_none();
            assert(buf@.take(0) =~= Seq::<u8>::empty());
        }
        while off < len
            invariant
                off <= len,
                len == buf@.len(),
                len == old(buf)@.len(),
                (*old(self)).content().holds(off as nat),
                buf@.take(off as int) == (*old(self)).content().first(off as nat),
                (*self).content() == (*old(self)).content().skip(off as nat),
                (*self).origin() == moved_on((*old(self)).origin(), off as nat),
                (*self).read_reliable() == (*old(self)).read_reliable(),
                (*self).read_stalls() <= (*old(self)).read_stalls(),
            decreases len - off, (*self).read_stalls(),
        {
            let ghost before = buf@;
            let (head, tail) = buf.split_at_mut(off);
            let got = self.read(tail);
            proof {
                (*old(self)).content().lemma_skip_again(off as nat, 1);
                assert(buf@.take(off as int) =~= before.take(off as int));
            }
            match after_transfer(got) {
                Step::Done => {
                    proof {
                        (*old(self)).content().skip(off as nat).lemma_skip_none();
                        if (*old(self)).content().holds(len as nat) {
                            (*old(self)).content().lemma_skip_again(off as nat, (len - off) as nat);
                            (*old(self)).content().skip(off as nat).lemma_skip_again(1, (len - off - 1) as nat);
                        }
                    }
                    return Err(Error::from_kind(ErrorKind::UnexpectedEof));
                },
                Step::Advance(n) => {
                    proof {
                        (*old(self)).content().lemma_skip_again(off as nat, n as nat);
                        assert(buf@.take(off + n) =~= before.take(off as int)
                            + (*old(self)).content().skip(off as nat).first(n as nat));
                    }
                    off = off + n;
                },
                Step::Retry => {},
                Step::Fail(e) => {
                    return Err(e);
                },
            }
        }
        assert(buf@.take(off as int) =~= buf@);
        Ok(())
    }

    /// Reads the source to its end and appends every byte to `buf`. Returns
    /// how many bytes were appended.
    ///
    /// An interruption is answered by reading again. On any other error of the
    /// source the bytes read so far stay in `buf`.
    fn read_to_end(&mut self, buf: &mut Vec<u8>) -> (ret: Result<usize, Error>)
        requires
            (*old(self)).content() is Finite,
            old(buf)@.len() + (*old(self)).content()->Finite_0.len() + GROWTH <= usize::MAX,
        ensures
            ret matches Err(e) ==> !e.interrupted(),
            (*final(self)).read_reliable() == (*old(self)).read_reliable(),
            (*final(self)).read_stalls() <= (*old(self)).read_stalls(),
            (*old(self)).read_reliable() ==> ret is Ok,
            match ret {
                Ok(n) => {
                    &&& n == (*old(self)).content()->Finite_0.len()
                    &&& final(buf)@ == old(buf)@ + (*old(self)).content()->Finite_0
                    &&& (*final(self)).content() == (*old(self)).content().skip(n as nat)
                    &&& (*final(self)).origin() == moved_on((*old(self)).origin(), n as nat)
                },
                Err(e) => exists|k: nat|
                    {
                        &&& k <= (*old(self)).content()->Finite_0.len()
                        &&& final(buf)@ == old(buf)@ + #[trigger] (*old(self)).content().first(k)
                        &&& (*final(self)).content() == (*old(self)).content().skip(k)
                        &&& (*final(self)).origin() == moved_on((*old(self)).origin(), k)
                    },
            },
    {
        let ghost all = (*old(self)).content()->Finite_0;
        let start_len = buf.len();
        let mut len = start_len;
        proof {
            (*old(self)).content().lemma_skip_none();
            assert(buf@.take(len as int) =~= old(buf)@ + (*old(self)).content().first(0));
        }
        loop
            invariant
                (*old(self)).content() == Content::Finite(all),
                old(buf)@.len() + all.len() + GROWTH <= usize::MAX,
                start_len == old(buf)@.len(),
                start_len <= len <= buf@.len(),
                len - start_len <= all.len(),
                buf@.take(len as int) == old(buf)@ + (*old(self)).content().first((len - start_len) as nat),
                (*self).content() == (*old(self)).content().skip((len - start_len) as nat),
                (*self).origin() == moved_on((*old(self)).origin(), (len - start_len) as nat),
                (*self).read_reliable() == (*old(self)).read_reliable(),
                (*self).read_stalls() <= (*old(self)).read_stalls(),
            decreases all.len() - (len - start_len), (*self).read_stalls(),
        {
            let ghost done = (len - start_len) as nat;
            if buf.len() == len {
                buf.reserve(GROWTH);
                let cap = crate::collect::capacity(buf);
                let grown = if cap > len {
                    cap
                } else {
                    len + GROWTH
                };
                let ghost before = buf@;
                buf.resize(grown, 0);
                assert(buf@.take(len as int) =~= before.take(len as int));
            }
            let ghost held = buf@;
            let (head, tail) = buf.as_mut_slice().split_at_mut(len);
            let got = self.read(tail);
            proof {
                assert(buf@.take(len as int) =~= held.take(len as int));
                (*old(self)).content().lemma_skip_again(done, 1);
            }
            match after_transfer(got) {
                Step::Done => {
                    buf.truncate(len);
                    proof {
                        (*old(self)).content().skip(done).lemma_skip_none();
                        assert((*old(self)).content().first(done) =~= all);
                    }
                    return Ok(len - start_len);
                },
                Step::Advance(n) => {
                    proof {
                        (*old(self)).content().lemma_skip_again(done, n as nat);
                        assert(buf@.take(len + n) =~= held.take(len as int) + (*old(self)).content().skip(
                            done,
                        ).first(n as nat));
                        assert(old(buf)@ + (*old(self)).content().first(done) + (*old(self)).content().skip(
                            done,
                        ).first(n as nat) =~= old(buf)@ + (*old(self)).content().first(done + n as nat));
                    }
                    len = len + n;
                },
                Step::Retry => {},
                Step::Fail(e) => {
                    buf.truncate(len);
                    return Err(e);
                },
            }
        }
    }

    /// Reads the source to its end and appends the text that it holds to
    /// `buf`. Returns how many bytes were read.
    ///
    /// Where the bytes read are not valid UTF-8, `buf` stays as it was and the
    /// error is [`ErrorKind::InvalidData`], unless the source failed first.
    fn read_to_string(&mut self, buf: &mut String) -> (ret: Result<usize, Error>)
        requires
            (*old(self)).content() is Finite,
            (*old(self)).content()->Finite_0.len() + GROWTH <= usize::MAX,
        ensures
            ret matches Err(e) ==> !e.interrupted(),
            (*final(self)).read_reliable() == (*old(self)).read_reliable(),
            (*final(self)).read_stalls() <= (*old(self)).read_stalls(),
            (*old(self)).read_reliable() ==> (*final(self)).content() == (*old(self)).content().skip(
                (*old(self)).content()->Finite_0.len(),
            ),
            (*old(self)).read_reliable() ==> (ret is Ok <==> valid_utf8((*old(self)).content()->Finite_0)),
            match ret {
                Ok(n) => {
                    &&& n == (*old(self)).content()->Finite_0.len()
                    &&& valid_utf8((*old(self)).content()->Finite_0)
                    &&& final(buf)@ == old(buf)@ + decode_utf8((*old(self)).content()->Finite_0)
                    &&& (*final(self)).content() == (*old(self)).content().skip(n as nat)
                    &&& (*final(self)).origin() == moved_on((*old(self)).origin(), n as nat)
                },
                Err(e) => (*old(self)).read_reliable() ==> e@ == ErrorKind::InvalidData && final(buf)@
                    == old(buf)@,
            },
    {
        let mut bytes: Vec<u8> = Vec::new();
        let ret = self.read_to_end(&mut bytes);
        proof {
            if ret is Ok {
                assert(bytes@ =~= (*old(self)).content()->Finite_0);
            }
        }
        crate::collect::append_to_string(buf, bytes.as_slice(), ret)
    }
}

/// A source that hands out its own buffer of bytes to read from.
pub trait BufRead: Read {
    /// Returns the bytes that can be had without reading further: a leading
    /// part of the content, empty only at the end of the source. The content
    /// stays as it was until [`consume`](BufRead::consume) takes from it.
    fn fill_buf(&mut self) -> (r: Result<&[u8], Error>)
        ensures
            (*final(self)).content() == (*old(self)).content(),
            (*final(self)).origin() == (*old(self)).origin(),
            (*final(self)).read_reliable() == (*old(self)).read_reliable(),
            (*final(self)).read_stalls() <= (*old(self)).read_stalls(),
            match r {
                Ok(bytes) => {
                    &&& (*old(self)).content().holds(bytes@.len())
                    &&& bytes@ == (*old(self)).content().first(bytes@.len())
                    &&& bytes@.len() == 0 ==> (*old(self)).content().exhausted()
                },
                Err(e) => {
                    &&& (*old(self)).read_reliable() ==> e.interrupted()
                    &&& e.interrupted() ==> (*final(self)).read_stalls() < (*old(self)).read_stalls()
                },
            },
    ;

    /// Drops the first `amt` bytes of the content, which the caller has taken
    /// from the buffer.
    fn consume(&mut self, amt: usize)
        requires
            (*old(self)).content().holds(amt as nat),
        ensures
            (*final(self)).content() == (*old(self)).content().skip(amt as nat),
            (*final(self)).origin() == moved_on((*old(self)).origin(), amt as nat),
            (*final(self)).read_reliable() == (*old(self)).read_reliable(),
            (*final(self)).read_stalls() <= (*old(self)).read_stalls(),
    ;

    /// Reads up to and with the first `byte`, or to the end of the source
    /// where there is none, and appends what was read to `buf`. Returns how
    /// many bytes were appended.
    ///
    /// An interruption is answered by reading again. On any other error of the
    /// source the bytes read so far stay in `buf`.
    fn read_until(&mut self, byte: u8, buf: &mut Vec<u8>) -> (ret: Result<usize, Error>)
        requires
            (*old(self)).content() is Finite,
            (*old(self)).content()->Finite_0.len() <= usize::MAX,
        ensures
            ret matches Err(e) ==> !e.interrupted(),
            (*final(self)).read_reliable() == (*old(self)).read_reliable(),
            (*final(self)).read_stalls() <= (*old(self)).read_stalls(),
            (*old(self)).read_reliable() ==> ret is Ok,
            match ret {
                Ok(n) => {
                    &&& runs_to((*old(self)).content()->Finite_0, byte, n as nat)
                    &&& final(buf)@ == old(buf)@ + (*old(self)).content()->Finite_0.take(n as int)
                    &&& (*final(self)).content() == (*old(self)).content().skip(n as nat)
                    &&& (*final(self)).origin() == moved_on((*old(self)).origin(), n as nat)
                },
                Err(e) => exists|k: nat|
                    {
                        &&& k <= (*old(self)).content()->Finite_0.len()
                        &&& forall|i: int| 0 <= i < k ==> (*old(self)).content()->Finite_0[i] != byte
                        &&& final(buf)@ == old(buf)@ + #[trigger] (*old(self)).content().first(k)
                        &&& (*final(self)).content() == (*old(self)).content().skip(k)
                        &&& (*final(self)).origin() == moved_on((*old(self)).origin(), k)
                    },
            },
    {
        let ghost all = (*old(self)).content()->Finite_0;
        let mut read: usize = 0;
        proof {
            (*old(self)).content().lemma_skip_none();
            assert(buf@ =~= old(buf)@ + all.take(0));
        }
        loop
            invariant
                (*old(self)).content() == Content::Finite(all),
                all.len() <= usize::MAX,
                read <= all.len(),
                forall|i: int| 0 <= i < read ==> all[i] != byte,
                buf@ == old(buf)@ + all.take(read as int),
                (*self).content() == (*old(self)).content().skip(read as nat),
                (*self).origin() == moved_on((*old(self)).origin(), read as nat),
                (*self).read_reliable() == (*old(self)).read_reliable(),
                (*self).read_stalls() <= (*old(self)).read_stalls(),
            decreases all.len() - read, (*self).read_stalls(),
        {
            let ghost rest = all.skip(read as int);
            let got = self.fill_buf();
            let ghost seen = got;
            let (part, last) = match after_fill(got, byte) {
                Scan::Take(part, last) => (part, last),
                Scan::Done => {
                    self.consume(0);
                    proof {
                        (*old(self)).content().lemma_skip_again(read as nat, 0);
                        (*old(self)).content().lemma_skip_again(read as nat, 1);
                    }
                    return Ok(read);
                },
                Scan::Retry => {
                    continue ;
                },
                Scan::Fail(e) => {
                    assert((*old(self)).content().first(read as nat) == all.take(read as int));
                    return Err(e);
                },
            };
            let ghost available = seen->Ok_0@;
            let used = part.len();
            assert(available == rest.take(available.len() as int));
            crate::collect::append_bytes(buf, part);
            proof {
                (*old(self)).content().lemma_skip_again(read as nat, used as nat);
                assert(available.take(used as int) =~= rest.take(used as int));
                assert(all.take(read as int) + rest.take(used as int) =~= all.take(read + used));
                assert(buf@ =~= old(buf)@ + all.take(read + used));
                let clear = if last { read + used - 1 } else { read + used };
                assert forall|j: int| 0 <= j < clear implies all[j] != byte by {
                    if j >= read {
                        assert(available[j - read] == all[j]);
                    }
                }
                assert(available[used - 1] == all[read + used - 1]);
            }
            self.consume(used);
            read = read + used;
            if last {
                return Ok(read);
            }
        }
    }

    /// Reads up to and with the next line feed, or to the end of the source
    /// where there is none, and appends the text read to `buf`. Returns how
    /// many bytes were read.
    ///
    /// Where the bytes read are not valid UTF-8, `buf` stays as it was and the
    /// error is [`ErrorKind::InvalidData`], unless the source failed first.
    fn read_line(&mut self, buf: &mut String) -> (ret: Result<usize, Error>)
        requires
            (*old(self)).content() is Finite,
            (*old(self)).content()->Finite_0.len() <= usize::MAX,
        ensures
            ret matches Err(e) ==> !e.interrupted(),
            (*final(self)).read_reliable() == (*old(self)).read_reliable(),
            (*final(self)).read_stalls() <= (*old(self)).read_stalls(),
            (*old(self)).read_reliable() ==> exists|n: nat|
                {
                    &&& #[trigger] runs_to((*old(self)).content()->Finite_0, 0x0a, n)
                    &&& (*final(self)).content() == (*old(self)).content().skip(n)
                    &&& ret is Ok <==> valid_utf8((*old(self)).content()->Finite_0.take(n as int))
                },
            match ret {
                Ok(n) => {
                    &&& runs_to((*old(self)).content()->Finite_0, 0x0a, n as nat)
                    &&& valid_utf8((*old(self)).content()->Finite_0.take(n as int))
                    &&& final(buf)@ == old(buf)@ + decode_utf8(
                        (*old(self)).content()->Finite_0.take(n as int),
                    )
                    &&& (*final(self)).content() == (*old(self)).content().skip(n as nat)
                    &&& (*final(self)).origin() == moved_on((*old(self)).origin(), n as nat)
                },
                Err(e) => (*old(self)).read_reliable() ==> e@ == ErrorKind::InvalidData && final(buf)@
                    == old(buf)@,
            },
    {
        let mut bytes: Vec<u8> = Vec::new();
        let ret = self.read_until(0x0a, &mut bytes);
        proof {
            if let Ok(n) = ret {
                assert(bytes@ =~= (*old(self)).content()->Finite_0.take(n as int));
                assert(runs_to((*old(self)).content()->Finite_0, 0x0a, n as nat));
            }
        }
        crate::collect::append_to_string(buf, bytes.as_slice(), ret)
    }
}

/// Where to move to in a stream.
#[derive(Clone, Copy, Debug, PartialEq, Eq, Structural)]
pub enum SeekFrom {
    /// This many bytes from the start.
    Start(u64),
    /// This many bytes from the end, backwards where negative.
    End(i64),
    /// This many bytes from the current position, backwards where negative.
    Current(i64),
}

/// A stream with a position that can be moved.
pub trait Seek {
    /// The offset at which a seek to `pos` arrives, `None` where the stream
    /// refuses it. The current position is `landing(SeekFrom::Current(0))`.
    open spec fn landing(&self, pos: SeekFrom) -> Option<u64> {
        None
    }

    /// Whether this stream refuses a seek only where it has no landing. Where
    /// a stream does not say, it is taken to refuse as it likes.
    open spec fn seek_reliable(&self) -> bool {
        false
    }

    /// Whether a stream in this state is in the state `after` once it has
    /// moved to `pos` and arrived at `at`. Where a stream does not say, any
    /// state may follow.
    open spec fn lands(&self, pos: SeekFrom, at: u64, after: &Self) -> bool {
        true
    }

    /// Moves to `pos` and returns the new position, counted from the start.
    fn seek(&mut self, pos: SeekFrom) -> (r: Result<u64, Error>)
        ensures
            final(self).seek_reliable() == old(self).seek_reliable(),
            match r {
                Ok(at) => {
                    &&& old(self).landing(pos) == Some(at)
                    &&& final(self).landing(SeekFrom::Current(0)) == Some(at)
                    &&& old(self).lands(pos, at, &*final(self))
                },
                Err(e) => {
                    &&& final(self).landing(SeekFrom::Current(0)) == old(self).landing(SeekFrom::Current(0))
                    &&& old(self).seek_reliable() ==> old(self).landing(pos) is None && e@
                        == ErrorKind::InvalidInput
                },
            },
    ;

    /// Returns the current position, counted from the start.
    fn stream_position(&mut self) -> (r: Result<u64, Error>)
        ensures
            final(self).seek_reliable() == old(self).seek_reliable(),
            match r {
                Ok(at) => {
                    &&& old(self).landing(SeekFrom::Current(0)) == Some(at)
                    &&& final(self).landing(SeekFrom::Current(0)) == Some(at)
                    &&& old(self).lands(SeekFrom::Current(0), at, &*final(self))
                },
                Err(e) => {
                    &&& final(self).landing(SeekFrom::Current(0)) == old(self).landing(SeekFrom::Current(0))
                    &&& old(self).seek_reliable() ==> old(self).landing(SeekFrom::Current(0)) is None
                        && e@ == ErrorKind::InvalidInput
                },
            },
    {
        self.seek(SeekFrom::Current(0))
    }
}

/// The room that is left of `room` once `n` bytes have gone in.
pub open spec fn room_after(room: Option<nat>, n: nat) -> Option<nat> {
    match room {
        Some(left) => Some((left - n) as nat),
        None => None,
    }
}

/// Whether `n` bytes fit in `room`.
pub open spec fn room_for(room: Option<nat>, n: nat) -> bool {
    match room {
        Some(left) => n <= left,
        None => true,
    }
}

/// A sink for bytes.
///
/// A sink is modelled by the relation [`accepts`](Write::accepts) between its
/// state before and after it has taken some bytes, and by the
/// [`room`](Write::room) it has left. Writing passes on a leading part of the
/// buffer. A write may be interrupted, which
/// [`write_stalls`](Write::write_stalls) bounds; a sink that is not
/// [reliable](Write::write_reliable) may also fail in any other way, at any
/// time. A write that fails takes nothing.
pub trait Write {
    /// How many more bytes this sink can take, `None` where nothing bounds it.
    open spec fn room(&self) -> Option<nat> {
        None
    }

    /// Whether a sink in this state is in the state `after` once it has taken
    /// `data`. Where a sink does not say, any state may follow.
    open spec fn accepts(&self, data: Seq<u8>, after: &Self) -> bool {
        true
    }

    /// Whether this sink reports no error on a write but an interruption, and
    /// none on a flush: it may stall, and then it goes on. A reliable sink
    /// with no stall left does not fail at all. Where a sink does not say, it
    /// is taken to report any error.
    open spec fn write_reliable(&self) -> bool {
        false
    }

    /// A bound on how often this sink may still report an interruption.
    open spec fn write_stalls(&self) -> nat {
        0
    }

    /// Passes a leading part of `buf` to the sink and returns its length. The
    /// length is zero only where `buf` is empty or the sink is full.
    fn write(&mut self, buf: &[u8]) -> (r: Result<usize, Error>)
        ensures
            (*final(self)).write_reliable() == (*old(self)).write_reliable(),
            (*final(self)).write_stalls() <= (*old(self)).write_stalls(),
            match r {
                Ok(n) => {
                    &&& n <= buf@.len()
                    &&& room_for((*old(self)).room(), n as nat)
                    &&& (*old(self)).accepts(buf@.take(n as int), &*final(self))
                    &&& (*final(self)).room() == room_after((*old(self)).room(), n as nat)
                    &&& n == 0 ==> buf@.len() == 0 || (*old(self)).room() == Some(0nat)
                },
                Err(e) => {
                    &&& (*old(self)).write_reliable() ==> e.interrupted()
                    &&& (*old(self)).accepts(Seq::empty(), &*final(self))
                    &&& (*final(self)).room() == (*old(self)).room()
                    &&& e.interrupted() ==> (*final(self)).write_stalls() < (*old(self)).write_stalls()
                },
            },
    ;

    /// Makes the sink pass on what it holds back. What it has taken stays taken.
    fn flush(&mut self) -> (r: Result<(), Error>)
        ensures
            (*final(self)).write_reliable() == (*old(self)).write_reliable(),
            (*final(self)).write_stalls() <= (*old(self)).write_stalls(),
            (*old(self)).accepts(Seq::empty(), &*final(self)),
            (*final(self)).room() == (*old(self)).room(),
            r is Err ==> !(*old(self)).write_reliable(),
    ;

    /// Passes all of `buf` to the sink, writing again after an interruption.
    ///
    /// Fails with [`ErrorKind::WriteZero`] where the sink is full first, and
    /// with the sink's own error where it reports any other than an
    /// interruption. Where taking bytes obeys the laws of [`lawful`], the sink
    /// has then taken all of `buf`, or on failure a leading part of it.
    #[verifier::loop_isolation(false)]
    fn write_all(&mut self, buf: &[u8]) -> (r: Result<(), Error>)
        ensures
            r matches Err(e) ==> !e.interrupted(),
            (*final(self)).write_reliable() == (*old(self)).write_reliable(),
            (*final(self)).write_stalls() <= (*old(self)).write_stalls(),
            match r {
                Ok(_) => {
                    &&& room_for((*old(self)).room(), buf@.len())
                    &&& (*final(self)).room() == room_after((*old(self)).room(), buf@.len())
                    &&& (forall|a: &Self| #[trigger] a.accepts(Seq::empty(), a)) && (forall|
                        a: &Self,
                        first: Seq<u8>,
                        b: &Self,
                        second: Seq<u8>,
                        c: &Self,
                    |
                        (#[trigger] a.accepts(first, b)) && (#[trigger] b.accepts(second, c))
                            ==> a.accepts(first + second, c)) ==> (*old(self)).accepts(
                        buf@,
                        &*final(self),
                    )
                },
                Err(e) => {
                    &&& exists|k: nat|
                        {
                            &&& k < buf@.len()
                            &&& room_for((*old(self)).room(), k)
                            &&& (*final(self)).room() == #[trigger] room_after((*old(self)).room(), k)
                            &&& (forall|a: &Self| #[trigger] a.accepts(Seq::empty(), a)) && (forall|
                                a: &Self,
                                first: Seq<u8>,
                                b: &Self,
                                second: Seq<u8>,
                                c: &Self,
                            |
                                (#[trigger] a.accepts(first, b)) && (#[trigger] b.accepts(second, c))
                                    ==> a.accepts(first + second, c)) ==> (*old(self)).accepts(
                                buf@.take(k as int),
                                &*final(self),
                            )
                        }
                    &&& (*old(self)).write_reliable() ==> e@ == ErrorKind::WriteZero && !room_for(
                        (*old(self)).room(),
                        buf@.len(),
                    )
                },
            },
    {
        let ghost laws = (forall|a: &Self| #[trigger] a.accepts(Seq::empty(), a)) && (forall|
            a: &Self,
            first: Seq<u8>,
            b: &Self,
            second: Seq<u8>,
            c: &Self,
        |
            (#[trigger] a.accepts(first, b)) && (#[trigger] b.accepts(second, c)) ==> a.accepts(
                first + second,
                c,
            ));
        let len = buf.len();
        let mut off: usize = 0;
        proof {
            assert(buf@.take(0) =~= Seq::<u8>::empty());
            if laws {
                assert((*old(self)).accepts(Seq::empty(), &*old(self)));
            }
        }
        while off < len
            invariant
                off <= len,
                len == buf@.len(),
                room_for((*old(self)).room(), off as nat),
                laws ==> (*old(self)).accepts(buf@.take(off as int), &*self),
                (*self).room() == room_after((*old(self)).room(), off as nat),
                (*self).write_reliable() == (*old(self)).write_reliable(),
                (*self).write_stalls() <= (*old(self)).write_stalls(),
            decreases len - off, (*self).write_stalls(),
        {
            let ghost before: &Self = &*self;
            let got = self.write(&buf[off..len]);
            match after_transfer(got) {
                Step::Done => {
                    let ghost n: usize = 0;
                    proof {
                        assert(buf@.take(off as int) + buf@.subrange(off as int, len as int).take(
                            n as int,
                        ) =~= buf@.take(off + n));
                        if laws {
                            assert((*old(self)).accepts(buf@.take(off as int), before));
                            assert(before.accepts(
                                buf@.subrange(off as int, len as int).take(n as int),
                                &*self,
                            ));
                        }
                    }
                    return Err(Error::from_kind(ErrorKind::WriteZero));
                },
                Step::Advance(n) => {
                    proof {
                        assert(buf@.take(off as int) + buf@.subrange(off as int, len as int).take(
                            n as int,
                        ) =~= buf@.take(off + n));
                        if laws {
                            assert((*old(self)).accepts(buf@.take(off as int), before));
                            assert(before.accepts(
                                buf@.subrange(off as int, len as int).take(n as int),
                                &*self,
                            ));
                        }
                    }
                    off = off + n;
                },
                Step::Retry => {
                    proof {
                        assert(buf@.take(off as int) + Seq::<u8>::empty() =~= buf@.take(off as int));
                        if laws {
                            assert((*old(self)).accepts(buf@.take(off as int), before));
                            assert(before.accepts(Seq::empty(), &*self));
                        }
                    }
                },
                Step::Fail(e) => {
                    proof {
                        assert(buf@.take(off as int) + Seq::<u8>::empty() =~= buf@.take(off as int));
                        if laws {
                            assert((*old(self)).accepts(buf@.take(off as int), before));
                            assert(before.accepts(Seq::empty(), &*self));
                        }
                    }
                    return Err(e);
                },
            }
        }
        assert(buf@.take(off as int) =~= buf@);
        Ok(())
    }
}

/// Whether taking bytes obeys the laws of a sink in the type `W`: a sink that
/// takes nothing may stay as it is, and taking one run of bytes and then
/// another is taking both in a row.
#[verifier::opaque]
pub open spec fn lawful<W: Write + ?Sized>() -> bool {
    &&& forall|a: &W| #[trigger] a.accepts(Seq::empty(), a)
    &&& forall|a: &W, first: Seq<u8>, b: &W, second: Seq<u8>, c: &W|
        (#[trigger] a.accepts(first, b)) && (#[trigger] b.accepts(second, c)) ==> a.accepts(
            first + second,
            c,
        )
}

} // verus!
