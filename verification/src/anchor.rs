//! Capabilities held apart from the stream that has them, and joined to it
//! again at each access.
//!
//! A handle does not keep a reference to its stream's `Seek` or `BufRead`
//! side: the stream may move. It keeps a *descriptor*, which only says how the
//! capability is had from a stream of that type. An accessor is made when the
//! capability is asked for, from the descriptor and a fresh borrow of the
//! stream where it then is.
//!
//! The operations that the stream traits provide on top of reading and writing
//! once stand here a second time, on a descriptor and a borrow
//! ([`read_exact_via`] and the like). The accessors use these: of the traits'
//! own it is not known that the accessor addresses the same borrow afterwards,
//! of these it is.
use vstd::prelude::*;
use crate::collect::{append_bytes, append_to_string, capacity, runs_to, GROWTH};
use crate::content::Content;
use crate::error::{Error, ErrorKind};
use crate::step::{after_fill, after_transfer, Scan, Step};
use crate::stream::{lawful, moved_on, room_after, room_for, BufRead, Read, Seek, SeekFrom, Write};

verus! {

/// `core::any::TypeId`, by which a type is told from every other.
#[verifier::external_type_specification]
#[verifier::external_body]
pub struct ExTypeId(core::any::TypeId);

/// Which optional capabilities have been declared.
#[derive(Clone, Copy, Debug)]
pub struct Declared {
    /// Whether seeking has been declared.
    pub seek: bool,
    /// Whether buffered reading has been declared.
    pub buf: bool,
    /// What identifies the type of the stream, where telling it has been declared.
    pub any: Option<core::any::TypeId>,
}

/// Nothing declared.
pub open spec fn undeclared() -> Declared {
    Declared { seek: false, buf: false, any: None }
}

/// A handle that does not name its stream's type offers the same at all
/// times: every operation on it leaves its table as it was, and so does every
/// sequence of them.
pub proof fn lemma_table_stays(tables: Seq<Declared>, i: int, j: int)
    requires
        0 <= i <= j < tables.len(),
        forall|k: int| 0 <= k < tables.len() - 1 ==> #[trigger] tables[k] == tables[k + 1],
    ensures
        tables[i] == tables[j],
    decreases j - i,
{
    if i < j {
        lemma_table_stays(tables, i, j - 1);
        let k = j - 1;
        assert(tables[k] == tables[k + 1]);
    }
}

/// What a reader shows of its stream: what the stream has yet to deliver,
/// whether it reports no error but an interruption when read, and how often
/// it may still report one.
pub struct Sight {
    /// What the stream has yet to deliver.
    pub content: Content,
    /// Whether the stream reports no error but an interruption when read.
    pub reliable: bool,
    /// A bound on how often the stream may still report an interruption.
    pub stalls: nat,
}

/// What may be asked of a stream at a place in it.
pub enum Query {
    /// Whether a seek to the place given arrives at the offset given, a seek
    /// being refused only for want of a landing if the flag is set.
    Lands(SeekFrom, Option<u64>, bool),
    /// Whether a read into a buffer of that many bytes delivers the count
    /// given, or is free in its count where none is given.
    Serves(nat, Option<nat>),
    /// Whether a seek to the place given that arrives at the offset given
    /// leaves the stream showing what is given, that many bytes into itself,
    /// and, if the flag is set, with the start that it had.
    Moves(SeekFrom, u64, Sight, Option<nat>, bool),
}

/// How a stream of type `R` is read, without a bound on `R`.
pub trait ReadVia<R> {
    /// What `target` has declared, where it is itself a handle that does not
    /// name its stream's type; nothing, where it is a plain stream.
    spec fn declared_of(&self, target: &R) -> Declared;

    /// What `target` has yet to deliver.
    spec fn content_of(&self, target: &R) -> Content;

    /// Whether `target` reports no error but an interruption when read.
    spec fn reliable_of(&self, target: &R) -> bool;

    /// A bound on how often `target` may still report an interruption.
    spec fn stalls_of(&self, target: &R) -> nat;

    /// How many bytes a read of `target` into a buffer of `want` bytes
    /// delivers, where `target` fixes that.
    spec fn delivers_of(&self, target: &R, want: nat) -> Option<nat>;

    /// Where `target` stands, where it says so.
    spec fn origin_of(&self, target: &R) -> Option<(Box<R>, nat)>;

    /// Whether `what` may hold of `target` once it is put `at` bytes into
    /// itself; this where `target` is itself a handle that does not name its
    /// stream's type. Of a plain stream it says nothing. Reading does not
    /// change it.
    spec fn stood_of(&self, target: &R, at: nat, what: Query) -> bool;

    /// Whether `target` shows, where it is, what [`stood_of`](Self::stood_of)
    /// says of that place. Reading does not change it.
    spec fn stands_of(&self, target: &R) -> bool;

    /// Reads from `target` as [`Read::read`] does.
    fn read_on(&self, target: &mut R, buf: &mut [u8]) -> (r: Result<usize, Error>)
        ensures
            self.delivers_of(old(target), old(buf)@.len()) matches Some(k) ==> r is Ok && r->Ok_0
                == k,
            self.declared_of(final(target)) == self.declared_of(old(target)),
            forall|at: nat, what: Query| #[trigger]
                self.stood_of(final(target), at, what) == self.stood_of(
                    old(target),
                    at,
                    what,
                ),
            self.stands_of(old(target)) ==> self.stands_of(final(target)),
            final(buf)@.len() == old(buf)@.len(),
            self.reliable_of(final(target)) == self.reliable_of(old(target)),
            self.stalls_of(final(target)) <= self.stalls_of(old(target)),
            match r {
                Ok(n) => {
                    &&& n <= old(buf)@.len()
                    &&& self.content_of(old(target)).holds(n as nat)
                    &&& final(buf)@ == self.content_of(old(target)).first(n as nat) + old(buf)@.skip(
                        n as int,
                    )
                    &&& self.content_of(final(target)) == self.content_of(old(target)).skip(n as nat)
                    &&& self.origin_of(final(target)) == moved_on(self.origin_of(old(target)), n as nat)
                    &&& n == 0 ==> old(buf)@.len() == 0 || self.content_of(old(target)).exhausted()
                },
                Err(e) => {
                    &&& self.reliable_of(old(target)) ==> e.interrupted()
                    &&& self.content_of(final(target)) == self.content_of(old(target))
                    &&& self.origin_of(final(target)) == self.origin_of(old(target))
                    &&& e.interrupted() ==> self.stalls_of(final(target)) < self.stalls_of(old(target))
                },
            },
    ;
}

/// How a stream of type `R` is read through its buffer, without a bound on `R`.
pub trait BufReadVia<R> {
    /// What `target` has declared, where it is itself a handle that does not
    /// name its stream's type; nothing, where it is a plain stream.
    spec fn declared_of(&self, target: &R) -> Declared;

    /// What `target` has yet to deliver.
    spec fn content_of(&self, target: &R) -> Content;

    /// Whether `target` reports no error but an interruption when read.
    spec fn reliable_of(&self, target: &R) -> bool;

    /// A bound on how often `target` may still report an interruption.
    spec fn stalls_of(&self, target: &R) -> nat;

    /// How many bytes a read of `target` into a buffer of `want` bytes
    /// delivers, where `target` fixes that.
    spec fn delivers_of(&self, target: &R, want: nat) -> Option<nat>;

    /// Where `target` stands, where it says so.
    spec fn origin_of(&self, target: &R) -> Option<(Box<R>, nat)>;

    /// Whether `what` may hold of `target` once it is put `at` bytes into
    /// itself; this where `target` is itself a handle that does not name its
    /// stream's type. Of a plain stream it says nothing. Reading does not
    /// change it.
    spec fn stood_of(&self, target: &R, at: nat, what: Query) -> bool;

    /// Whether `target` shows, where it is, what [`stood_of`](Self::stood_of)
    /// says of that place. Reading does not change it.
    spec fn stands_of(&self, target: &R) -> bool;

    /// Reads from `target` as [`Read::read`] does.
    fn read_on(&self, target: &mut R, buf: &mut [u8]) -> (r: Result<usize, Error>)
        ensures
            self.delivers_of(old(target), old(buf)@.len()) matches Some(k) ==> r is Ok && r->Ok_0
                == k,
            self.declared_of(final(target)) == self.declared_of(old(target)),
            forall|at: nat, what: Query| #[trigger]
                self.stood_of(final(target), at, what) == self.stood_of(
                    old(target),
                    at,
                    what,
                ),
            self.stands_of(old(target)) ==> self.stands_of(final(target)),
            final(buf)@.len() == old(buf)@.len(),
            self.reliable_of(final(target)) == self.reliable_of(old(target)),
            self.stalls_of(final(target)) <= self.stalls_of(old(target)),
            match r {
                Ok(n) => {
                    &&& n <= old(buf)@.len()
                    &&& self.content_of(old(target)).holds(n as nat)
                    &&& final(buf)@ == self.content_of(old(target)).first(n as nat) + old(buf)@.skip(
                        n as int,
                    )
                    &&& self.content_of(final(target)) == self.content_of(old(target)).skip(n as nat)
                    &&& self.origin_of(final(target)) == moved_on(self.origin_of(old(target)), n as nat)
                    &&& n == 0 ==> old(buf)@.len() == 0 || self.content_of(old(target)).exhausted()
                },
                Err(e) => {
                    &&& self.reliable_of(old(target)) ==> e.interrupted()
                    &&& self.content_of(final(target)) == self.content_of(old(target))
                    &&& self.origin_of(final(target)) == self.origin_of(old(target))
                    &&& e.interrupted() ==> self.stalls_of(final(target)) < self.stalls_of(old(target))
                },
            },
    ;

    /// Lends out the buffer of `target` as [`BufRead::fill_buf`] does.
    fn fill_buf_on<'a>(&self, target: &'a mut R) -> (r: Result<&'a [u8], Error>)
        ensures
            self.declared_of(final(target)) == self.declared_of(old(target)),
            forall|at: nat, what: Query| #[trigger]
                self.stood_of(final(target), at, what) == self.stood_of(
                    old(target),
                    at,
                    what,
                ),
            self.stands_of(old(target)) ==> self.stands_of(final(target)),
            self.content_of(final(target)) == self.content_of(old(target)),
            self.origin_of(final(target)) == self.origin_of(old(target)),
            self.reliable_of(final(target)) == self.reliable_of(old(target)),
            self.stalls_of(final(target)) <= self.stalls_of(old(target)),
            match r {
                Ok(bytes) => {
                    &&& self.content_of(old(target)).holds(bytes@.len())
                    &&& bytes@ == self.content_of(old(target)).first(bytes@.len())
                    &&& bytes@.len() == 0 ==> self.content_of(old(target)).exhausted()
                },
                Err(e) => {
                    &&& self.reliable_of(old(target)) ==> e.interrupted()
                    &&& e.interrupted() ==> self.stalls_of(final(target)) < self.stalls_of(old(target))
                },
            },
    ;

    /// Drops bytes from `target` as [`BufRead::consume`] does.
    fn consume_on(&self, target: &mut R, amt: usize)
        requires
            self.content_of(old(target)).holds(amt as nat),
        ensures
            self.declared_of(final(target)) == self.declared_of(old(target)),
            forall|at: nat, what: Query| #[trigger]
                self.stood_of(final(target), at, what) == self.stood_of(
                    old(target),
                    at,
                    what,
                ),
            self.stands_of(old(target)) ==> self.stands_of(final(target)),
            self.content_of(final(target)) == self.content_of(old(target)).skip(amt as nat),
            self.origin_of(final(target)) == moved_on(self.origin_of(old(target)), amt as nat),
            self.reliable_of(final(target)) == self.reliable_of(old(target)),
            self.stalls_of(final(target)) <= self.stalls_of(old(target)),
    ;
}

/// How a stream of type `R` is moved in, without a bound on `R`.
pub trait SeekVia<R> {
    /// What `target` has declared, where it is itself a handle that does not
    /// name its stream's type; nothing, where it is a plain stream.
    spec fn declared_of(&self, target: &R) -> Declared;

    /// Where a seek to `pos` arrives in `target`.
    spec fn landing_of(&self, target: &R, pos: SeekFrom) -> Option<u64>;

    /// Whether `target` refuses a seek only where it has no landing.
    spec fn seek_reliable_of(&self, target: &R) -> bool;

    /// Whether `target` is in the state `after` once it has moved to `pos` and
    /// arrived at `at`.
    spec fn lands_of(&self, target: &R, pos: SeekFrom, at: u64, after: &R) -> bool;

    /// Moves in `target` as [`Seek::seek`] does.
    fn seek_on(&self, target: &mut R, pos: SeekFrom) -> (r: Result<u64, Error>)
        ensures
            self.declared_of(final(target)) == self.declared_of(old(target)),
            self.seek_reliable_of(final(target)) == self.seek_reliable_of(old(target)),
            match r {
                Ok(at) => {
                    &&& self.landing_of(old(target), pos) == Some(at)
                    &&& self.landing_of(final(target), SeekFrom::Current(0)) == Some(at)
                    &&& self.lands_of(old(target), pos, at, final(target))
                },
                Err(e) => {
                    &&& self.landing_of(final(target), SeekFrom::Current(0)) == self.landing_of(
                        old(target),
                        SeekFrom::Current(0),
                    )
                    &&& self.seek_reliable_of(old(target)) ==> self.landing_of(old(target), pos) is None
                        && e@ == crate::error::ErrorKind::InvalidInput
                },
            },
    ;
}

/// How a stream of type `W` is written to, without a bound on `W`.
pub trait WriteVia<W> {
    /// What `target` has declared, where it is itself a handle that does not
    /// name its stream's type; nothing, where it is a plain stream.
    spec fn declared_of(&self, target: &W) -> Declared;

    /// How many more bytes `target` can take.
    spec fn room_of(&self, target: &W) -> Option<nat>;

    /// Whether `target` is in the state `after` once it has taken `data`.
    spec fn accepts_of(&self, target: &W, data: Seq<u8>, after: &W) -> bool;

    /// Whether `target` reports no error but an interruption when written to.
    spec fn reliable_of(&self, target: &W) -> bool;

    /// A bound on how often `target` may still report an interruption.
    spec fn stalls_of(&self, target: &W) -> nat;

    /// Writes to `target` as [`Write::write`] does.
    fn write_on(&self, target: &mut W, buf: &[u8]) -> (r: Result<usize, Error>)
        ensures
            self.declared_of(final(target)) == self.declared_of(old(target)),
            self.reliable_of(final(target)) == self.reliable_of(old(target)),
            self.stalls_of(final(target)) <= self.stalls_of(old(target)),
            match r {
                Ok(n) => {
                    &&& n <= buf@.len()
                    &&& room_for(self.room_of(old(target)), n as nat)
                    &&& self.accepts_of(old(target), buf@.take(n as int), final(target))
                    &&& self.room_of(final(target)) == room_after(self.room_of(old(target)), n as nat)
                    &&& n == 0 ==> buf@.len() == 0 || self.room_of(old(target)) == Some(0nat)
                },
                Err(e) => {
                    &&& self.reliable_of(old(target)) ==> e.interrupted()
                    &&& self.accepts_of(old(target), Seq::empty(), final(target))
                    &&& self.room_of(final(target)) == self.room_of(old(target))
                    &&& e.interrupted() ==> self.stalls_of(final(target)) < self.stalls_of(old(target))
                },
            },
    ;

    /// Flushes `target` as [`Write::flush`] does.
    fn flush_on(&self, target: &mut W) -> (r: Result<(), Error>)
        ensures
            self.declared_of(final(target)) == self.declared_of(old(target)),
            self.reliable_of(final(target)) == self.reliable_of(old(target)),
            self.stalls_of(final(target)) <= self.stalls_of(old(target)),
            self.accepts_of(old(target), Seq::empty(), final(target)),
            self.room_of(final(target)) == self.room_of(old(target)),
            r is Err ==> !self.reliable_of(old(target)),
    ;
}

/// The descriptor of a capability that the stream's own type provides.
pub struct Own;

impl<R: Read> ReadVia<R> for Own {
    open spec fn declared_of(&self, target: &R) -> Declared {
        undeclared()
    }

    open spec fn content_of(&self, target: &R) -> Content {
        target.content()
    }

    open spec fn reliable_of(&self, target: &R) -> bool {
        target.read_reliable()
    }

    open spec fn stalls_of(&self, target: &R) -> nat {
        target.read_stalls()
    }

    open spec fn delivers_of(&self, target: &R, want: nat) -> Option<nat> {
        target.delivers(want)
    }

    open spec fn origin_of(&self, target: &R) -> Option<(Box<R>, nat)> {
        target.origin()
    }

    open spec fn stood_of(&self, target: &R, at: nat, what: Query) -> bool {
        true
    }

    open spec fn stands_of(&self, target: &R) -> bool {
        true
    }

    fn read_on(&self, target: &mut R, buf: &mut [u8]) -> (r: Result<usize, Error>) {
        target.read(buf)
    }
}

impl<R: BufRead> BufReadVia<R> for Own {
    open spec fn declared_of(&self, target: &R) -> Declared {
        undeclared()
    }

    open spec fn content_of(&self, target: &R) -> Content {
        target.content()
    }

    open spec fn reliable_of(&self, target: &R) -> bool {
        target.read_reliable()
    }

    open spec fn stalls_of(&self, target: &R) -> nat {
        target.read_stalls()
    }

    open spec fn delivers_of(&self, target: &R, want: nat) -> Option<nat> {
        target.delivers(want)
    }

    open spec fn origin_of(&self, target: &R) -> Option<(Box<R>, nat)> {
        target.origin()
    }

    open spec fn stood_of(&self, target: &R, at: nat, what: Query) -> bool {
        true
    }

    open spec fn stands_of(&self, target: &R) -> bool {
        true
    }

    fn read_on(&self, target: &mut R, buf: &mut [u8]) -> (r: Result<usize, Error>) {
        target.read(buf)
    }

    fn fill_buf_on<'a>(&self, target: &'a mut R) -> (r: Result<&'a [u8], Error>) {
        target.fill_buf()
    }

    fn consume_on(&self, target: &mut R, amt: usize) {
        target.consume(amt)
    }
}

impl<R: Seek> SeekVia<R> for Own {
    open spec fn declared_of(&self, target: &R) -> Declared {
        undeclared()
    }

    open spec fn landing_of(&self, target: &R, pos: SeekFrom) -> Option<u64> {
        target.landing(pos)
    }

    open spec fn seek_reliable_of(&self, target: &R) -> bool {
        target.seek_reliable()
    }

    open spec fn lands_of(&self, target: &R, pos: SeekFrom, at: u64, after: &R) -> bool {
        target.lands(pos, at, after)
    }

    fn seek_on(&self, target: &mut R, pos: SeekFrom) -> (r: Result<u64, Error>) {
        target.seek(pos)
    }
}

impl<W: Write> WriteVia<W> for Own {
    open spec fn declared_of(&self, target: &W) -> Declared {
        undeclared()
    }

    open spec fn room_of(&self, target: &W) -> Option<nat> {
        target.room()
    }

    open spec fn accepts_of(&self, target: &W, data: Seq<u8>, after: &W) -> bool {
        target.accepts(data, after)
    }

    open spec fn reliable_of(&self, target: &W) -> bool {
        target.write_reliable()
    }

    open spec fn stalls_of(&self, target: &W) -> nat {
        target.write_stalls()
    }

    fn write_on(&self, target: &mut W, buf: &[u8]) -> (r: Result<usize, Error>) {
        target.write(buf)
    }

    fn flush_on(&self, target: &mut W) -> (r: Result<(), Error>) {
        target.flush()
    }
}

/// `TypeId::of`: what identifies the type `T`.
#[verifier::external_body]
pub(crate) fn type_id_of<T: 'static>() -> (id: core::any::TypeId) {
    core::any::TypeId::of::<T>()
}

/// A stream lent out for reading: the mandatory side of a reader.
#[verifier::reject_recursive_types(R)]
pub struct ReadMut<'a, R> {
    /// The stream, where it is now.
    pub target: &'a mut R,
    /// How it is read.
    pub via: &'a Box<dyn ReadVia<R>>,
}

impl<'a, R> ReadMut<'a, R> {
    /// Where the stream stands, where it says so.
    pub open spec fn stands(&self) -> Option<(Box<R>, nat)> {
        self.via.origin_of(&*self.target)
    }
}

impl<'a, R> Read for ReadMut<'a, R> {
    open spec fn content(&self) -> Content {
        self.via.content_of(&*self.target)
    }

    open spec fn read_reliable(&self) -> bool {
        self.via.reliable_of(&*self.target)
    }

    open spec fn read_stalls(&self) -> nat {
        self.via.stalls_of(&*self.target)
    }

    open spec fn delivers(&self, want: nat) -> Option<nat> {
        self.via.delivers_of(&*self.target, want)
    }

    fn read(&mut self, buf: &mut [u8]) -> (r: Result<usize, Error>)
        ensures
            final(self).via == old(self).via,
            *final(final(self).target) == *final(old(self).target),
            match r {
                Ok(n) => final(self).stands() == moved_on(old(self).stands(), n as nat),
                Err(_) => final(self).stands() == old(self).stands(),
            },
    {
        assert((*old(self)).delivers(buf@.len()) == old(self).via.delivers_of(
            &*old(self).target,
            buf@.len(),
        ));
        let r = self.via.read_on(self.target, buf);
        assert((*old(self)).content() == old(self).via.content_of(&*old(self).target));
        assert((*self).content() == self.via.content_of(&*self.target));
        assert((*old(self)).read_stalls() == old(self).via.stalls_of(&*old(self).target));
        assert((*self).read_stalls() == self.via.stalls_of(&*self.target));
        r
    }

    fn read_exact(&mut self, buf: &mut [u8]) -> (r: Result<(), Error>)
        ensures
            final(self).via == old(self).via,
            *final(final(self).target) == *final(old(self).target),
            r is Ok ==> final(self).stands() == moved_on(old(self).stands(), old(buf)@.len()),
    {
        assert((*old(self)).content() == old(self).via.content_of(&*old(self).target));
        assert((*old(self)).read_reliable() == old(self).via.reliable_of(&*old(self).target));
        read_exact_via(&**self.via, self.target, buf)
    }

    fn read_to_end(&mut self, buf: &mut Vec<u8>) -> (ret: Result<usize, Error>)
        ensures
            final(self).via == old(self).via,
            *final(final(self).target) == *final(old(self).target),
            ret matches Ok(n) ==> final(self).stands() == moved_on(old(self).stands(), n as nat),
    {
        assert((*old(self)).content() == old(self).via.content_of(&*old(self).target));
        assert((*old(self)).read_reliable() == old(self).via.reliable_of(&*old(self).target));
        read_to_end_via(&**self.via, self.target, buf)
    }

    fn read_to_string(&mut self, buf: &mut String) -> (ret: Result<usize, Error>)
        ensures
            final(self).via == old(self).via,
            *final(final(self).target) == *final(old(self).target),
            ret matches Ok(n) ==> final(self).stands() == moved_on(old(self).stands(), n as nat),
    {
        assert((*old(self)).content() == old(self).via.content_of(&*old(self).target));
        assert((*old(self)).read_reliable() == old(self).via.reliable_of(&*old(self).target));
        let mut bytes: Vec<u8> = Vec::new();
        let ret = read_to_end_via(&**self.via, self.target, &mut bytes);
        proof {
            if ret is Ok {
                assert(bytes@ =~= (*old(self)).content()->Finite_0);
            }
        }
        append_to_string(buf, bytes.as_slice(), ret)
    }
}

/// The descriptor of buffered reading, as a descriptor of reading.
#[verifier::reject_recursive_types(R)]
pub struct Buffered<'a, R>(pub &'a Box<dyn BufReadVia<R>>);

impl<'a, R> ReadVia<R> for Buffered<'a, R> {
    open spec fn declared_of(&self, target: &R) -> Declared {
        self.0.declared_of(target)
    }

    open spec fn content_of(&self, target: &R) -> Content {
        self.0.content_of(target)
    }

    open spec fn reliable_of(&self, target: &R) -> bool {
        self.0.reliable_of(target)
    }

    open spec fn stalls_of(&self, target: &R) -> nat {
        self.0.stalls_of(target)
    }

    open spec fn delivers_of(&self, target: &R, want: nat) -> Option<nat> {
        self.0.delivers_of(target, want)
    }

    open spec fn origin_of(&self, target: &R) -> Option<(Box<R>, nat)> {
        self.0.origin_of(target)
    }

    open spec fn stood_of(&self, target: &R, at: nat, what: Query) -> bool {
        self.0.stood_of(target, at, what)
    }

    open spec fn stands_of(&self, target: &R) -> bool {
        self.0.stands_of(target)
    }

    fn read_on(&self, target: &mut R, buf: &mut [u8]) -> (r: Result<usize, Error>) {
        assert(self.declared_of(old(target)) == self.0.declared_of(old(target)));
        assert(self.delivers_of(old(target), buf@.len()) == self.0.delivers_of(
            old(target),
            buf@.len(),
        ));
        assert(self.content_of(old(target)) == self.0.content_of(old(target)));
        assert(self.reliable_of(old(target)) == self.0.reliable_of(old(target)));
        assert(self.stalls_of(old(target)) == self.0.stalls_of(old(target)));
        self.0.read_on(target, buf)
    }
}

/// A stream lent out for buffered reading.
#[verifier::reject_recursive_types(R)]
pub struct BufMut<'a, R> {
    /// The stream, where it is now.
    pub target: &'a mut R,
    /// How its buffer is had.
    pub via: &'a Box<dyn BufReadVia<R>>,
}

impl<'a, R> BufMut<'a, R> {
    /// Where the stream stands, where it says so.
    pub open spec fn stands(&self) -> Option<(Box<R>, nat)> {
        self.via.origin_of(&*self.target)
    }
}

impl<'a, R> Read for BufMut<'a, R> {
    open spec fn content(&self) -> Content {
        self.via.content_of(&*self.target)
    }

    open spec fn read_reliable(&self) -> bool {
        self.via.reliable_of(&*self.target)
    }

    open spec fn read_stalls(&self) -> nat {
        self.via.stalls_of(&*self.target)
    }

    open spec fn delivers(&self, want: nat) -> Option<nat> {
        self.via.delivers_of(&*self.target, want)
    }

    fn read(&mut self, buf: &mut [u8]) -> (r: Result<usize, Error>)
        ensures
            final(self).via == old(self).via,
            *final(final(self).target) == *final(old(self).target),
            match r {
                Ok(n) => final(self).stands() == moved_on(old(self).stands(), n as nat),
                Err(_) => final(self).stands() == old(self).stands(),
            },
    {
        assert((*old(self)).delivers(buf@.len()) == old(self).via.delivers_of(
            &*old(self).target,
            buf@.len(),
        ));
        let r = self.via.read_on(self.target, buf);
        assert((*old(self)).content() == old(self).via.content_of(&*old(self).target));
        assert((*self).content() == self.via.content_of(&*self.target));
        assert((*old(self)).read_stalls() == old(self).via.stalls_of(&*old(self).target));
        assert((*self).read_stalls() == self.via.stalls_of(&*self.target));
        r
    }

    fn read_exact(&mut self, buf: &mut [u8]) -> (r: Result<(), Error>)
        ensures
            final(self).via == old(self).via,
            *final(final(self).target) == *final(old(self).target),
            r is Ok ==> final(self).stands() == moved_on(old(self).stands(), old(buf)@.len()),
    {
        assert((*old(self)).content() == old(self).via.content_of(&*old(self).target));
        assert((*old(self)).read_reliable() == old(self).via.reliable_of(&*old(self).target));
        read_exact_via(&Buffered(self.via), self.target, buf)
    }

    fn read_to_end(&mut self, buf: &mut Vec<u8>) -> (ret: Result<usize, Error>)
        ensures
            final(self).via == old(self).via,
            *final(final(self).target) == *final(old(self).target),
            ret matches Ok(n) ==> final(self).stands() == moved_on(old(self).stands(), n as nat),
    {
        assert((*old(self)).content() == old(self).via.content_of(&*old(self).target));
        assert((*old(self)).read_reliable() == old(self).via.reliable_of(&*old(self).target));
        read_to_end_via(&Buffered(self.via), self.target, buf)
    }

    fn read_to_string(&mut self, buf: &mut String) -> (ret: Result<usize, Error>)
        ensures
            final(self).via == old(self).via,
            *final(final(self).target) == *final(old(self).target),
            ret matches Ok(n) ==> final(self).stands() == moved_on(old(self).stands(), n as nat),
    {
        assert((*old(self)).content() == old(self).via.content_of(&*old(self).target));
        assert((*old(self)).read_reliable() == old(self).via.reliable_of(&*old(self).target));
        let mut bytes: Vec<u8> = Vec::new();
        let ret = read_to_end_via(&Buffered(self.via), self.target, &mut bytes);
        proof {
            if ret is Ok {
                assert(bytes@ =~= (*old(self)).content()->Finite_0);
            }
        }
        append_to_string(buf, bytes.as_slice(), ret)
    }
}

impl<'a, R> BufRead for BufMut<'a, R> {
    fn fill_buf(&mut self) -> (r: Result<&[u8], Error>)
        ensures
            final(self).via == old(self).via,
            *final(final(self).target) == *final(old(self).target),
            final(self).stands() == old(self).stands(),
    {
        let r = self.via.fill_buf_on(self.target);
        assert((*old(self)).content() == old(self).via.content_of(&*old(self).target));
        assert((*old(self)).read_stalls() == old(self).via.stalls_of(&*old(self).target));
        r
    }

    fn consume(&mut self, amt: usize)
        ensures
            final(self).via == old(self).via,
            *final(final(self).target) == *final(old(self).target),
            final(self).stands() == moved_on(old(self).stands(), amt as nat),
    {
        assert((*old(self)).content() == old(self).via.content_of(&*old(self).target));
        self.via.consume_on(self.target, amt);
        assert((*self).content() == self.via.content_of(&*self.target));
    }

    fn read_until(&mut self, byte: u8, buf: &mut Vec<u8>) -> (ret: Result<usize, Error>)
        ensures
            final(self).via == old(self).via,
            *final(final(self).target) == *final(old(self).target),
            ret matches Ok(n) ==> final(self).stands() == moved_on(old(self).stands(), n as nat),
    {
        assert((*old(self)).content() == old(self).via.content_of(&*old(self).target));
        assert((*old(self)).read_reliable() == old(self).via.reliable_of(&*old(self).target));
        read_until_via(&**self.via, self.target, byte, buf)
    }

    fn read_line(&mut self, buf: &mut String) -> (ret: Result<usize, Error>)
        ensures
            final(self).via == old(self).via,
            *final(final(self).target) == *final(old(self).target),
            ret matches Ok(n) ==> final(self).stands() == moved_on(old(self).stands(), n as nat),
    {
        assert((*old(self)).content() == old(self).via.content_of(&*old(self).target));
        assert((*old(self)).read_reliable() == old(self).via.reliable_of(&*old(self).target));
        let mut bytes: Vec<u8> = Vec::new();
        let ret = read_until_via(&**self.via, self.target, 0x0a, &mut bytes);
        proof {
            if let Ok(n) = ret {
                assert(bytes@ =~= (*old(self)).content()->Finite_0.take(n as int));
                assert(runs_to((*old(self)).content()->Finite_0, 0x0a, n as nat));
            }
        }
        append_to_string(buf, bytes.as_slice(), ret)
    }
}

/// A stream lent out for seeking.
#[verifier::reject_recursive_types(R)]
pub struct SeekMut<'a, R> {
    /// The stream, where it is now.
    pub target: &'a mut R,
    /// How it is moved in.
    pub via: &'a Box<dyn SeekVia<R>>,
}

impl<'a, R> Seek for SeekMut<'a, R> {
    open spec fn landing(&self, pos: SeekFrom) -> Option<u64> {
        self.via.landing_of(&*self.target, pos)
    }

    open spec fn seek_reliable(&self) -> bool {
        self.via.seek_reliable_of(&*self.target)
    }

    open spec fn lands(&self, pos: SeekFrom, at: u64, after: &Self) -> bool {
        &&& after.via == self.via
        &&& self.via.lands_of(&*self.target, pos, at, &*after.target)
    }

    fn seek(&mut self, pos: SeekFrom) -> (r: Result<u64, Error>)
        ensures
            final(self).via == old(self).via,
            *final(final(self).target) == *final(old(self).target),
    {
        let r = self.via.seek_on(self.target, pos);
        assert(old(self).landing(pos) == old(self).via.landing_of(&*old(self).target, pos));
        assert(old(self).landing(SeekFrom::Current(0)) == old(self).via.landing_of(
            &*old(self).target,
            SeekFrom::Current(0),
        ));
        assert(self.landing(SeekFrom::Current(0)) == self.via.landing_of(
            &*self.target,
            SeekFrom::Current(0),
        ));
        assert(old(self).seek_reliable() == old(self).via.seek_reliable_of(&*old(self).target));
        assert(self.seek_reliable() == self.via.seek_reliable_of(&*self.target));
        assert(forall|at: u64| #[trigger]
            old(self).lands(pos, at, &*self) == (self.via == old(self).via && old(
                self,
            ).via.lands_of(&*old(self).target, pos, at, &*self.target)));
        r
    }

    fn stream_position(&mut self) -> (r: Result<u64, Error>)
        ensures
            final(self).via == old(self).via,
            *final(final(self).target) == *final(old(self).target),
    {
        self.seek(SeekFrom::Current(0))
    }
}

/// A stream lent out for writing: the mandatory side of a writer.
#[verifier::reject_recursive_types(W)]
pub struct WriteMut<'a, W> {
    /// The stream, where it is now.
    pub target: &'a mut W,
    /// How it is written to.
    pub via: &'a Box<dyn WriteVia<W>>,
}

impl<'a, W> WriteMut<'a, W> {
    /// Whether what the descriptor calls taking bytes obeys the laws of
    /// [`Write`]: taking nothing changes nothing, and taking twice is taking
    /// both runs in a row.
    pub open spec fn lawful(&self) -> bool {
        &&& forall|target: W| #[trigger] self.via.accepts_of(&target, Seq::empty(), &target)
        &&& forall|target: W, first: Seq<u8>, between: W, second: Seq<u8>, after: W|
            (#[trigger] self.via.accepts_of(&target, first, &between)) && (
            #[trigger] self.via.accepts_of(&between, second, &after)) ==> self.via.accepts_of(
                &target,
                first + second,
                &after,
            )
    }
}

impl<'a, W> Write for WriteMut<'a, W> {
    open spec fn room(&self) -> Option<nat> {
        self.via.room_of(&*self.target)
    }

    open spec fn accepts(&self, data: Seq<u8>, after: &Self) -> bool {
        &&& after.via == self.via
        &&& self.lawful() ==> self.via.accepts_of(&*self.target, data, &*after.target)
    }

    open spec fn write_reliable(&self) -> bool {
        self.via.reliable_of(&*self.target)
    }

    open spec fn write_stalls(&self) -> nat {
        self.via.stalls_of(&*self.target)
    }

    fn write(&mut self, buf: &[u8]) -> (r: Result<usize, Error>)
        ensures
            final(self).via == old(self).via,
            *final(final(self).target) == *final(old(self).target),
    {
        let r = self.via.write_on(self.target, buf);
        assert((*old(self)).room() == old(self).via.room_of(&*old(self).target));
        assert((*self).room() == self.via.room_of(&*self.target));
        assert((*old(self)).write_reliable() == old(self).via.reliable_of(&*old(self).target));
        assert((*self).write_reliable() == self.via.reliable_of(&*self.target));
        assert((*old(self)).write_stalls() == old(self).via.stalls_of(&*old(self).target));
        assert((*self).write_stalls() == self.via.stalls_of(&*self.target));
        assert(old(self).via.accepts_of(&*old(self).target, Seq::empty(), &*self.target)
            ==> (*old(self)).accepts(Seq::empty(), &*self));
        assert(forall|data: Seq<u8>| #[trigger]
            old(self).via.accepts_of(&*old(self).target, data, &*self.target) ==> (*old(self)).accepts(
                data,
                &*self,
            ));
        r
    }

    fn flush(&mut self) -> (r: Result<(), Error>)
        ensures
            final(self).via == old(self).via,
            *final(final(self).target) == *final(old(self).target),
            old(self).via.accepts_of(&*old(self).target, Seq::empty(), &*final(self).target),
            old(self).via.declared_of(&*final(self).target) == old(self).via.declared_of(
                &*old(self).target,
            ),
    {
        let r = self.via.flush_on(self.target);
        assert((*old(self)).room() == old(self).via.room_of(&*old(self).target));
        assert((*self).room() == self.via.room_of(&*self.target));
        assert((*old(self)).write_reliable() == old(self).via.reliable_of(&*old(self).target));
        assert((*self).write_reliable() == self.via.reliable_of(&*self.target));
        assert(old(self).via.accepts_of(&*old(self).target, Seq::empty(), &*self.target)
            ==> (*old(self)).accepts(Seq::empty(), &*self));
        r
    }

    fn write_all(&mut self, buf: &[u8]) -> (r: Result<(), Error>)
        ensures
            final(self).via == old(self).via,
            *final(final(self).target) == *final(old(self).target),
            match r {
                Ok(_) => (*old(self)).accepts(buf@, &*final(self)),
                Err(_) => exists|k: nat|
                    k < buf@.len() && #[trigger] (*old(self)).accepts(buf@.take(k as int), &*final(self)),
            },
    {
        assert((*old(self)).room() == old(self).via.room_of(&*old(self).target));
        assert((*old(self)).write_reliable() == old(self).via.reliable_of(&*old(self).target));
        let ghost how = &**self.via;
        proof {
            if old(self).lawful() {
                assert forall|target: W| #[trigger]
                    how.accepts_of(&target, Seq::empty(), &target) by {
                    assert(old(self).via.accepts_of(&target, Seq::empty(), &target));
                }
                assert forall|target: W, first: Seq<u8>, between: W, second: Seq<u8>, after: W|
                    (#[trigger] how.accepts_of(&target, first, &between)) && (
                    #[trigger] how.accepts_of(&between, second, &after)) implies how.accepts_of(
                    &target,
                    first + second,
                    &after,
                ) by {
                    assert(old(self).via.accepts_of(&target, first, &between));
                    assert(old(self).via.accepts_of(&between, second, &after));
                }
                assert(lawful_via(how));
            }
        }
        let r = write_all_via(&**self.via, self.target, buf);
        proof {
            assert((*self).room() == self.via.room_of(&*self.target));
            assert((*self).write_reliable() == self.via.reliable_of(&*self.target));
            assert(forall|data: Seq<u8>| #[trigger]
                (*old(self)).accepts(data, &*self) == (old(self).lawful() ==> old(self).via.accepts_of(
                    &*old(self).target,
                    data,
                    &*self.target,
                )));
            if r is Err {
                let k = choose|k: nat|
                    {
                        &&& k < buf@.len()
                        &&& room_for(how.room_of(&*old(self).target), k)
                        &&& how.room_of(&*self.target) == #[trigger] room_after(
                            how.room_of(&*old(self).target),
                            k,
                        )
                        &&& lawful_via(how) ==> how.accepts_of(
                            &*old(self).target,
                            buf@.take(k as int),
                            &*self.target,
                        )
                    };
                assert((*old(self)).accepts(buf@.take(k as int), &*self));
            }
        }
        r
    }
}

/// Taking bytes obeys the laws in `WriteMut<W>`.
pub proof fn lemma_write_mut_lawful<'a, W>()
    ensures
        lawful::<WriteMut<'a, W>>(),
{
    reveal(lawful);
    assert forall|a: &WriteMut<'a, W>| #[trigger] a.accepts(Seq::empty(), a) by {
        if a.lawful() {
            assert(a.via.accepts_of(&*a.target, Seq::empty(), &*a.target));
        }
        assert(a.accepts(Seq::empty(), a));
    }
    assert forall|a: &WriteMut<'a, W>, first: Seq<u8>, b: &WriteMut<'a, W>, second: Seq<u8>, c: &WriteMut<'a, W>|
        (#[trigger] a.accepts(first, b)) && (#[trigger] b.accepts(second, c)) implies a.accepts(first + second, c) by {
        assert(a.accepts(first, b) && b.accepts(second, c));
        if a.lawful() {
            assert(a.via.accepts_of(&*a.target, first, &*b.target));
            assert(a.via.accepts_of(&*b.target, second, &*c.target));
            assert(a.via.accepts_of(&*a.target, first + second, &*c.target));
        }
        assert(a.accepts(first + second, c));
    }
}

/// A stream lent out to look at its reading side.
#[verifier::reject_recursive_types(R)]
pub struct ReadRef<'a, R> {
    /// The stream, where it is now.
    pub target: &'a R,
    /// How it is read.
    pub via: &'a Box<dyn ReadVia<R>>,
}

impl<'a, R> ReadRef<'a, R> {
    /// What the stream has yet to deliver.
    pub open spec fn content(&self) -> Content {
        self.via.content_of(self.target)
    }
}

/// A stream lent out to look at its buffered side.
#[verifier::reject_recursive_types(R)]
pub struct BufRef<'a, R> {
    /// The stream, where it is now.
    pub target: &'a R,
    /// How its buffer is had.
    pub via: &'a Box<dyn BufReadVia<R>>,
}

impl<'a, R> BufRef<'a, R> {
    /// What the stream has yet to deliver.
    pub open spec fn content(&self) -> Content {
        self.via.content_of(self.target)
    }
}

/// A stream lent out to look at its seeking side.
#[verifier::reject_recursive_types(R)]
pub struct SeekRef<'a, R> {
    /// The stream, where it is now.
    pub target: &'a R,
    /// How it is moved in.
    pub via: &'a Box<dyn SeekVia<R>>,
}

impl<'a, R> SeekRef<'a, R> {
    /// Where a seek to `pos` would arrive.
    pub open spec fn landing(&self, pos: SeekFrom) -> Option<u64> {
        self.via.landing_of(self.target, pos)
    }
}

/// A stream lent out to look at its writing side.
#[verifier::reject_recursive_types(W)]
pub struct WriteRef<'a, W> {
    /// The stream, where it is now.
    pub target: &'a W,
    /// How it is written to.
    pub via: &'a Box<dyn WriteVia<W>>,
}

impl<'a, W> WriteRef<'a, W> {
    /// How many more bytes the stream can take.
    pub open spec fn room(&self) -> Option<nat> {
        self.via.room_of(self.target)
    }
}

/// Joining a stream, where it is now, with the descriptor of one of its
/// capabilities.
///
/// The borrow gives the place and the descriptor the behaviour; the accessor
/// that comes out holds both and nothing from an earlier place of the stream.
pub trait WithMetadataOf<V> {
    /// The accessor that comes out.
    type Output;

    /// Makes the accessor.
    fn with_metadata_of_on_stable(self, via: V) -> Self::Output;
}

impl<'a, R> WithMetadataOf<&'a Box<dyn ReadVia<R>>> for &'a mut R {
    type Output = ReadMut<'a, R>;

    fn with_metadata_of_on_stable(self, via: &'a Box<dyn ReadVia<R>>) -> (acc: ReadMut<'a, R>)
        ensures
            *acc.target == *old(self),
            *final(self) == *final(acc.target),
            acc.via == via,
    {
        ReadMut { target: self, via }
    }
}

impl<'a, R> WithMetadataOf<&'a Box<dyn BufReadVia<R>>> for &'a mut R {
    type Output = BufMut<'a, R>;

    fn with_metadata_of_on_stable(self, via: &'a Box<dyn BufReadVia<R>>) -> (acc: BufMut<'a, R>)
        ensures
            *acc.target == *old(self),
            *final(self) == *final(acc.target),
            acc.via == via,
    {
        BufMut { target: self, via }
    }
}

impl<'a, R> WithMetadataOf<&'a Box<dyn SeekVia<R>>> for &'a mut R {
    type Output = SeekMut<'a, R>;

    fn with_metadata_of_on_stable(self, via: &'a Box<dyn SeekVia<R>>) -> (acc: SeekMut<'a, R>)
        ensures
            *acc.target == *old(self),
            *final(self) == *final(acc.target),
            acc.via == via,
    {
        SeekMut { target: self, via }
    }
}

impl<'a, W> WithMetadataOf<&'a Box<dyn WriteVia<W>>> for &'a mut W {
    type Output = WriteMut<'a, W>;

    fn with_metadata_of_on_stable(self, via: &'a Box<dyn WriteVia<W>>) -> (acc: WriteMut<'a, W>)
        ensures
            *acc.target == *old(self),
            *final(self) == *final(acc.target),
            acc.via == via,
    {
        WriteMut { target: self, via }
    }
}

impl<'a, R> WithMetadataOf<&'a Box<dyn ReadVia<R>>> for &'a R {
    type Output = ReadRef<'a, R>;

    fn with_metadata_of_on_stable(self, via: &'a Box<dyn ReadVia<R>>) -> (acc: ReadRef<'a, R>)
        ensures
            acc.target == self,
            acc.via == via,
    {
        ReadRef { target: self, via }
    }
}

impl<'a, R> WithMetadataOf<&'a Box<dyn BufReadVia<R>>> for &'a R {
    type Output = BufRef<'a, R>;

    fn with_metadata_of_on_stable(self, via: &'a Box<dyn BufReadVia<R>>) -> (acc: BufRef<'a, R>)
        ensures
            acc.target == self,
            acc.via == via,
    {
        BufRef { target: self, via }
    }
}

impl<'a, R> WithMetadataOf<&'a Box<dyn SeekVia<R>>> for &'a R {
    type Output = SeekRef<'a, R>;

    fn with_metadata_of_on_stable(self, via: &'a Box<dyn SeekVia<R>>) -> (acc: SeekRef<'a, R>)
        ensures
            acc.target == self,
            acc.via == via,
    {
        SeekRef { target: self, via }
    }
}

impl<'a, W> WithMetadataOf<&'a Box<dyn WriteVia<W>>> for &'a W {
    type Output = WriteRef<'a, W>;

    fn with_metadata_of_on_stable(self, via: &'a Box<dyn WriteVia<W>>) -> (acc: WriteRef<'a, W>)
        ensures
            acc.target == self,
            acc.via == via,
    {
        WriteRef { target: self, via }
    }
}

/// Fills all of `buf` from `target`, read as `how` says, reading again after
/// an interruption, as [`Read::read_exact`] does.
pub fn read_exact_via<R, V: ReadVia<R> + ?Sized>(
    how: &V,
    target: &mut R,
    buf: &mut [u8],
) -> (r: Result<(), Error>)
    ensures
        r matches Err(e) ==> !e.interrupted(),
        how.declared_of(final(target)) == how.declared_of(old(target)),
        forall|at: nat, what: Query| #[trigger]
            how.stood_of(final(target), at, what) == how.stood_of(old(target), at, what),
        how.stands_of(old(target)) ==> how.stands_of(final(target)),
        final(buf)@.len() == old(buf)@.len(),
        how.reliable_of(final(target)) == how.reliable_of(old(target)),
        how.stalls_of(final(target)) <= how.stalls_of(old(target)),
        match r {
            Ok(_) => {
                &&& how.content_of(old(target)).holds(old(buf)@.len())
                &&& final(buf)@ == how.content_of(old(target)).first(old(buf)@.len())
                &&& how.content_of(final(target)) == how.content_of(old(target)).skip(
                    old(buf)@.len(),
                )
                &&& how.origin_of(final(target)) == moved_on(how.origin_of(old(target)), old(buf)@.len())
            },
            Err(e) => {
                &&& exists|k: nat|
                    {
                        &&& k < old(buf)@.len()
                        &&& #[trigger] how.content_of(old(target)).skip(k) == how.content_of(final(target))
                        &&& how.origin_of(final(target)) == moved_on(how.origin_of(old(target)), k)
                    }
                &&& how.reliable_of(old(target)) ==> e@ == ErrorKind::UnexpectedEof
                    && !how.content_of(old(target)).holds(old(buf)@.len())
            },
        },
{
    let ghost held = how.content_of(old(target));
    let len = buf.len();
    let mut off: usize = 0;
    proof {
        held.lemma_skip_none();
        assert(buf@.take(0) =~= Seq::<u8>::empty());
    }
    while off < len
        invariant
            how.declared_of(target) == how.declared_of(old(target)),
            forall|at: nat, what: Query| #[trigger]
                how.stood_of(target, at, what) == how.stood_of(old(target), at, what),
            how.stands_of(old(target)) ==> how.stands_of(target),
            held == how.content_of(old(target)),
            off <= len,
            len == buf@.len(),
            len == old(buf)@.len(),
            held.holds(off as nat),
            buf@.take(off as int) == held.first(off as nat),
            how.content_of(target) == held.skip(off as nat),
            how.origin_of(target) == moved_on(how.origin_of(old(target)), off as nat),
            how.reliable_of(target) == how.reliable_of(old(target)),
            how.stalls_of(target) <= how.stalls_of(old(target)),
        decreases len - off, how.stalls_of(target),
    {
        let ghost before = buf@;
        let (head, tail) = buf.split_at_mut(off);
        let got = how.read_on(target, tail);
        proof {
            held.lemma_skip_again(off as nat, 1);
            assert(buf@.take(off as int) =~= before.take(off as int));
        }
        match after_transfer(got) {
            Step::Done => {
                proof {
                    held.skip(off as nat).lemma_skip_none();
                    if held.holds(len as nat) {
                        held.lemma_skip_again(off as nat, (len - off) as nat);
                        held.skip(off as nat).lemma_skip_again(1, (len - off - 1) as nat);
                    }
                }
                return Err(Error::from_kind(ErrorKind::UnexpectedEof));
            },
            Step::Advance(n) => {
                proof {
                    held.lemma_skip_again(off as nat, n as nat);
                    assert(buf@.take(off + n) =~= before.take(off as int) + held.skip(
                        off as nat,
                    ).first(n as nat));
                }
                off = off + n;
            },
            Step::Retry => {},
            Step::Fail(e) => {
                return Err(e);
            },
        }
    }
    assert(buf@.take(off as int) =~= buf@);
    Ok(())
}

/// Reads `target`, read as `how` says, to its end and appends every byte to
/// `buf`, as [`Read::read_to_end`] does.
pub fn read_to_end_via<R, V: ReadVia<R> + ?Sized>(
    how: &V,
    target: &mut R,
    buf: &mut Vec<u8>,
) -> (ret: Result<usize, Error>)
    requires
        how.content_of(old(target)) is Finite,
        old(buf)@.len() + how.content_of(old(target))->Finite_0.len() + GROWTH <= usize::MAX,
    ensures
        ret matches Err(e) ==> !e.interrupted(),
        how.declared_of(final(target)) == how.declared_of(old(target)),
        forall|at: nat, what: Query| #[trigger]
            how.stood_of(final(target), at, what) == how.stood_of(old(target), at, what),
        how.stands_of(old(target)) ==> how.stands_of(final(target)),
        how.reliable_of(final(target)) == how.reliable_of(old(target)),
        how.stalls_of(final(target)) <= how.stalls_of(old(target)),
        how.reliable_of(old(target)) ==> ret is Ok,
        match ret {
            Ok(n) => {
                &&& n == how.content_of(old(target))->Finite_0.len()
                &&& final(buf)@ == old(buf)@ + how.content_of(old(target))->Finite_0
                &&& how.content_of(final(target)) == how.content_of(old(target)).skip(n as nat)
                &&& how.origin_of(final(target)) == moved_on(how.origin_of(old(target)), n as nat)
            },
            Err(e) => exists|k: nat|
                {
                    &&& k <= how.content_of(old(target))->Finite_0.len()
                    &&& final(buf)@ == old(buf)@ + #[trigger] how.content_of(old(target)).first(k)
                    &&& how.content_of(final(target)) == how.content_of(old(target)).skip(k)
                    &&& how.origin_of(final(target)) == moved_on(how.origin_of(old(target)), k)
                },
        },
{
    let ghost all = how.content_of(old(target))->Finite_0;
    let start_len = buf.len();
    let mut len = start_len;
    proof {
        how.content_of(old(target)).lemma_skip_none();
        assert(buf@.take(len as int) =~= old(buf)@ + how.content_of(old(target)).first(0));
    }
    loop
        invariant
            how.declared_of(target) == how.declared_of(old(target)),
            forall|at: nat, what: Query| #[trigger]
                how.stood_of(target, at, what) == how.stood_of(old(target), at, what),
            how.stands_of(old(target)) ==> how.stands_of(target),
            how.content_of(old(target)) == Content::Finite(all),
            old(buf)@.len() + all.len() + GROWTH <= usize::MAX,
            start_len == old(buf)@.len(),
            start_len <= len <= buf@.len(),
            len - start_len <= all.len(),
            buf@.take(len as int) == old(buf)@ + how.content_of(old(target)).first((len - start_len) as nat),
            how.content_of(target) == how.content_of(old(target)).skip((len - start_len) as nat),
            how.origin_of(target) == moved_on(how.origin_of(old(target)), (len - start_len) as nat),
            how.reliable_of(target) == how.reliable_of(old(target)),
            how.stalls_of(target) <= how.stalls_of(old(target)),
        decreases all.len() - (len - start_len), how.stalls_of(target),
    {
        let ghost done = (len - start_len) as nat;
        if buf.len() == len {
            buf.reserve(GROWTH);
            let cap = capacity(buf);
            let grown = if cap > len {
                cap
            } else {
                len + GROWTH
            };
            let ghost before = buf@;
            buf.resize(grown, 0);
            assert(buf@.take(len as int) =~= before.take(len as int));
        }
        let ghost held = buf@;
        let (head, tail) = buf.as_mut_slice().split_at_mut(len);
        let got = how.read_on(target, tail);
        proof {
            assert(buf@.take(len as int) =~= held.take(len as int));
            how.content_of(old(target)).lemma_skip_again(done, 1);
        }
        match after_transfer(got) {
            Step::Done => {
                buf.truncate(len);
                proof {
                    how.content_of(old(target)).skip(done).lemma_skip_none();
                    assert(how.content_of(old(target)).first(done) =~= all);
                }
                return Ok(len - start_len);
            },
            Step::Advance(n) => {
                proof {
                    how.content_of(old(target)).lemma_skip_again(done, n as nat);
                    assert(buf@.take(len + n) =~= held.take(len as int) + how.content_of(old(target)).skip(
                        done,
                    ).first(n as nat));
                    assert(old(buf)@ + how.content_of(old(target)).first(done) + how.content_of(old(target)).skip(
                        done,
                    ).first(n as nat) =~= old(buf)@ + how.content_of(old(target)).first(done + n as nat));
                }
                len = len + n;
            },
            Step::Retry => {},
            Step::Fail(e) => {
                buf.truncate(len);
                return Err(e);
            },
        }
    }
}

/// Reads `target`, read as `how` says, up to and with the first `byte` and
/// appends what was read to `buf`, as [`BufRead::read_until`] does.
pub fn read_until_via<R, V: BufReadVia<R> + ?Sized>(
    how: &V,
    target: &mut R,
    byte: u8,
    buf: &mut Vec<u8>,
) -> (ret: Result<usize, Error>)
    requires
        how.content_of(old(target)) is Finite,
        how.content_of(old(target))->Finite_0.len() <= usize::MAX,
    ensures
        ret matches Err(e) ==> !e.interrupted(),
        how.declared_of(final(target)) == how.declared_of(old(target)),
        forall|at: nat, what: Query| #[trigger]
            how.stood_of(final(target), at, what) == how.stood_of(old(target), at, what),
        how.stands_of(old(target)) ==> how.stands_of(final(target)),
        how.reliable_of(final(target)) == how.reliable_of(old(target)),
        how.stalls_of(final(target)) <= how.stalls_of(old(target)),
        how.reliable_of(old(target)) ==> ret is Ok,
        match ret {
            Ok(n) => {
                &&& runs_to(how.content_of(old(target))->Finite_0, byte, n as nat)
                &&& final(buf)@ == old(buf)@ + how.content_of(old(target))->Finite_0.take(n as int)
                &&& how.content_of(final(target)) == how.content_of(old(target)).skip(n as nat)
                &&& how.origin_of(final(target)) == moved_on(how.origin_of(old(target)), n as nat)
            },
            Err(e) => exists|k: nat|
                {
                    &&& k <= how.content_of(old(target))->Finite_0.len()
                    &&& forall|i: int| 0 <= i < k ==> how.content_of(old(target))->Finite_0[i] != byte
                    &&& final(buf)@ == old(buf)@ + #[trigger] how.content_of(old(target)).first(k)
                    &&& how.content_of(final(target)) == how.content_of(old(target)).skip(k)
                    &&& how.origin_of(final(target)) == moved_on(how.origin_of(old(target)), k)
                },
        },
{
    let ghost all = how.content_of(old(target))->Finite_0;
    let mut read: usize = 0;
    proof {
        how.content_of(old(target)).lemma_skip_none();
        assert(buf@ =~= old(buf)@ + all.take(0));
    }
    loop
        invariant
            how.declared_of(target) == how.declared_of(old(target)),
            forall|at: nat, what: Query| #[trigger]
                how.stood_of(target, at, what) == how.stood_of(old(target), at, what),
            how.stands_of(old(target)) ==> how.stands_of(target),
            how.content_of(old(target)) == Content::Finite(all),
            all.len() <= usize::MAX,
            read <= all.len(),
            forall|i: int| 0 <= i < read ==> all[i] != byte,
            buf@ == old(buf)@ + all.take(read as int),
            how.content_of(target) == how.content_of(old(target)).skip(read as nat),
            how.origin_of(target) == moved_on(how.origin_of(old(target)), read as nat),
            how.reliable_of(target) == how.reliable_of(old(target)),
            how.stalls_of(target) <= how.stalls_of(old(target)),
        decreases all.len() - read, how.stalls_of(target),
    {
        let ghost rest = all.skip(read as int);
        let got = how.fill_buf_on(target);
        let ghost seen = got;
        let (part, last) = match after_fill(got, byte) {
            Scan::Take(part, last) => (part, last),
            Scan::Done => {
                how.consume_on(target, 0);
                proof {
                    how.content_of(old(target)).lemma_skip_again(read as nat, 0);
                    how.content_of(old(target)).lemma_skip_again(read as nat, 1);
                }
                return Ok(read);
            },
            Scan::Retry => {
                continue ;
            },
            Scan::Fail(e) => {
                assert(how.content_of(old(target)).first(read as nat) == all.take(read as int));
                return Err(e);
            },
        };
        let ghost available = seen->Ok_0@;
        let used = part.len();
        assert(available == rest.take(available.len() as int));
        append_bytes(buf, part);
        proof {
            how.content_of(old(target)).lemma_skip_again(read as nat, used as nat);
            assert(available.take(used as int) =~= rest.take(used as int));
            assert(all.take(read as int) + rest.take(used as int) =~= all.take(read + used));
            assert(buf@ =~= old(buf)@ + all.take(read + used));
            let clear = if last { read + used - 1 } else { read + used };
            assert forall|j: int| 0 <= j < clear implies all[j] != byte by {
                if j >= read {
                    assert(available[j - read] == all[j]);
                }
            }
            assert(available[used - 1] == all[read + used - 1]);
        }
        how.consume_on(target, used);
        read = read + used;
        if last {
            return Ok(read);
        }
    }
}

/// Whether what `how` calls taking bytes obeys the laws of [`lawful`]: a
/// stream that takes nothing may stay as it is, and taking one run of bytes
/// and then another is taking both in a row.
pub open spec fn lawful_via<W, V: WriteVia<W> + ?Sized>(how: &V) -> bool {
    &&& forall|target: W| #[trigger] how.accepts_of(&target, Seq::empty(), &target)
    &&& forall|target: W, first: Seq<u8>, between: W, second: Seq<u8>, after: W|
        (#[trigger] how.accepts_of(&target, first, &between)) && (#[trigger] how.accepts_of(
            &between,
            second,
            &after,
        )) ==> how.accepts_of(&target, first + second, &after)
}

/// Passes all of `buf` to `target`, written to as `how` says, writing again
/// after an interruption, as [`Write::write_all`] does.
pub fn write_all_via<W, V: WriteVia<W> + ?Sized>(how: &V, target: &mut W, buf: &[u8]) -> (r: Result<
    (),
    Error,
>)
    ensures
        r matches Err(e) ==> !e.interrupted(),
        how.declared_of(final(target)) == how.declared_of(old(target)),
        how.reliable_of(final(target)) == how.reliable_of(old(target)),
        how.stalls_of(final(target)) <= how.stalls_of(old(target)),
        match r {
            Ok(_) => {
                &&& room_for(how.room_of(old(target)), buf@.len())
                &&& how.room_of(final(target)) == room_after(how.room_of(old(target)), buf@.len())
                &&& lawful_via(how) ==> how.accepts_of(old(target), buf@, final(target))
            },
            Err(e) => {
                &&& exists|k: nat|
                    {
                        &&& k < buf@.len()
                        &&& room_for(how.room_of(old(target)), k)
                        &&& how.room_of(final(target)) == #[trigger] room_after(
                            how.room_of(old(target)),
                            k,
                        )
                        &&& lawful_via(how) ==> how.accepts_of(
                            old(target),
                            buf@.take(k as int),
                            final(target),
                        )
                    }
                &&& how.reliable_of(old(target)) ==> e@ == ErrorKind::WriteZero && !room_for(
                    how.room_of(old(target)),
                    buf@.len(),
                )
            },
        },
{
    let len = buf.len();
    let mut off: usize = 0;
    proof {
        assert(buf@.take(0) =~= Seq::<u8>::empty());
        if lawful_via(how) {
            assert(how.accepts_of(old(target), Seq::empty(), old(target)));
        }
    }
    while off < len
        invariant
            how.declared_of(target) == how.declared_of(old(target)),
            off <= len,
            len == buf@.len(),
            room_for(how.room_of(old(target)), off as nat),
            lawful_via(how) ==> how.accepts_of(old(target), buf@.take(off as int), &*target),
            how.room_of(target) == room_after(how.room_of(old(target)), off as nat),
            how.reliable_of(target) == how.reliable_of(old(target)),
            how.stalls_of(target) <= how.stalls_of(old(target)),
        decreases len - off, how.stalls_of(target),
    {
        let ghost before = *target;
        let got = how.write_on(target, &buf[off..len]);
        match after_transfer(got) {
            Step::Done => {
                let ghost n: usize = 0;
                proof {
                    assert(buf@.take(off as int) + buf@.subrange(off as int, len as int).take(
                        n as int,
                    ) =~= buf@.take(off + n));
                    if lawful_via(how) {
                        assert(how.accepts_of(old(target), buf@.take(off as int), &before));
                        assert(how.accepts_of(
                            &before,
                            buf@.subrange(off as int, len as int).take(n as int),
                            &*target,
                        ));
                    }
                }
                return Err(Error::from_kind(ErrorKind::WriteZero));
            },
            Step::Advance(n) => {
                proof {
                    assert(buf@.take(off as int) + buf@.subrange(off as int, len as int).take(
                        n as int,
                    ) =~= buf@.take(off + n));
                    if lawful_via(how) {
                        assert(how.accepts_of(old(target), buf@.take(off as int), &before));
                        assert(how.accepts_of(
                            &before,
                            buf@.subrange(off as int, len as int).take(n as int),
                            &*target,
                        ));
                    }
                }
                off = off + n;
            },
            Step::Retry => {
                proof {
                    assert(buf@.take(off as int) + Seq::<u8>::empty() =~= buf@.take(off as int));
                    if lawful_via(how) {
                        assert(how.accepts_of(old(target), buf@.take(off as int), &before));
                        assert(how.accepts_of(&before, Seq::empty(), &*target));
                    }
                }
            },
            Step::Fail(e) => {
                proof {
                    assert(buf@.take(off as int) + Seq::<u8>::empty() =~= buf@.take(off as int));
                    if lawful_via(how) {
                        assert(how.accepts_of(old(target), buf@.take(off as int), &before));
                        assert(how.accepts_of(&before, Seq::empty(), &*target));
                    }
                }
                return Err(e);
            },
        }
    }
    assert(buf@.take(off as int) =~= buf@);
    Ok(())
}

} // verus!
