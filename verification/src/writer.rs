//! Writers whose optional capabilities are decided at run time.
use core::any::TypeId;
use vstd::prelude::*;
use crate::anchor::{
    lawful_via, type_id_of, write_all_via, Declared, Own, SeekMut, SeekRef, SeekVia, WithMetadataOf, WriteMut,
    WriteRef, WriteVia,
};
use crate::error::{Error, ErrorKind};
use crate::stream::{lawful, room_after, room_for, Seek, SeekFrom, Write};

verus! {

/// What a writer shows of its stream: how many more bytes the stream has room
/// for, whether it reports no error but an interruption when written to, and
/// how often it may still report one.
pub struct Outlook {
    /// How many more bytes the stream has room for, where that is limited.
    pub room: Option<nat>,
    /// Whether the stream reports no error but an interruption when written to.
    pub reliable: bool,
    /// A bound on how often the stream may still report an interruption.
    pub stalls: nat,
}

/// The optional capabilities of a writer: a slot for each, empty until the
/// capability is declared.
#[verifier::reject_recursive_types(W)]
pub struct OptTable<W> {
    seek: Option<Box<dyn SeekVia<W>>>,
    any: Option<TypeId>,
}

impl<W> OptTable<W> {
    /// The descriptor for seeking, where it has been declared.
    pub closed spec fn seek(&self) -> Option<Box<dyn SeekVia<W>>> {
        self.seek
    }

    /// What identifies the stream's type, where it has been declared.
    pub closed spec fn any(&self) -> Option<TypeId> {
        self.any
    }
}


/// Whether what `write` calls taking bytes obeys the laws of [`lawful`]: a
/// stream that takes nothing may stay as it is, and taking one run of bytes
/// and then another is taking both in a row.
#[verifier::opaque]
pub open spec fn takes_lawfully<W>(write: &Box<dyn WriteVia<W>>) -> bool {
    &&& forall|target: W| #[trigger] write.accepts_of(&target, Seq::empty(), &target)
    &&& forall|target: W, first: Seq<u8>, between: W, second: Seq<u8>, after: W|
        (#[trigger] write.accepts_of(&target, first, &between)) && (#[trigger] write.accepts_of(
            &between,
            second,
            &after,
        )) ==> write.accepts_of(&target, first + second, &after)
}

/// A descriptor that takes bytes lawfully counts a stream that takes nothing
/// as staying as it is.
pub proof fn lemma_takes_nothing<W>(write: &Box<dyn WriteVia<W>>, target: W)
    requires
        takes_lawfully(write),
    ensures
        write.accepts_of(&target, Seq::empty(), &target),
{
    reveal(takes_lawfully);
}

/// A descriptor that takes bytes lawfully counts taking one run of bytes and
/// then another as taking both in a row.
pub proof fn lemma_takes_in_turn<W>(
    write: &Box<dyn WriteVia<W>>,
    target: W,
    first: Seq<u8>,
    between: W,
    second: Seq<u8>,
    after: W,
)
    requires
        takes_lawfully(write),
        write.accepts_of(&target, first, &between),
        write.accepts_of(&between, second, &after),
    ensures
        write.accepts_of(&target, first + second, &after),
{
    reveal(takes_lawfully);
}

/// What may be asked of a stream once it has taken some bytes.
pub enum Asked {
    /// Whether a seek to the place given arrives at the offset given, a seek
    /// being refused only for want of a landing if the flag is set.
    Lands(SeekFrom, Option<u64>, bool),
    /// Whether a seek to the place given that arrives at the offset given
    /// leaves the stream showing what is given.
    Moves(SeekFrom, u64, Outlook),
}

/// What a stream in the state `target` shows, as a writer with this descriptor
/// sees it.
pub open spec fn outlook_via<W>(write: &Box<dyn WriteVia<W>>, target: &W) -> Outlook {
    Outlook {
        room: write.room_of(target),
        reliable: write.reliable_of(target),
        stalls: write.stalls_of(target),
    }
}

/// Whether a stream that was in the state `since` is in the state `mid` once
/// it has taken `data`, where `what` holds of it; where `what` is a move, it
/// leads to the state `after`.
pub open spec fn takes_via<W>(
    write: &Box<dyn WriteVia<W>>,
    table: OptTable<W>,
    since: W,
    data: Seq<u8>,
    what: Asked,
    mid: W,
    after: W,
) -> bool {
    &&& takes_lawfully(write) ==> write.accepts_of(&since, data, &mid)
    &&& match what {
        Asked::Lands(pos, to, firm) => {
            &&& table.seek()->Some_0.landing_of(&mid, pos) == to
            &&& table.seek()->Some_0.seek_reliable_of(&mid) == firm
        },
        Asked::Moves(pos, arrived, then) => {
            &&& table.seek()->Some_0.lands_of(&mid, pos, arrived, &after)
            &&& outlook_via(write, &after) == then
        },
    }
}

/// Whether `what` may hold of a stream that was in the state `since` once it
/// has taken `data`.
pub open spec fn took_via<W>(
    write: &Box<dyn WriteVia<W>>,
    table: OptTable<W>,
    since: W,
    data: Seq<u8>,
    what: Asked,
) -> bool {
    exists|mid: W, after: W| #[trigger] takes_via(write, table, since, data, what, mid, after)
}

/// Whether `what` holds of a stream in the state `mid`; where `what` is a
/// move, it leads to the state `after`.
pub open spec fn asked<W: Write + Seek>(what: Asked, mid: &W, after: &W) -> bool {
    match what {
        Asked::Lands(pos, to, firm) => {
            &&& mid.landing(pos) == to
            &&& mid.seek_reliable() == firm
        },
        Asked::Moves(pos, arrived, then) => {
            &&& mid.lands(pos, arrived, after)
            &&& after.room() == then.room
            &&& after.write_reliable() == then.reliable
            &&& after.write_stalls() == then.stalls
        },
    }
}

/// A stream that has taken `data` since it was in the state `since` shows,
/// where it is, what is said of a stream that has taken as much.
pub proof fn lemma_took_where_it_is<W>(
    write: &Box<dyn WriteVia<W>>,
    table: OptTable<W>,
    since: W,
    data: Seq<u8>,
    target: W,
)
    requires
        takes_lawfully(write) ==> write.accepts_of(&since, data, &target),
    ensures
        forall|pos: SeekFrom|
            took_via(
                write,
                table,
                since,
                data,
                Asked::Lands(
                    pos,
                    #[trigger] table.seek()->Some_0.landing_of(&target, pos),
                    table.seek()->Some_0.seek_reliable_of(&target),
                ),
            ),
{
    assert forall|pos: SeekFrom|
        took_via(
            write,
            table,
            since,
            data,
            Asked::Lands(
                pos,
                #[trigger] table.seek()->Some_0.landing_of(&target, pos),
                table.seek()->Some_0.seek_reliable_of(&target),
            ),
        ) by {
        assert(takes_via(
            write,
            table,
            since,
            data,
            Asked::Lands(
                pos,
                table.seek()->Some_0.landing_of(&target, pos),
                table.seek()->Some_0.seek_reliable_of(&target),
            ),
            target,
            target,
        ));
    }
}

/// A writer that owns a stream of type `W`.
///
/// The writer always writes. It seeks or tells its type once that has been
/// declared, by one of the `set_` methods, which ask of `W` what they declare.
/// The methods that use a capability ask nothing of `W`.
///
/// An accessor that can change the stream borrows the writer for change as
/// long as it lives: no two of them exist at once.
#[verifier::reject_recursive_types(W)]
pub struct Writer<W> {
    inner: W,
    write: Box<dyn WriteVia<W>>,
    vtable: OptTable<W>,
    since: Ghost<W>,
    taken: Ghost<Seq<u8>>,
}

impl<W> Writer<W> {
    /// The stream.
    pub closed spec fn inner(&self) -> W {
        self.inner
    }

    /// The descriptor for writing.
    pub closed spec fn write_via(&self) -> &Box<dyn WriteVia<W>> {
        &self.write
    }

    /// The optional capabilities.
    pub closed spec fn table(&self) -> OptTable<W> {
        self.vtable
    }

    /// The bytes that the writer has taken as an [`Erased`] writer since it
    /// was made or last moved as one.
    pub closed spec fn log(&self) -> Seq<u8> {
        self.taken@
    }

    /// The stream as it was when the [`log`](Writer::log) began.
    pub closed spec fn log_start(&self) -> W {
        self.since@
    }

    /// Whether the log is true to the stream: the stream is in a state that
    /// the stream as it was when the log began reaches by taking the log.
    /// This is asked only where the descriptor takes bytes lawfully.
    pub open spec fn log_true(&self) -> bool {
        self.writes_lawfully() ==> self.write_via().accepts_of(
            &self.log_start(),
            self.log(),
            &self.inner(),
        )
    }

    /// What the writer has declared.
    pub open spec fn declared(&self) -> Declared {
        Declared { seek: self.table().seek() is Some, buf: false, any: self.table().any() }
    }

    /// How many more bytes the stream can take.
    pub open spec fn room(&self) -> Option<nat> {
        self.write_via().room_of(&self.inner())
    }

    /// Whether the stream reports no error but an interruption when written to.
    pub open spec fn write_reliable(&self) -> bool {
        self.write_via().reliable_of(&self.inner())
    }

    /// A bound on how often the stream may still report an interruption.
    pub open spec fn write_stalls(&self) -> nat {
        self.write_via().stalls_of(&self.inner())
    }

    /// Where a seek to `pos` arrives, where seeking has been declared.
    pub open spec fn landing(&self, pos: SeekFrom) -> Option<u64> {
        self.table().seek()->Some_0.landing_of(&self.inner(), pos)
    }

    /// Whether the stream refuses a seek only where it has no landing.
    pub open spec fn seek_reliable(&self) -> bool {
        self.table().seek()->Some_0.seek_reliable_of(&self.inner())
    }

    /// Whether the stream is in the state `after`, and shows `then` there,
    /// once it has moved to `pos` and arrived at `at`.
    pub open spec fn lands_on(&self, pos: SeekFrom, at: u64, then: Outlook, after: W) -> bool {
        &&& self.table().seek()->Some_0.lands_of(&self.inner(), pos, at, &after)
        &&& self.write_via().room_of(&after) == then.room
        &&& self.write_via().reliable_of(&after) == then.reliable
        &&& self.write_via().stalls_of(&after) == then.stalls
    }

    /// Whether the stream may show `then` once it has moved to `pos` and
    /// arrived at `at`.
    pub open spec fn seeks_to(&self, pos: SeekFrom, at: u64, then: Outlook) -> bool {
        exists|after: W| #[trigger] self.lands_on(pos, at, then, after)
    }

    /// Whether `what` may hold of the stream once it has taken `data` from
    /// where it is now.
    pub open spec fn takes_to(&self, data: Seq<u8>, what: Asked) -> bool {
        took_via(self.write_via(), self.table(), self.inner(), data, what)
    }

    /// Whether the descriptor for writing is the stream's own.
    pub open spec fn writes_own(&self) -> bool where W: Write {
        forall|target: W|
            {
                &&& #[trigger] self.write_via().room_of(&target) == target.room()
                &&& self.write_via().reliable_of(&target) == target.write_reliable()
                &&& self.write_via().stalls_of(&target) == target.write_stalls()
                &&& forall|data: Seq<u8>, after: W| #[trigger]
                    self.write_via().accepts_of(&target, data, &after) == target.accepts(data, &after)
            }
    }

    /// Whether what the descriptor for writing calls taking bytes obeys the
    /// laws of [`lawful`].
    pub open spec fn writes_lawfully(&self) -> bool {
        takes_lawfully(self.write_via())
    }

    /// Whether seeking is declared, with the stream's own descriptor.
    pub open spec fn seeks_own(&self) -> bool where W: Seek {
        self.table().seek() matches Some(via) && (forall|target: W, pos: SeekFrom|
            {
                &&& #[trigger] via.landing_of(&target, pos) == target.landing(pos)
                &&& via.seek_reliable_of(&target) == target.seek_reliable()
            }) && (forall|target: W, pos: SeekFrom, at: u64, after: W| #[trigger]
            via.lands_of(&target, pos, at, &after) == target.lands(pos, at, &after))
    }

    /// Whether `after` offers every capability that this handle offers.
    pub open spec fn kept_in(&self, after: &Self) -> bool {
        &&& self.table().seek() is Some ==> after.table().seek() is Some
        &&& self.table().any() is Some ==> after.table().any() is Some
    }

    /// Whether `after` is this handle with more declared on it, or as much:
    /// it holds the same stream and offers every capability that this handle
    /// offers.
    pub open spec fn declares(&self, after: &Self) -> bool {
        &&& after.inner() == self.inner()
        &&& self.kept_in(after)
    }

    /// Wraps `writer`. No optional capability is declared.
    pub fn new(writer: W) -> (handle: Self) where W: Write
        ensures
            handle.inner() == writer,
            handle.writes_own(),
            handle.table().seek() is None,
            handle.table().any() is None,
    {
        let ghost start = writer;
        let handle = Writer {
            inner: writer,
            write: Box::new(Own),
            vtable: OptTable { seek: None, any: None },
            since: Ghost(start),
            taken: Ghost(Seq::empty()),
        };
        assert forall|target: W|
            {
                &&& #[trigger] handle.write_via().room_of(&target) == target.room()
                &&& handle.write_via().reliable_of(&target) == target.write_reliable()
                &&& handle.write_via().stalls_of(&target) == target.write_stalls()
                &&& forall|data: Seq<u8>, after: W| #[trigger]
                    handle.write_via().accepts_of(&target, data, &after) == target.accepts(
                        data,
                        &after,
                    )
            } by {
            assert(WriteVia::room_of(&Own, &target) == target.room());
            assert(WriteVia::reliable_of(&Own, &target) == target.write_reliable());
            assert(WriteVia::stalls_of(&Own, &target) == target.write_stalls());
            assert forall|data: Seq<u8>, after: W| #[trigger]
                handle.write_via().accepts_of(&target, data, &after) == target.accepts(
                    data,
                    &after,
                ) by {
                assert(WriteVia::accepts_of(&Own, &target, data, &after) == target.accepts(
                    data,
                    &after,
                ));
            }
        }
        handle
    }

    /// Lends out the stream.
    pub fn get_ref(&self) -> (inner: &W)
        ensures
            *inner == self.inner(),
    {
        &self.inner
    }

    /// Lends out the stream for change. What has been declared stays declared.
    pub fn get_mut(&mut self) -> (inner: &mut W)
        ensures
            old(self).kept_in(&*final(self)),
            *inner == old(self).inner(),
            final(self).inner() == *final(inner),
            final(self).write_via() == old(self).write_via(),
            final(self).table() == old(self).table(),
    {
        &mut self.inner
    }

    /// Declares that the stream seeks.
    pub fn set_seek(&mut self) where W: Seek
        ensures
            old(self).declares(&*final(self)),
            final(self).inner() == old(self).inner(),
            final(self).write_via() == old(self).write_via(),
            final(self).seeks_own(),
            final(self).table().any() == old(self).table().any(),
    {
        self.vtable.seek = Some(Box::new(Own));
        assert forall|target: W, pos: SeekFrom|
            {
                &&& #[trigger] self.table().seek()->Some_0.landing_of(&target, pos) == target.landing(pos)
                &&& self.table().seek()->Some_0.seek_reliable_of(&target) == target.seek_reliable()
            } by {
            assert(Own.landing_of(&target, pos) == target.landing(pos));
            assert(Own.seek_reliable_of(&target) == target.seek_reliable());
        }
        assert forall|target: W, pos: SeekFrom, at: u64, after: W| #[trigger]
            self.table().seek()->Some_0.lands_of(&target, pos, at, &after) == target.lands(
                pos,
                at,
                &after,
            ) by {
            assert(Own.lands_of(&target, pos, at, &after) == target.lands(pos, at, &after));
        }
    }

    /// Declares that the stream tells its type.
    pub fn set_any(&mut self) where W: 'static
        ensures
            old(self).declares(&*final(self)),
            final(self).inner() == old(self).inner(),
            final(self).write_via() == old(self).write_via(),
            final(self).table().any() is Some,
            final(self).table().seek() == old(self).table().seek(),
    {
        self.vtable.any = Some(type_id_of::<W>());
    }

    /// Lends out the stream to look at its writing side.
    pub fn as_write(&self) -> (acc: WriteRef<'_, W>)
        ensures
            acc.via == self.write_via(),
            *acc.target == self.inner(),
    {
        WithMetadataOf::with_metadata_of_on_stable(&self.inner, &self.write)
    }

    /// Lends out the stream for writing.
    pub fn as_write_mut(&mut self) -> (acc: WriteMut<'_, W>)
        ensures
            old(self).kept_in(&*final(self)),
            acc.via == old(self).write_via(),
            *acc.target == old(self).inner(),
            final(self).inner() == *final(acc.target),
            final(self).write_via() == old(self).write_via(),
            final(self).table() == old(self).table(),
            acc.room() == (*old(self)).room(),
            acc.write_reliable() == (*old(self)).write_reliable(),
            acc.lawful() == old(self).writes_lawfully(),
    {
        let acc = WithMetadataOf::with_metadata_of_on_stable(&mut self.inner, &self.write);
        assert(acc.room() == acc.via.room_of(&*acc.target));
        assert(acc.write_reliable() == acc.via.reliable_of(&*acc.target));
        assert(acc.lawful() == old(self).writes_lawfully()) by {
            reveal(takes_lawfully);
        }
        acc
    }

    /// Lends out the stream to look at its seeking side, where that has been
    /// declared.
    pub fn as_seek(&self) -> (acc: Option<SeekRef<'_, W>>)
        ensures
            match acc {
                Some(acc) => self.table().seek() == Some(*acc.via) && *acc.target == self.inner(),
                None => self.table().seek() is None,
            },
    {
        match &self.vtable.seek {
            Some(via) => Some(WithMetadataOf::with_metadata_of_on_stable(&self.inner, via)),
            None => None,
        }
    }

    /// Lends out the stream for seeking, where that has been declared.
    pub fn as_seek_mut(&mut self) -> (acc: Option<SeekMut<'_, W>>)
        ensures
            old(self).kept_in(&*final(self)),
            final(self).write_via() == old(self).write_via(),
            final(self).table() == old(self).table(),
            match acc {
                Some(acc) => {
                    &&& old(self).table().seek() == Some(*acc.via)
                    &&& *acc.target == old(self).inner()
                    &&& final(self).inner() == *final(acc.target)
                    &&& forall|pos: SeekFrom| #[trigger] acc.landing(pos) == old(self).landing(pos)
                    &&& acc.seek_reliable() == old(self).seek_reliable()
                },
                None => old(self).table().seek() is None && final(self).inner() == old(self).inner(),
            },
    {
        match &self.vtable.seek {
            Some(via) => {
                let acc = WithMetadataOf::with_metadata_of_on_stable(&mut self.inner, via);
                assert forall|pos: SeekFrom| #[trigger] acc.landing(pos) == old(self).landing(pos) by {
                    assert(acc.landing(pos) == acc.via.landing_of(&*acc.target, pos));
                }
                assert(acc.seek_reliable() == acc.via.seek_reliable_of(&*acc.target));
                Some(acc)
            },
            None => None,
        }
    }

    /// What identifies the stream's type, where that has been declared.
    ///
    /// The type is told by its `TypeId`; the stream itself is not handed out as
    /// a `dyn Any`. A caller that knows the type compares the identifier with
    /// `TypeId::of`. Where the writer names the stream's type, `get_ref` and
    /// `into_inner` reach the stream; a writer that does not name it has no way to
    /// give the stream back, whatever has been declared.
    pub fn as_any(&self) -> (id: Option<TypeId>)
        ensures
            id == self.table().any(),
    {
        self.vtable.any
    }

    /// What identifies the stream's type, where that has been declared.
    pub fn as_any_mut(&mut self) -> (id: Option<TypeId>)
        ensures
            old(self).kept_in(&*final(self)),
            id == old(self).table().any(),
            *final(self) == *old(self),
    {
        self.vtable.any
    }

    /// Gives back the stream.
    pub fn into_inner(self) -> (inner: W)
        ensures
            inner == self.inner(),
    {
        self.inner
    }
}

/// What a writer offers once the type of its stream is forgotten.
///
/// The stream is seen as the [`room`](Erased::room) it has left and the bytes
/// that the writer has [`taken`](Erased::taken) since it was made or last
/// moved; a [`faithful`](Erased::faithful) writer's stream is where taking
/// exactly these bytes leads. The optional
/// capabilities are there or not as [`has_seek`](Erased::has_seek) and
/// [`type_id`](Erased::type_id) say, and no operation takes one away.
///
/// [`took_to`](Erased::took_to) says what may hold of the stream once it has
/// taken some bytes since the writer was made or last moved: where a seek
/// arrives, and what a seek leaves behind. Writes leave this alone, and a
/// faithful writer shows what is said of the bytes it has taken. For a writer
/// made from a stream of a known type, [`lemma_boxed_takes_seeks`] says what
/// this is in terms of that stream. A seek starts the account anew.
pub trait Erased {
    /// How many more bytes the stream can take.
    spec fn room(&self) -> Option<nat>;

    /// Whether the stream reports no error but an interruption when written to.
    spec fn write_reliable(&self) -> bool;

    /// A bound on how often the stream may still report an interruption.
    spec fn write_stalls(&self) -> nat;

    /// Whether seeking has been declared.
    spec fn has_seek(&self) -> bool;

    /// What identifies the stream's type, where that has been declared.
    spec fn type_id(&self) -> Option<TypeId>;

    /// Where a seek to `pos` arrives, where seeking has been declared.
    spec fn landing(&self, pos: SeekFrom) -> Option<u64>;

    /// Whether the stream refuses a seek only where it has no landing.
    spec fn seek_reliable(&self) -> bool;

    /// The bytes that the writer has taken since it was made or last moved.
    spec fn taken(&self) -> Seq<u8>;

    /// Whether what the writer says it has taken is true to its stream: the
    /// stream is in a state that the stream as it was when the writer was made
    /// or last moved reaches by taking exactly [`taken`](Erased::taken).
    spec fn faithful(&self) -> bool;

    /// Whether the stream may show `then` once it has moved to `pos` and
    /// arrived at `at`.
    spec fn seeks_to(&self, pos: SeekFrom, at: u64, then: Outlook) -> bool;

    /// Whether `what` may hold of the stream once it has taken `data` since
    /// the writer was made or last moved. Writing does not change this, and
    /// a [faithful](Erased::faithful) writer shows what this says of what it
    /// has [taken](Erased::taken).
    spec fn took_to(&self, data: Seq<u8>, what: Asked) -> bool;

    /// Whether seeking has been declared.
    fn can_seek(&self) -> (yes: bool)
        ensures
            yes == self.has_seek(),
    ;

    /// What identifies the stream's type, where that has been declared.
    fn any_id(&self) -> (id: Option<TypeId>)
        ensures
            id == self.type_id(),
    ;

    /// Writes as [`Write::write`] does.
    fn write_erased(&mut self, buf: &[u8]) -> (r: Result<usize, Error>)
        ensures
            (*final(self)).write_reliable() == (*old(self)).write_reliable(),
            (*final(self)).write_stalls() <= (*old(self)).write_stalls(),
            final(self).has_seek() == old(self).has_seek(),
            final(self).type_id() == old(self).type_id(),
            match r {
                Ok(n) => {
                    &&& n <= buf@.len()
                    &&& room_for((*old(self)).room(), n as nat)
                    &&& (*final(self)).room() == room_after((*old(self)).room(), n as nat)
                    &&& n == 0 ==> buf@.len() == 0 || (*old(self)).room() == Some(0nat)
                    &&& final(self).taken() == old(self).taken() + buf@.take(n as int)
                },
                Err(e) => {
                    &&& (*old(self)).write_reliable() ==> e.interrupted()
                    &&& (*final(self)).room() == (*old(self)).room()
                    &&& e.interrupted() ==> (*final(self)).write_stalls() < (*old(self)).write_stalls()
                    &&& final(self).taken() == old(self).taken()
                },
            },
            old(self).faithful() ==> final(self).faithful(),
            forall|data: Seq<u8>, what: Asked| #[trigger]
                final(self).took_to(data, what) == old(self).took_to(data, what),
            final(self).faithful() ==> forall|pos: SeekFrom|
                final(self).took_to(
                    final(self).taken(),
                    Asked::Lands(pos, #[trigger] final(self).landing(pos), final(self).seek_reliable()),
                ),
    ;

    /// Flushes as [`Write::flush`] does.
    fn flush_erased(&mut self) -> (r: Result<(), Error>)
        ensures
            final(self).taken() == old(self).taken(),
            old(self).faithful() ==> final(self).faithful(),
            forall|data: Seq<u8>, what: Asked| #[trigger]
                final(self).took_to(data, what) == old(self).took_to(data, what),
            final(self).faithful() ==> forall|pos: SeekFrom|
                final(self).took_to(
                    final(self).taken(),
                    Asked::Lands(pos, #[trigger] final(self).landing(pos), final(self).seek_reliable()),
                ),
            (*final(self)).write_reliable() == (*old(self)).write_reliable(),
            (*final(self)).write_stalls() <= (*old(self)).write_stalls(),
            final(self).has_seek() == old(self).has_seek(),
            final(self).type_id() == old(self).type_id(),
            (*final(self)).room() == (*old(self)).room(),
            r is Err ==> !(*old(self)).write_reliable(),
    ;

    /// Moves as [`Seek::seek`] does, where seeking has been declared, and
    /// fails where not.
    fn seek_erased(&mut self, pos: SeekFrom) -> (r: Result<u64, Error>)
        ensures
            final(self).seek_reliable() == old(self).seek_reliable(),
            final(self).has_seek() == old(self).has_seek(),
            final(self).type_id() == old(self).type_id(),
            final(self).taken() == Seq::<u8>::empty(),
            final(self).faithful(),
            final(self).faithful() ==> forall|pos: SeekFrom|
                final(self).took_to(
                    final(self).taken(),
                    Asked::Lands(pos, #[trigger] final(self).landing(pos), final(self).seek_reliable()),
                ),
            match r {
                Ok(at) => {
                    &&& old(self).has_seek()
                    &&& old(self).landing(pos) == Some(at)
                    &&& final(self).landing(SeekFrom::Current(0)) == Some(at)
                    &&& old(self).seeks_to(
                        pos,
                        at,
                        (Outlook {
                            room: (*final(self)).room(),
                            reliable: (*final(self)).write_reliable(),
                            stalls: (*final(self)).write_stalls(),
                        }),
                    )
                    &&& old(self).faithful() ==> old(self).took_to(
                        old(self).taken(),
                        Asked::Moves(
                            pos,
                            at,
                            Outlook {
                                room: (*final(self)).room(),
                                reliable: (*final(self)).write_reliable(),
                                stalls: (*final(self)).write_stalls(),
                            },
                        ),
                    )
                },
                Err(e) => {
                    &&& final(self).landing(SeekFrom::Current(0)) == old(self).landing(
                        SeekFrom::Current(0),
                    )
                    &&& old(self).has_seek() && old(self).seek_reliable() ==> old(self).landing(pos)
                        is None && e@ == ErrorKind::InvalidInput
                },
            },
    ;
}

/// A writer's stream on loan, with the writer's descriptors.
#[verifier::reject_recursive_types(W)]
struct Lease<'lt, W> {
    target: &'lt mut W,
    write: &'lt Box<dyn WriteVia<W>>,
    vtable: &'lt OptTable<W>,
    since: Ghost<W>,
    taken: Ghost<Seq<u8>>,
}

impl<'lt, W> Lease<'lt, W> {
    spec fn lawfully(&self) -> bool {
        takes_lawfully(self.write)
    }

    spec fn log_true(&self) -> bool {
        self.lawfully() ==> self.write.accepts_of(&self.since@, self.taken@, &*self.target)
    }

    spec fn lands_on(&self, pos: SeekFrom, at: u64, then: Outlook, after: W) -> bool {
        &&& self.vtable.seek->Some_0.lands_of(&*self.target, pos, at, &after)
        &&& self.write.room_of(&after) == then.room
        &&& self.write.reliable_of(&after) == then.reliable
        &&& self.write.stalls_of(&after) == then.stalls
    }
}

impl<'lt, W> Erased for Lease<'lt, W> {
    closed spec fn taken(&self) -> Seq<u8> {
        self.taken@
    }

    closed spec fn faithful(&self) -> bool {
        self.log_true()
    }

    closed spec fn seeks_to(&self, pos: SeekFrom, at: u64, then: Outlook) -> bool {
        exists|after: W| #[trigger] self.lands_on(pos, at, then, after)
    }

    closed spec fn took_to(&self, data: Seq<u8>, what: Asked) -> bool {
        took_via(self.write, *self.vtable, self.since@, data, what)
    }

    closed spec fn room(&self) -> Option<nat> {
        self.write.room_of(&*self.target)
    }

    closed spec fn write_reliable(&self) -> bool {
        self.write.reliable_of(&*self.target)
    }

    closed spec fn write_stalls(&self) -> nat {
        self.write.stalls_of(&*self.target)
    }

    closed spec fn has_seek(&self) -> bool {
        self.vtable.seek is Some
    }

    closed spec fn type_id(&self) -> Option<TypeId> {
        self.vtable.any
    }

    closed spec fn landing(&self, pos: SeekFrom) -> Option<u64> {
        self.vtable.seek->Some_0.landing_of(&*self.target, pos)
    }

    closed spec fn seek_reliable(&self) -> bool {
        self.vtable.seek->Some_0.seek_reliable_of(&*self.target)
    }

    fn can_seek(&self) -> (yes: bool) {
        self.vtable.seek.is_some()
    }

    fn any_id(&self) -> (id: Option<TypeId>) {
        self.vtable.any
    }

    fn write_erased(&mut self, buf: &[u8]) -> (r: Result<usize, Error>) {
        assert((*old(self)).room() == old(self).write.room_of(&*old(self).target));
        assert((*old(self)).write_reliable() == old(self).write.reliable_of(&*old(self).target));
        assert((*old(self)).write_stalls() == old(self).write.stalls_of(&*old(self).target));
        assert(old(self).has_seek() == (old(self).vtable.seek is Some));
        assert(old(self).type_id() == old(self).vtable.any);
        assert(old(self).taken() == old(self).taken@);
        assert(old(self).faithful() == old(self).log_true());
        let ghost before = *self.target;
        let r = self.write.write_on(self.target, buf);
        match r {
            Ok(n) => {
                self.taken = Ghost(self.taken@ + buf@.take(n as int));
                proof {
                    if old(self).log_true() && self.lawfully() {
                        lemma_takes_in_turn(
    self.write,
                            self.since@,
                            old(self).taken@,
                            before,
                            buf@.take(n as int),
                            *self.target,
                        );
                    }
                    assert(self.faithful() == self.log_true());
                    if self.log_true() {
                        lemma_took_where_it_is(self.write, *self.vtable, self.since@, self.taken@, *self.target);
                    }
                }
                Ok(n)
            },
            Err(e) => {
                proof {
                    assert(self.taken@ + Seq::<u8>::empty() =~= self.taken@);
                    if old(self).log_true() && self.lawfully() {
                        lemma_takes_in_turn(
    self.write,
                            self.since@,
                            old(self).taken@,
                            before,
                            Seq::empty(),
                            *self.target,
                        );
                    }
                    assert(self.faithful() == self.log_true());
                    if self.log_true() {
                        lemma_took_where_it_is(self.write, *self.vtable, self.since@, self.taken@, *self.target);
                    }
                }
                Err(e)
            },
        }
    }

    fn flush_erased(&mut self) -> (r: Result<(), Error>) {
        assert((*old(self)).room() == old(self).write.room_of(&*old(self).target));
        assert((*old(self)).write_reliable() == old(self).write.reliable_of(&*old(self).target));
        assert(old(self).has_seek() == (old(self).vtable.seek is Some));
        assert(old(self).type_id() == old(self).vtable.any);
        assert(old(self).taken() == old(self).taken@);
        assert(old(self).faithful() == old(self).log_true());
        let ghost before = *self.target;
        let r = self.write.flush_on(self.target);
        proof {
            assert(self.taken@ + Seq::<u8>::empty() =~= self.taken@);
            if old(self).log_true() && self.lawfully() {
                lemma_takes_in_turn(
    self.write,
                    self.since@,
                    old(self).taken@,
                    before,
                    Seq::empty(),
                    *self.target,
                );
            }
            assert(self.faithful() == self.log_true());
            if self.log_true() {
                lemma_took_where_it_is(self.write, *self.vtable, self.since@, self.taken@, *self.target);
            }
        }
        r
    }

    fn seek_erased(&mut self, pos: SeekFrom) -> (r: Result<u64, Error>) {
        assert(old(self).landing(pos) == old(self).vtable.seek->Some_0.landing_of(
            &*old(self).target,
            pos,
        ));
        assert(old(self).seek_reliable() == old(self).vtable.seek->Some_0.seek_reliable_of(
            &*old(self).target,
        ));
        assert(old(self).has_seek() == (old(self).vtable.seek is Some));
        assert(old(self).type_id() == old(self).vtable.any);
        let r = match &self.vtable.seek {
            Some(via) => via.seek_on(self.target, pos),
            None => Err(Error::from_kind(ErrorKind::InvalidInput)),
        };
        self.since = Ghost(*self.target);
        self.taken = Ghost(Seq::empty());
        proof {
            if let Ok(at) = r {
                let then = Outlook {
                    room: (*self).room(),
                    reliable: (*self).write_reliable(),
                    stalls: (*self).write_stalls(),
                };
                assert((*self).room() == self.write.room_of(&*self.target));
                assert((*self).write_reliable() == self.write.reliable_of(&*self.target));
                assert((*self).write_stalls() == self.write.stalls_of(&*self.target));
                assert(old(self).lands_on(pos, at, then, *self.target));
                assert(old(self).seeks_to(pos, at, then));
                assert(old(self).faithful() == old(self).log_true());
                assert(old(self).taken() == old(self).taken@);
                if old(self).log_true() {
                    assert(outlook_via(self.write, &*self.target) == then);
                    assert(takes_via(
                        self.write,
                        *self.vtable,
                        old(self).since@,
                        old(self).taken@,
                        Asked::Moves(pos, at, then),
                        *old(self).target,
                        *self.target,
                    ));
                    assert(old(self).took_to(old(self).taken@, Asked::Moves(pos, at, then)));
                }
            }
            assert(self.taken() == self.taken@);
            if self.lawfully() {
                lemma_takes_nothing(self.write, *self.target);
            }
            assert(self.faithful() == self.log_true());
            if self.log_true() {
                lemma_took_where_it_is(self.write, *self.vtable, self.since@, self.taken@, *self.target);
            }
        }
        r
    }
}

impl<W> Erased for Writer<W> {
    open spec fn taken(&self) -> Seq<u8> {
        self.log()
    }

    open spec fn faithful(&self) -> bool {
        self.log_true()
    }

    open spec fn seeks_to(&self, pos: SeekFrom, at: u64, then: Outlook) -> bool {
        Writer::seeks_to(self, pos, at, then)
    }

    open spec fn took_to(&self, data: Seq<u8>, what: Asked) -> bool {
        took_via(self.write_via(), self.table(), self.log_start(), data, what)
    }

    closed spec fn room(&self) -> Option<nat> {
        self.write.room_of(&self.inner)
    }

    closed spec fn write_reliable(&self) -> bool {
        self.write.reliable_of(&self.inner)
    }

    closed spec fn write_stalls(&self) -> nat {
        self.write.stalls_of(&self.inner)
    }

    closed spec fn has_seek(&self) -> bool {
        self.vtable.seek is Some
    }

    closed spec fn type_id(&self) -> Option<TypeId> {
        self.vtable.any
    }

    closed spec fn landing(&self, pos: SeekFrom) -> Option<u64> {
        self.vtable.seek->Some_0.landing_of(&self.inner, pos)
    }

    closed spec fn seek_reliable(&self) -> bool {
        self.vtable.seek->Some_0.seek_reliable_of(&self.inner)
    }

    fn can_seek(&self) -> (yes: bool) {
        self.vtable.seek.is_some()
    }

    fn any_id(&self) -> (id: Option<TypeId>) {
        self.vtable.any
    }

    fn write_erased(&mut self, buf: &[u8]) -> (r: Result<usize, Error>) {
        assert((*old(self)).room() == old(self).write.room_of(&old(self).inner));
        assert((*old(self)).write_reliable() == old(self).write.reliable_of(&old(self).inner));
        assert((*old(self)).write_stalls() == old(self).write.stalls_of(&old(self).inner));
        assert(old(self).has_seek() == (old(self).vtable.seek is Some));
        assert(old(self).type_id() == old(self).vtable.any);
        assert(Erased::taken(old(self)) == old(self).taken@);
        assert(Erased::faithful(old(self)) == old(self).log_true());
        let ghost before = self.inner;
        let r = self.write.write_on(&mut self.inner, buf);
        match r {
            Ok(n) => {
                self.taken = Ghost(self.taken@ + buf@.take(n as int));
                proof {
                    if old(self).log_true() && self.writes_lawfully() {
                        lemma_takes_in_turn(
    &self.write,
                            self.since@,
                            old(self).taken@,
                            before,
                            buf@.take(n as int),
                            self.inner,
                        );
                    }
                    assert(Erased::faithful(self) == self.log_true());
                    if self.log_true() {
                        lemma_took_where_it_is(self.write_via(), self.table(), self.log_start(), self.log(), self.inner());
                    }
                }
                Ok(n)
            },
            Err(e) => {
                proof {
                    assert(self.taken@ + Seq::<u8>::empty() =~= self.taken@);
                    if old(self).log_true() && self.writes_lawfully() {
                        lemma_takes_in_turn(
    &self.write,
                            self.since@,
                            old(self).taken@,
                            before,
                            Seq::empty(),
                            self.inner,
                        );
                    }
                    assert(Erased::faithful(self) == self.log_true());
                    if self.log_true() {
                        lemma_took_where_it_is(self.write_via(), self.table(), self.log_start(), self.log(), self.inner());
                    }
                }
                Err(e)
            },
        }
    }

    fn flush_erased(&mut self) -> (r: Result<(), Error>)
        ensures
            final(self).write_via() == old(self).write_via(),
            final(self).table() == old(self).table(),
            old(self).write_via().accepts_of(&old(self).inner(), Seq::empty(), &final(self).inner()),
    {
        assert((*old(self)).room() == old(self).write.room_of(&old(self).inner));
        assert((*old(self)).write_reliable() == old(self).write.reliable_of(&old(self).inner));
        assert(old(self).has_seek() == (old(self).vtable.seek is Some));
        assert(old(self).type_id() == old(self).vtable.any);
        assert(Erased::taken(old(self)) == old(self).taken@);
        assert(Erased::faithful(old(self)) == old(self).log_true());
        let ghost before = self.inner;
        let r = self.write.flush_on(&mut self.inner);
        proof {
            assert(self.taken@ + Seq::<u8>::empty() =~= self.taken@);
            if old(self).log_true() && self.writes_lawfully() {
                lemma_takes_in_turn(
    &self.write,
                    self.since@,
                    old(self).taken@,
                    before,
                    Seq::empty(),
                    self.inner,
                );
            }
            assert(Erased::faithful(self) == self.log_true());
            if self.log_true() {
                lemma_took_where_it_is(self.write_via(), self.table(), self.log_start(), self.log(), self.inner());
            }
        }
        r
    }

    fn seek_erased(&mut self, pos: SeekFrom) -> (r: Result<u64, Error>) {
        assert(old(self).landing(pos) == old(self).vtable.seek->Some_0.landing_of(
            &old(self).inner,
            pos,
        ));
        assert(old(self).seek_reliable() == old(self).vtable.seek->Some_0.seek_reliable_of(
            &old(self).inner,
        ));
        assert(old(self).has_seek() == (old(self).vtable.seek is Some));
        assert(old(self).type_id() == old(self).vtable.any);
        let r = match &self.vtable.seek {
            Some(via) => via.seek_on(&mut self.inner, pos),
            None => Err(Error::from_kind(ErrorKind::InvalidInput)),
        };
        self.since = Ghost(self.inner);
        self.taken = Ghost(Seq::empty());
        proof {
            if let Ok(at) = r {
                let then = Outlook {
                    room: Erased::room(self),
                    reliable: Erased::write_reliable(self),
                    stalls: Erased::write_stalls(self),
                };
                assert(Erased::room(self) == self.write.room_of(&self.inner));
                assert(Erased::write_reliable(self) == self.write.reliable_of(&self.inner));
                assert(Erased::write_stalls(self) == self.write.stalls_of(&self.inner));
                assert(Writer::lands_on(old(self), pos, at, then, self.inner));
                assert(Erased::seeks_to(old(self), pos, at, then));
                if old(self).log_true() {
                    assert(outlook_via(self.write_via(), &self.inner()) == then);
                    assert(takes_via(
                        self.write_via(),
                        self.table(),
                        old(self).log_start(),
                        old(self).log(),
                        Asked::Moves(pos, at, then),
                        old(self).inner(),
                        self.inner(),
                    ));
                    assert(Erased::took_to(old(self), old(self).log(), Asked::Moves(pos, at, then)));
                }
            }
            assert(Erased::taken(self) == self.taken@);
            if self.writes_lawfully() {
                lemma_takes_nothing(&self.write, self.inner);
            }
            assert(Erased::faithful(self) == self.log_true());
            if self.log_true() {
                lemma_took_where_it_is(self.write_via(), self.table(), self.log_start(), self.log(), self.inner());
            }
        }
        r
    }
}

/// What `writer` has declared.
pub open spec fn declared_by<A: Erased + ?Sized>(writer: &A) -> Declared {
    Declared { seek: writer.has_seek(), buf: false, any: writer.type_id() }
}

/// Whether two writers are in one state as far as [`Erased`] tells: they have
/// the same room, have the same capabilities declared and seek alike.
pub open spec fn same_writer<A: Erased + ?Sized, B: Erased + ?Sized>(a: &A, b: &B) -> bool {
    &&& a.room() == b.room()
    &&& a.write_reliable() == b.write_reliable()
    &&& a.write_stalls() == b.write_stalls()
    &&& a.has_seek() == b.has_seek()
    &&& a.type_id() == b.type_id()
    &&& a.seek_reliable() == b.seek_reliable()
    &&& forall|pos: SeekFrom| #[trigger] a.landing(pos) == b.landing(pos)
    &&& forall|pos: SeekFrom, at: u64, then: Outlook| #[trigger]
        a.seeks_to(pos, at, then) == b.seeks_to(pos, at, then)
}

/// Whether `writer`, where it is faithful, shows where its stream is what it
/// says of a stream that has taken as much.
pub open spec fn stands<A: Erased + ?Sized>(writer: &A) -> bool {
    writer.faithful() ==> forall|pos: SeekFrom|
        writer.took_to(
            writer.taken(),
            Asked::Lands(pos, #[trigger] writer.landing(pos), writer.seek_reliable()),
        )
}

/// Whether `after` says of every run of bytes what `target` says of it, and
/// shows what it says where `target` does.
pub open spec fn keeps<'lt>(target: &Box<dyn Erased + 'lt>, after: &Box<dyn Erased + 'lt>) -> bool {
    &&& forall|data: Seq<u8>, what: Asked| #[trigger]
        after.took_to(data, what) == target.took_to(data, what)
    &&& stands(&**target) ==> stands(&**after)
}

/// An erased writer on loan.
struct Relay<'a, 'lt> {
    target: &'a mut Box<dyn Erased + 'lt>,
}

impl<'a, 'lt> Erased for Relay<'a, 'lt> {
    closed spec fn taken(&self) -> Seq<u8> {
        self.target.taken()
    }

    closed spec fn faithful(&self) -> bool {
        self.target.faithful()
    }

    closed spec fn seeks_to(&self, pos: SeekFrom, at: u64, then: Outlook) -> bool {
        self.target.seeks_to(pos, at, then)
    }

    closed spec fn took_to(&self, data: Seq<u8>, what: Asked) -> bool {
        self.target.took_to(data, what)
    }

    closed spec fn room(&self) -> Option<nat> {
        self.target.room()
    }

    closed spec fn write_reliable(&self) -> bool {
        self.target.write_reliable()
    }

    closed spec fn write_stalls(&self) -> nat {
        self.target.write_stalls()
    }

    closed spec fn has_seek(&self) -> bool {
        self.target.has_seek()
    }

    closed spec fn type_id(&self) -> Option<TypeId> {
        self.target.type_id()
    }

    closed spec fn landing(&self, pos: SeekFrom) -> Option<u64> {
        self.target.landing(pos)
    }

    closed spec fn seek_reliable(&self) -> bool {
        self.target.seek_reliable()
    }

    fn can_seek(&self) -> (yes: bool) {
        self.target.can_seek()
    }

    fn any_id(&self) -> (id: Option<TypeId>) {
        self.target.any_id()
    }

    fn write_erased(&mut self, buf: &[u8]) -> (r: Result<usize, Error>) {
        assert(old(self).taken() == old(self).target.taken());
        assert(old(self).faithful() == old(self).target.faithful());
        assert((*old(self)).room() == old(self).target.room());
        assert((*old(self)).write_reliable() == old(self).target.write_reliable());
        assert((*old(self)).write_stalls() == old(self).target.write_stalls());
        assert(old(self).has_seek() == old(self).target.has_seek());
        assert(old(self).type_id() == old(self).target.type_id());
        self.target.write_erased(buf)
    }

    fn flush_erased(&mut self) -> (r: Result<(), Error>) {
        assert(old(self).taken() == old(self).target.taken());
        assert(old(self).faithful() == old(self).target.faithful());
        assert((*old(self)).room() == old(self).target.room());
        assert((*old(self)).write_reliable() == old(self).target.write_reliable());
        assert(old(self).has_seek() == old(self).target.has_seek());
        assert(old(self).type_id() == old(self).target.type_id());
        self.target.flush_erased()
    }

    fn seek_erased(&mut self, pos: SeekFrom) -> (r: Result<u64, Error>) {
        assert(old(self).landing(pos) == old(self).target.landing(pos));
        assert(old(self).seek_reliable() == old(self).target.seek_reliable());
        assert(old(self).taken() == old(self).target.taken());
        assert(old(self).faithful() == old(self).target.faithful());
        assert((*old(self)).room() == old(self).target.room());
        assert(forall|at: u64, then: Outlook| #[trigger]
            old(self).seeks_to(pos, at, then) == old(self).target.seeks_to(pos, at, then));
        assert(old(self).has_seek() == old(self).target.has_seek());
        assert(old(self).type_id() == old(self).target.type_id());
        assert(forall|data: Seq<u8>, what: Asked| #[trigger]
            old(self).took_to(data, what) == old(self).target.took_to(data, what));
        let r = self.target.seek_erased(pos);
        assert((*self).room() == self.target.room());
        assert((*self).write_reliable() == self.target.write_reliable());
        assert((*self).write_stalls() == self.target.write_stalls());
        r
    }
}

/// A writer on loan that does not name the type of its stream.
///
/// It writes, and offers what had been declared on the writer when it was lent
/// out. Nothing can be declared on it, and nothing it offers is taken back.
pub struct WriterMut<'lt> {
    inner: Box<dyn Erased + 'lt>,
    vtable: Declared,
}

/// A writer that owns its stream and does not name the stream's type.
///
/// It writes, and offers what had been declared on the writer when it was
/// boxed. Nothing can be declared on it, and nothing it offers is taken back.
pub struct WriterBox<'lt> {
    inner: Box<dyn Erased + 'lt>,
    vtable: Declared,
}

/// An erased writer lent out for writing.
pub struct ErasedWriteMut<'a, 'lt> {
    /// The writer.
    pub target: &'a mut Box<dyn Erased + 'lt>,
}

/// An erased writer lent out for seeking.
pub struct ErasedSeekMut<'a, 'lt> {
    /// The writer.
    pub target: &'a mut Box<dyn Erased + 'lt>,
}

/// How an erased writer is written to: by itself. Of the bytes it takes it
/// tells that they use up room and go onto what it has taken.
pub struct Through;

impl<'lt> WriteVia<Box<dyn Erased + 'lt>> for Through {
    open spec fn declared_of(&self, target: &Box<dyn Erased + 'lt>) -> Declared {
        declared_by(&**target)
    }

    open spec fn room_of(&self, target: &Box<dyn Erased + 'lt>) -> Option<nat> {
        target.room()
    }

    open spec fn accepts_of(
        &self,
        target: &Box<dyn Erased + 'lt>,
        data: Seq<u8>,
        after: &Box<dyn Erased + 'lt>,
    ) -> bool {
        &&& room_for(target.room(), data.len())
        &&& after.room() == room_after(target.room(), data.len())
        &&& after.taken() == target.taken() + data
        &&& target.faithful() ==> after.faithful()
        &&& keeps(target, after)
    }

    open spec fn reliable_of(&self, target: &Box<dyn Erased + 'lt>) -> bool {
        target.write_reliable()
    }

    open spec fn stalls_of(&self, target: &Box<dyn Erased + 'lt>) -> nat {
        target.write_stalls()
    }

    fn write_on(&self, target: &mut Box<dyn Erased + 'lt>, buf: &[u8]) -> (r: Result<usize, Error>) {
        assert(self.declared_of(old(target)) == declared_by(&**old(target)));
        assert(self.room_of(old(target)) == (*old(target)).room());
        assert(self.reliable_of(old(target)) == (*old(target)).write_reliable());
        assert(self.stalls_of(old(target)) == (*old(target)).write_stalls());
        let r = target.write_erased(buf);
        assert(forall|data: Seq<u8>| #[trigger]
            self.accepts_of(old(target), data, target) == (room_for((*old(target)).room(), data.len())
                && target.room() == room_after((*old(target)).room(), data.len()) && target.taken()
                == old(target).taken() + data && (old(target).faithful() ==> target.faithful())
                && keeps(old(target), target)));
        assert(old(target).taken() + Seq::<u8>::empty() =~= old(target).taken());
        r
    }

    fn flush_on(&self, target: &mut Box<dyn Erased + 'lt>) -> (r: Result<(), Error>) {
        assert(self.declared_of(old(target)) == declared_by(&**old(target)));
        assert(self.room_of(old(target)) == (*old(target)).room());
        assert(self.reliable_of(old(target)) == (*old(target)).write_reliable());
        let r = target.flush_erased();
        assert(self.accepts_of(old(target), Seq::empty(), target) == (room_for(
            (*old(target)).room(),
            0,
        ) && target.room() == room_after((*old(target)).room(), 0) && target.taken() == old(
            target,
        ).taken() + Seq::<u8>::empty() && (old(target).faithful() ==> target.faithful()) && keeps(
            old(target),
            target,
        )));
        assert(old(target).taken() + Seq::<u8>::empty() =~= old(target).taken());
        r
    }
}

/// An erased writer tells of the bytes it takes that they use up room and go
/// onto what it has taken.
impl<'a, 'lt> Write for ErasedWriteMut<'a, 'lt> {
    open spec fn room(&self) -> Option<nat> {
        self.target.room()
    }

    open spec fn accepts(&self, data: Seq<u8>, after: &Self) -> bool {
        Through.accepts_of(self.target, data, after.target)
    }

    open spec fn write_reliable(&self) -> bool {
        self.target.write_reliable()
    }

    open spec fn write_stalls(&self) -> nat {
        self.target.write_stalls()
    }

    fn write(&mut self, buf: &[u8]) -> (r: Result<usize, Error>)
        ensures
            *final(final(self).target) == *final(old(self).target),
            declared_by(&**final(self).target) == declared_by(&**old(self).target),
    {
        assert((*old(self)).room() == old(self).target.room());
        assert((*old(self)).write_reliable() == old(self).target.write_reliable());
        assert((*old(self)).write_stalls() == old(self).target.write_stalls());
        let r = Through.write_on(self.target, buf);
        assert(forall|data: Seq<u8>| #[trigger]
            (*old(self)).accepts(data, &*self) == Through.accepts_of(
                old(self).target,
                data,
                self.target,
            ));
        r
    }

    fn flush(&mut self) -> (r: Result<(), Error>)
        ensures
            *final(final(self).target) == *final(old(self).target),
            declared_by(&**final(self).target) == declared_by(&**old(self).target),
    {
        assert((*old(self)).room() == old(self).target.room());
        assert((*old(self)).write_reliable() == old(self).target.write_reliable());
        let r = Through.flush_on(self.target);
        assert((*old(self)).accepts(Seq::empty(), &*self) == Through.accepts_of(
            old(self).target,
            Seq::empty(),
            self.target,
        ));
        r
    }

    fn write_all(&mut self, buf: &[u8]) -> (r: Result<(), Error>)
        ensures
            *final(final(self).target) == *final(old(self).target),
            declared_by(&**final(self).target) == declared_by(&**old(self).target),
            match r {
                Ok(_) => (*old(self)).accepts(buf@, &*final(self)),
                Err(_) => exists|k: nat|
                    k < buf@.len() && #[trigger] (*old(self)).accepts(buf@.take(k as int), &*final(self)),
            },
    {
        assert((*old(self)).room() == old(self).target.room());
        assert((*old(self)).write_reliable() == old(self).target.write_reliable());
        proof {
            lemma_through_lawful();
        }
        let r = write_all_via(&Through, self.target, buf);
        proof {
            assert(forall|data: Seq<u8>| #[trigger]
                (*old(self)).accepts(data, &*self) == Through.accepts_of(
                    old(self).target,
                    data,
                    self.target,
                ));
            if r is Err {
                let k = choose|k: nat|
                    {
                        &&& k < buf@.len()
                        &&& room_for(Through.room_of(old(self).target), k)
                        &&& Through.room_of(self.target) == #[trigger] room_after(
                            Through.room_of(old(self).target),
                            k,
                        )
                        &&& lawful_via(&Through) ==> Through.accepts_of(
                            old(self).target,
                            buf@.take(k as int),
                            self.target,
                        )
                    };
                assert((*old(self)).accepts(buf@.take(k as int), &*self));
            }
        }
        r
    }
}

/// What an erased writer calls taking bytes obeys the laws.
pub proof fn lemma_through_lawful<'lt>()
    ensures
        lawful_via::<Box<dyn Erased + 'lt>, Through>(&Through),
{
    assert forall|target: Box<dyn Erased + 'lt>| #[trigger]
        Through.accepts_of(&target, Seq::empty(), &target) by {
        assert(target.taken() + Seq::<u8>::empty() =~= target.taken());
    }
    assert forall|
        target: Box<dyn Erased + 'lt>,
        first: Seq<u8>,
        between: Box<dyn Erased + 'lt>,
        second: Seq<u8>,
        after: Box<dyn Erased + 'lt>,
    |
        (#[trigger] Through.accepts_of(&target, first, &between)) && (
        #[trigger] Through.accepts_of(&between, second, &after)) implies Through.accepts_of(
        &target,
        first + second,
        &after,
    ) by {
        assert(target.taken() + first + second =~= target.taken() + (first + second));
    }
}

/// Taking bytes obeys the laws in `ErasedWriteMut<'lt>`.
pub proof fn lemma_erased_write_lawful<'a, 'lt>()
    ensures
        lawful::<ErasedWriteMut<'a, 'lt>>(),
{
    reveal(lawful);
    lemma_through_lawful();
    assert forall|a: &ErasedWriteMut<'a, 'lt>| #[trigger] a.accepts(Seq::empty(), a) by {
        assert(Through.accepts_of(a.target, Seq::empty(), a.target));
    }
    assert forall|
        a: &ErasedWriteMut<'a, 'lt>,
        first: Seq<u8>,
        b: &ErasedWriteMut<'a, 'lt>,
        second: Seq<u8>,
        c: &ErasedWriteMut<'a, 'lt>,
    |
        (#[trigger] a.accepts(first, b)) && (#[trigger] b.accepts(second, c)) implies a.accepts(
        first + second,
        c,
    ) by {
        assert(Through.accepts_of(a.target, first, b.target));
        assert(Through.accepts_of(b.target, second, c.target));
        assert(Through.accepts_of(a.target, first + second, c.target));
    }
}

impl<'a, 'lt> Seek for ErasedSeekMut<'a, 'lt> {
    open spec fn landing(&self, pos: SeekFrom) -> Option<u64> {
        self.target.landing(pos)
    }

    open spec fn seek_reliable(&self) -> bool {
        self.target.has_seek() && self.target.seek_reliable()
    }

    open spec fn lands(&self, pos: SeekFrom, at: u64, after: &Self) -> bool {
        self.target.seeks_to(
            pos,
            at,
            Outlook {
                room: after.target.room(),
                reliable: after.target.write_reliable(),
                stalls: after.target.write_stalls(),
            },
        )
    }

    fn seek(&mut self, pos: SeekFrom) -> (r: Result<u64, Error>)
        ensures
            *final(final(self).target) == *final(old(self).target),
            declared_by(&**final(self).target) == declared_by(&**old(self).target),
            final(self).target.taken() == Seq::<u8>::empty(),
            final(self).target.faithful(),
            stands(&**final(self).target),
            r matches Ok(at) ==> (old(self).target.faithful() ==> old(self).target.took_to(
                old(self).target.taken(),
                Asked::Moves(
                    pos,
                    at,
                    Outlook {
                        room: final(self).target.room(),
                        reliable: final(self).target.write_reliable(),
                        stalls: final(self).target.write_stalls(),
                    },
                ),
            )),
    {
        assert(forall|at: u64, after: &Self| #[trigger]
            old(self).lands(pos, at, after) == old(self).target.seeks_to(
                pos,
                at,
                Outlook {
                    room: after.target.room(),
                    reliable: after.target.write_reliable(),
                    stalls: after.target.write_stalls(),
                },
            ));
        assert(old(self).landing(pos) == old(self).target.landing(pos));
        assert(old(self).seek_reliable() == (old(self).target.has_seek() && old(
            self,
        ).target.seek_reliable()));
        self.target.seek_erased(pos)
    }

    fn stream_position(&mut self) -> (r: Result<u64, Error>)
        ensures
            *final(final(self).target) == *final(old(self).target),
            declared_by(&**final(self).target) == declared_by(&**old(self).target),
            final(self).target.taken() == Seq::<u8>::empty(),
            final(self).target.faithful(),
            stands(&**final(self).target),
            r matches Ok(at) ==> (old(self).target.faithful() ==> old(self).target.took_to(
                old(self).target.taken(),
                Asked::Moves(
                    SeekFrom::Current(0),
                    at,
                    Outlook {
                        room: final(self).target.room(),
                        reliable: final(self).target.write_reliable(),
                        stalls: final(self).target.write_stalls(),
                    },
                ),
            )),
    {
        self.seek(SeekFrom::Current(0))
    }
}

impl<'lt> WriterMut<'lt> {
    /// The writer behind this handle.
    pub closed spec fn erased(&self) -> &Box<dyn Erased + 'lt> {
        &self.inner
    }

    /// What this handle offers: its copy of what had been declared.
    pub closed spec fn table(&self) -> Declared {
        self.vtable
    }

    /// Whether the handle is well formed: it offers what the writer behind it
    /// has declared.
    pub open spec fn wf(&self) -> bool {
        self.table() == declared_by(&**self.erased())
    }

    /// How many more bytes the stream can take.
    pub open spec fn room(&self) -> Option<nat> {
        self.erased().room()
    }

    /// Lends out the writer for writing.
    pub fn as_write_mut(&mut self) -> (acc: ErasedWriteMut<'_, 'lt>)
        ensures
            *acc.target == *old(self).erased(),
            *final(self).erased() == *final(acc.target),
            final(self).table() == old(self).table(),
            acc.room() == (*old(self)).room(),
            acc.write_reliable() == old(self).erased().write_reliable(),
    {
        let acc = ErasedWriteMut { target: &mut self.inner };
        assert(acc.room() == acc.target.room());
        assert(acc.write_reliable() == acc.target.write_reliable());
        acc
    }

    /// Lends out the writer for seeking, where that has been declared.
    pub fn as_seek_mut(&mut self) -> (acc: Option<ErasedSeekMut<'_, 'lt>>)
        ensures
            acc is Some <==> old(self).table().seek,
            final(self).table() == old(self).table(),
            match acc {
                Some(acc) => {
                    &&& *acc.target == *old(self).erased()
                    &&& *final(self).erased() == *final(acc.target)
                    &&& forall|pos: SeekFrom| #[trigger]
                        acc.landing(pos) == old(self).erased().landing(pos)
                },
                None => *final(self) == *old(self),
            },
    {
        if self.vtable.seek {
            let acc = ErasedSeekMut { target: &mut self.inner };
            assert forall|pos: SeekFrom| #[trigger]
                acc.landing(pos) == old(self).erased().landing(pos) by {
                assert(acc.landing(pos) == acc.target.landing(pos));
            }
            Some(acc)
        } else {
            None
        }
    }

    /// What identifies the stream's type, where that has been declared.
    ///
    /// The type is told by its `TypeId`; the stream itself is not handed out as
    /// a `dyn Any`. A caller that knows the type compares the identifier with
    /// `TypeId::of`. Where the writer names the stream's type, `get_ref` and
    /// `into_inner` reach the stream; a writer that does not name it has no way to
    /// give the stream back, whatever has been declared.
    pub fn as_any(&self) -> (id: Option<TypeId>)
        ensures
            id == self.table().any,
    {
        self.vtable.any
    }

    /// What identifies the stream's type, where that has been declared.
    pub fn as_any_mut(&mut self) -> (id: Option<TypeId>)
        ensures
            id == old(self).table().any,
            *final(self) == *old(self),
    {
        self.vtable.any
    }
}

impl<'lt> WriterBox<'lt> {
    /// The writer behind this handle.
    pub closed spec fn erased(&self) -> &Box<dyn Erased + 'lt> {
        &self.inner
    }

    /// What this handle offers: its copy of what had been declared.
    pub closed spec fn table(&self) -> Declared {
        self.vtable
    }

    /// Whether the handle is well formed: it offers what the writer behind it
    /// has declared.
    pub open spec fn wf(&self) -> bool {
        self.table() == declared_by(&**self.erased())
    }

    /// How many more bytes the stream can take.
    pub open spec fn room(&self) -> Option<nat> {
        self.erased().room()
    }

    /// Lends out the writer for writing.
    pub fn as_read_mut(&mut self) -> (acc: ErasedWriteMut<'_, 'lt>)
        ensures
            *acc.target == *old(self).erased(),
            *final(self).erased() == *final(acc.target),
            final(self).table() == old(self).table(),
            acc.room() == (*old(self)).room(),
            acc.write_reliable() == old(self).erased().write_reliable(),
    {
        let acc = ErasedWriteMut { target: &mut self.inner };
        assert(acc.room() == acc.target.room());
        assert(acc.write_reliable() == acc.target.write_reliable());
        acc
    }

    /// Lends out the writer for seeking, where that has been declared.
    pub fn as_seek_mut(&mut self) -> (acc: Option<ErasedSeekMut<'_, 'lt>>)
        ensures
            acc is Some <==> old(self).table().seek,
            final(self).table() == old(self).table(),
            match acc {
                Some(acc) => {
                    &&& *acc.target == *old(self).erased()
                    &&& *final(self).erased() == *final(acc.target)
                    &&& forall|pos: SeekFrom| #[trigger]
                        acc.landing(pos) == old(self).erased().landing(pos)
                },
                None => *final(self) == *old(self),
            },
    {
        if self.vtable.seek {
            let acc = ErasedSeekMut { target: &mut self.inner };
            assert forall|pos: SeekFrom| #[trigger]
                acc.landing(pos) == old(self).erased().landing(pos) by {
                assert(acc.landing(pos) == acc.target.landing(pos));
            }
            Some(acc)
        } else {
            None
        }
    }

    /// What identifies the stream's type, where that has been declared.
    ///
    /// The type is told by its `TypeId`; the stream itself is not handed out as
    /// a `dyn Any`. A caller that knows the type compares the identifier with
    /// `TypeId::of`. Where the writer names the stream's type, `get_ref` and
    /// `into_inner` reach the stream; a writer that does not name it has no way to
    /// give the stream back, whatever has been declared.
    pub fn as_any(&self) -> (id: Option<TypeId>)
        ensures
            id == self.table().any,
    {
        self.vtable.any
    }

    /// What identifies the stream's type, where that has been declared.
    pub fn as_any_mut(&mut self) -> (id: Option<TypeId>)
        ensures
            id == old(self).table().any,
            *final(self) == *old(self),
    {
        self.vtable.any
    }
}

impl<'lt> WriterBox<'lt> {
    /// Lends out the writer as a [`WriterMut`], which offers what the box offers
    /// and has taken what the box has taken.
    ///
    /// The contract does not say what the box shows once the loan has ended:
    /// the borrow of the box lies behind a `dyn`. Where that is needed, use the
    /// accessors of the box itself, whose contracts say it.
    pub fn as_mut(&mut self) -> (view: WriterMut<'_>)
        ensures
            same_writer(&**view.erased(), &**old(self).erased()),
            view.erased().taken() == old(self).erased().taken(),
            view.erased().faithful() == old(self).erased().faithful(),
            forall|data: Seq<u8>, what: Asked| #[trigger]
                view.erased().took_to(data, what) == old(self).erased().took_to(
                    data,
                    what,
                ),
            stands(&**old(self).erased()) ==> stands(&**view.erased()),
            view.table() == old(self).table(),
            final(self).table() == old(self).table(),
    {
        let vtable = self.vtable;
        WriterMut { inner: Box::new(Relay { target: &mut self.inner }), vtable }
    }
}

impl<W> Writer<W> {
    /// Lends out the writer as one that does not name the stream's type. The
    /// loan writes to the stream as it is now and offers what has been declared
    /// so far. It has taken nothing yet, and what it will say it has taken is
    /// true to the stream.
    ///
    /// The contract does not say what the writer's stream is once the loan has
    /// ended: the borrow of the stream lies behind a `dyn`, and no spec
    /// function of a trait may speak of the value that a borrow will have in
    /// the end. Where that is needed, use the accessors of the writer itself,
    /// whose contracts say it.
    pub fn as_mut(&mut self) -> (view: WriterMut<'_>)
        ensures
            old(self).kept_in(&*final(self)),
            same_writer(&**view.erased(), old(self)),
            view.erased().taken() == Seq::<u8>::empty(),
            view.erased().faithful(),
            forall|data: Seq<u8>, what: Asked| #[trigger]
                view.erased().took_to(data, what) == old(self).takes_to(data, what),
            stands(&**view.erased()),
            view.table() == old(self).declared(),
            view.wf(),
            final(self).write_via() == old(self).write_via(),
            final(self).table() == old(self).table(),
    {
        let vtable = Declared { seek: self.vtable.seek.is_some(), buf: false, any: self.vtable.any };
        let ghost start = self.inner;
        let lease = Lease {
            target: &mut self.inner,
            write: &self.write,
            vtable: &self.vtable,
            since: Ghost(start),
            taken: Ghost(Seq::empty()),
        };
        proof {
            if lease.lawfully() {
                lemma_takes_nothing(lease.write, start);
            }
            lemma_took_where_it_is(lease.write, *lease.vtable, start, Seq::empty(), start);
            assert(lease.faithful() && lease.taken() == Seq::<u8>::empty());
            assert forall|pos: SeekFrom, at: u64, then: Outlook| #[trigger]
                lease.seeks_to(pos, at, then) == Writer::seeks_to(old(self), pos, at, then) by {
                if lease.seeks_to(pos, at, then) {
                    let after = choose|after: W| #[trigger] lease.lands_on(pos, at, then, after);
                    assert(Writer::lands_on(old(self), pos, at, then, after));
                }
                if Writer::seeks_to(old(self), pos, at, then) {
                    let after = choose|after: W| #[trigger]
                        Writer::lands_on(old(self), pos, at, then, after);
                    assert(lease.lands_on(pos, at, then, after));
                }
            }
        }
        WriterMut { inner: Box::new(lease), vtable }
    }

    /// Moves the writer to the heap and forgets the type of its stream. The
    /// box writes to the stream as it is now and offers what has been declared
    /// so far. It has taken nothing yet, and what it will say it has taken is
    /// true to the stream.
    pub fn into_boxed<'lt>(self) -> (boxed: WriterBox<'lt>) where W: 'lt
        ensures
            same_writer(&**boxed.erased(), &self),
            boxed.erased().taken() == Seq::<u8>::empty(),
            boxed.erased().faithful(),
            forall|data: Seq<u8>, what: Asked| #[trigger]
                boxed.erased().took_to(data, what) == self.takes_to(data, what),
            stands(&**boxed.erased()),
            boxed.table() == self.declared(),
            boxed.wf(),
    {
        let vtable = Declared { seek: self.vtable.seek.is_some(), buf: false, any: self.vtable.any };
        let mut this = self;
        this.since = Ghost(this.inner);
        this.taken = Ghost(Seq::empty());
        proof {
            if this.writes_lawfully() {
                lemma_takes_nothing(this.write_via(), this.inner());
            }
            lemma_took_where_it_is(
                this.write_via(),
                this.table(),
                this.inner(),
                Seq::empty(),
                this.inner(),
            );
            assert(Erased::faithful(&this) && Erased::taken(&this) == Seq::<u8>::empty());
            assert forall|pos: SeekFrom, at: u64, then: Outlook| #[trigger]
                Erased::seeks_to(&this, pos, at, then) == Erased::seeks_to(&self, pos, at, then) by {
                if Writer::seeks_to(&this, pos, at, then) {
                    let after = choose|after: W| #[trigger]
                        Writer::lands_on(&this, pos, at, then, after);
                    assert(Writer::lands_on(&self, pos, at, then, after));
                }
                if Writer::seeks_to(&self, pos, at, then) {
                    let after = choose|after: W| #[trigger]
                        Writer::lands_on(&self, pos, at, then, after);
                    assert(Writer::lands_on(&this, pos, at, then, after));
                }
            }
        }
        WriterBox { inner: Box::new(this), vtable }
    }
}

/// A writer is lent out as a [`WriterMut`] by [`Writer::as_mut`].
impl<'lt, W> From<&'lt mut Writer<W>> for WriterMut<'lt> {
    fn from(value: &'lt mut Writer<W>) -> (view: Self)
        ensures
            same_writer(&**view.erased(), old(value)),
            forall|data: Seq<u8>, what: Asked| #[trigger]
                view.erased().took_to(data, what) == old(value).takes_to(data, what),
            stands(&**view.erased()),
            view.table() == old(value).declared(),
            view.wf(),
            final(value).write_via() == old(value).write_via(),
            final(value).table() == old(value).table(),
    {
        value.as_mut()
    }
}

/// What the conversion gives is said by `from` itself: no value of the
/// result can be named ahead of the conversion.
impl<'lt, W> vstd::std_specs::convert::FromSpecImpl<&'lt mut Writer<W>> for WriterMut<'lt> {
    open spec fn obeys_from_spec() -> bool {
        false
    }

    open spec fn from_spec(value: &'lt mut Writer<W>) -> Self {
        arbitrary()
    }
}

/// A writer is boxed by [`Writer::into_boxed`].
impl<'lt, W: 'lt> From<Writer<W>> for WriterBox<'lt> {
    fn from(value: Writer<W>) -> (boxed: Self)
        ensures
            same_writer(&**boxed.erased(), &value),
            boxed.table() == value.declared(),
            boxed.wf(),
    {
        value.into_boxed()
    }
}

/// What the conversion gives is said by `from` itself: no value of the
/// result can be named ahead of the conversion.
impl<'lt, W: 'lt> vstd::std_specs::convert::FromSpecImpl<Writer<W>> for WriterBox<'lt> {
    open spec fn obeys_from_spec() -> bool {
        false
    }

    open spec fn from_spec(value: Writer<W>) -> Self {
        arbitrary()
    }
}

/// A boxed writer is lent out as a [`WriterMut`] by [`WriterBox::as_mut`].
impl<'lt, 'b> From<&'lt mut WriterBox<'b>> for WriterMut<'lt> {
    fn from(value: &'lt mut WriterBox<'b>) -> (view: Self)
        ensures
            same_writer(&**view.erased(), &**old(value).erased()),
            view.table() == old(value).table(),
            final(value).table() == old(value).table(),
    {
        value.as_mut()
    }
}

/// What the conversion gives is said by `from` itself: no value of the
/// result can be named ahead of the conversion.
impl<'lt, 'b> vstd::std_specs::convert::FromSpecImpl<&'lt mut WriterBox<'b>> for WriterMut<'lt> {
    open spec fn obeys_from_spec() -> bool {
        false
    }

    open spec fn from_spec(value: &'lt mut WriterBox<'b>) -> Self {
        arbitrary()
    }
}

impl<W> Writer<W> {
    /// A writer that writes with the stream's own descriptor has the room that
    /// the stream has.
    pub proof fn lemma_writes_stream(&self) where W: Write
        requires
            self.writes_own(),
        ensures
            (*self).room() == self.inner().room(),
            (*self).write_reliable() == self.inner().write_reliable(),
            (*self).write_stalls() == self.inner().write_stalls(),
    {
        let target = self.inner();
        assert(self.write_via().room_of(&target) == target.room());
    }

    /// A writer that writes with the stream's own descriptor takes bytes
    /// lawfully where the stream does.
    pub proof fn lemma_writes_lawfully(&self) where W: Write
        requires
            self.writes_own(),
            lawful::<W>(),
        ensures
            self.writes_lawfully(),
    {
        reveal(lawful);
        reveal(takes_lawfully);
        let via = self.write_via();
        assert forall|target: W| #[trigger] via.accepts_of(&target, Seq::empty(), &target) by {
            assert(via.room_of(&target) == target.room());
            assert(target.accepts(Seq::empty(), &target));
        }
        assert forall|target: W, first: Seq<u8>, between: W, second: Seq<u8>, after: W|
            (#[trigger] via.accepts_of(&target, first, &between)) && (#[trigger] via.accepts_of(
                &between,
                second,
                &after,
            )) implies via.accepts_of(&target, first + second, &after) by {
            assert(via.room_of(&target) == target.room());
            assert(via.room_of(&between) == between.room());
            assert(target.accepts(first, &between));
            assert(between.accepts(second, &after));
            assert(target.accepts(first + second, &after));
        }
    }

    /// A writer that seeks with the stream's own descriptor arrives where the
    /// stream arrives.
    pub proof fn lemma_seeks_stream(&self, pos: SeekFrom) where W: Seek
        requires
            self.seeks_own(),
        ensures
            self.declared().seek,
            self.landing(pos) == self.inner().landing(pos),
            self.seek_reliable() == self.inner().seek_reliable(),
            forall|at: u64, after: W| #[trigger]
                self.table().seek()->Some_0.lands_of(&self.inner(), pos, at, &after)
                    == self.inner().lands(pos, at, &after),
    {
        let target = self.inner();
        let via = self.table().seek()->Some_0;
        assert(via.landing_of(&target, pos) == target.landing(pos));
    }

    /// What a writer with the stream's own descriptors that takes bytes
    /// lawfully says of a run of bytes is what holds of the stream in a state
    /// that it reaches by taking them.
    pub proof fn lemma_takes_seeks(&self, data: Seq<u8>, what: Asked) where W: Write + Seek
        requires
            self.writes_own(),
            self.seeks_own(),
            self.writes_lawfully(),
            self.takes_to(data, what),
        ensures
            exists|mid: W, after: W|
                {
                    &&& self.inner().accepts(data, &mid)
                    &&& #[trigger] asked(what, &mid, &after)
                },
    {
        let write = self.write_via();
        let table = self.table();
        let (mid, after) = choose|mid: W, after: W| #[trigger]
            takes_via(write, table, self.inner(), data, what, mid, after);
        let via = table.seek()->Some_0;
        assert(write.room_of(&self.inner()) == self.inner().room());
        assert(write.room_of(&mid) == mid.room());
        assert(write.room_of(&after) == after.room());
        assert(write.accepts_of(&self.inner(), data, &mid) == self.inner().accepts(data, &mid));
        match what {
            Asked::Lands(pos, to, firm) => {
                assert(via.landing_of(&mid, pos) == mid.landing(pos));
            },
            Asked::Moves(pos, arrived, then) => {
                assert(via.landing_of(&mid, pos) == mid.landing(pos));
                assert(via.lands_of(&mid, pos, arrived, &after) == mid.lands(pos, arrived, &after));
                assert(outlook_via(write, &after) == Outlook {
                    room: after.room(),
                    reliable: after.write_reliable(),
                    stalls: after.write_stalls(),
                });
            },
        }
        assert(self.inner().accepts(data, &mid) && asked(what, &mid, &after));
    }

    /// What a writer with the stream's own descriptors may show after a seek
    /// is what the stream shows in a state that the seek leads to.
    pub proof fn lemma_seek_writes(&self, pos: SeekFrom, at: u64, then: Outlook) where W: Write + Seek
        requires
            self.writes_own(),
            self.seeks_own(),
            self.seeks_to(pos, at, then),
        ensures
            exists|after: W|
                {
                    &&& #[trigger] self.inner().lands(pos, at, &after)
                    &&& after.room() == then.room
                    &&& after.write_reliable() == then.reliable
                    &&& after.write_stalls() == then.stalls
                },
    {
        let after = choose|after: W| #[trigger] self.lands_on(pos, at, then, after);
        let via = self.table().seek()->Some_0;
        assert(via.lands_of(&self.inner(), pos, at, &after) == self.inner().lands(pos, at, &after));
        assert(self.write_via().room_of(&after) == after.room());
        assert(self.write_via().reliable_of(&after) == after.write_reliable());
        assert(self.write_via().stalls_of(&after) == after.write_stalls());
        assert(self.inner().lands(pos, at, &after) && after.room() == then.room
            && after.write_reliable() == then.reliable && after.write_stalls() == then.stalls);
    }
}

/// A writer that has been moved into a box still has the room that its stream
/// had when it was moved, and offers what had been declared.
pub proof fn lemma_boxed_writes_stream<W: Write>(handle: Writer<W>, boxed: WriterBox)
    requires
        handle.writes_own(),
        same_writer(&**boxed.erased(), &handle),
        boxed.table() == handle.declared(),
    ensures
        boxed.room() == handle.inner().room(),
        boxed.erased().write_reliable() == handle.inner().write_reliable(),
        boxed.table().seek == (handle.table().seek() is Some),
        boxed.table().any == handle.table().any(),
{
    handle.lemma_writes_stream();
    assert(Erased::room(&handle) == Writer::room(&handle));
    assert(Erased::write_reliable(&handle) == Writer::write_reliable(&handle));
}

/// A writer on which seeking was declared and which has then been moved into
/// a box seeks as its stream did where it was moved: to the same places, from
/// the position the stream had.
pub proof fn lemma_boxed_seeks_stream<W: Seek>(handle: Writer<W>, boxed: WriterBox, pos: SeekFrom)
    requires
        handle.seeks_own(),
        same_writer(&**boxed.erased(), &handle),
        boxed.table() == handle.declared(),
    ensures
        boxed.table().seek,
        boxed.erased().has_seek(),
        boxed.erased().landing(pos) == handle.inner().landing(pos),
        boxed.erased().seek_reliable() == handle.inner().seek_reliable(),
{
    handle.lemma_seeks_stream(pos);
    assert(Erased::landing(&handle, pos) == Writer::landing(&handle, pos));
    assert(Erased::seek_reliable(&handle) == Writer::seek_reliable(&handle));
    assert(Erased::has_seek(&handle) == (handle.table().seek() is Some));
}

/// What a boxed writer may show after a seek is what the stream it was made
/// from shows in a state that the seek leads to from the state it was boxed
/// in.
pub proof fn lemma_boxed_seek_writes<W: Write + Seek>(
    handle: Writer<W>,
    boxed: WriterBox,
    pos: SeekFrom,
    at: u64,
    then: Outlook,
)
    requires
        handle.writes_own(),
        handle.seeks_own(),
        same_writer(&**boxed.erased(), &handle),
        boxed.erased().seeks_to(pos, at, then),
    ensures
        exists|after: W|
            {
                &&& #[trigger] handle.inner().lands(pos, at, &after)
                &&& after.room() == then.room
                &&& after.write_reliable() == then.reliable
                &&& after.write_stalls() == then.stalls
            },
{
    assert(Erased::seeks_to(&handle, pos, at, then) == Writer::seeks_to(&handle, pos, at, then));
    handle.lemma_seek_writes(pos, at, then);
}

/// What a boxed writer says of a run of bytes is what the stream it was made
/// from shows in a state that it reaches by taking them from the state it was
/// boxed in. With [`stands`], this tells where a seek through the box arrives
/// after writes through the box, and what the box shows after that seek.
pub proof fn lemma_boxed_takes_seeks<W: Write + Seek>(
    handle: Writer<W>,
    boxed: WriterBox,
    data: Seq<u8>,
    what: Asked,
)
    requires
        handle.writes_own(),
        handle.seeks_own(),
        handle.writes_lawfully(),
        forall|data: Seq<u8>, what: Asked| #[trigger]
            boxed.erased().took_to(data, what) == handle.takes_to(data, what),
        boxed.erased().took_to(data, what),
    ensures
        exists|mid: W, after: W|
            {
                &&& handle.inner().accepts(data, &mid)
                &&& #[trigger] asked(what, &mid, &after)
            },
{
    handle.lemma_takes_seeks(data, what);
}

/// No sequence of steps each of which keeps what the writer offers takes a
/// capability away: what is offered at one time is offered at every later
/// time. Every operation on a writer is such a step.
pub proof fn lemma_writer_never_retracts<T>(states: Seq<Writer<T>>, i: int, j: int)
    requires
        0 <= i <= j < states.len(),
        forall|k: int| 0 <= k < states.len() - 1 ==> #[trigger] states[k].kept_in(&states[k + 1]),
    ensures
        states[i].kept_in(&states[j]),
    decreases j - i,
{
    if i < j {
        lemma_writer_never_retracts(states, i, j - 1);
        let k = j - 1;
        assert(states[k].kept_in(&states[k + 1]));
    }
}

/// Declarations leave the stream alone: after any sequence of them the
/// writer holds the stream that it held at first, and offers what it
/// offered at first.
pub proof fn lemma_writer_declared_holds_stream<T>(states: Seq<Writer<T>>, i: int, j: int)
    requires
        0 <= i <= j < states.len(),
        forall|k: int| 0 <= k < states.len() - 1 ==> #[trigger] states[k].declares(&states[k + 1]),
    ensures
        states[i].declares(&states[j]),
    decreases j - i,
{
    if i < j {
        lemma_writer_declared_holds_stream(states, i, j - 1);
        let k = j - 1;
        assert(states[k].declares(&states[k + 1]));
    }
}

} // verus!
