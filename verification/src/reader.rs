//! Readers whose optional capabilities are decided at run time.
use core::any::TypeId;
use vstd::prelude::*;
pub use crate::anchor::{Query, Sight};
use crate::anchor::{
    read_exact_via, read_to_end_via, read_until_via, type_id_of, Declared, WithMetadataOf, BufMut, BufReadVia, BufRef, Own, ReadMut, ReadRef, ReadVia, SeekMut, SeekRef,
    SeekVia,
};
use crate::collect::{append_to_string, runs_to};
use crate::content::Content;
use crate::error::{Error, ErrorKind};
use crate::stream::{based, place_of, put_at, start_of, BufRead, Read, Seek, SeekFrom};

verus! {

/// The place `place` moved on by `n` bytes.
pub open spec fn advanced(place: Option<nat>, n: nat) -> Option<nat> {
    match place {
        Some(at) => Some(at + n),
        None => None,
    }
}

/// The optional capabilities of a reader: a slot for each, empty until the
/// capability is declared.
#[verifier::reject_recursive_types(R)]
pub struct OptTable<R> {
    seek: Option<Box<dyn SeekVia<R>>>,
    buf: Option<Box<dyn BufReadVia<R>>>,
    any: Option<TypeId>,
}

impl<R> OptTable<R> {
    /// The descriptor for seeking, where it has been declared.
    pub closed spec fn seek(&self) -> Option<Box<dyn SeekVia<R>>> {
        self.seek
    }

    /// The descriptor for buffered reading, where it has been declared.
    pub closed spec fn buf(&self) -> Option<Box<dyn BufReadVia<R>>> {
        self.buf
    }

    /// What identifies the stream's type, where it has been declared.
    pub closed spec fn any(&self) -> Option<TypeId> {
        self.any
    }

    /// Whether buffered reading, where it has been declared, sees in every
    /// stream what `read` sees in it.
    pub open spec fn agrees(&self, read: &Box<dyn ReadVia<R>>) -> bool {
        self.buf() matches Some(via) ==> forall|target: R|
            {
                &&& #[trigger] via.content_of(&target) == read.content_of(&target)
                &&& via.reliable_of(&target) == read.reliable_of(&target)
                &&& via.stalls_of(&target) == read.stalls_of(&target)
                &&& via.origin_of(&target) == read.origin_of(&target)
                &&& forall|want: nat| #[trigger]
                    via.delivers_of(&target, want) == read.delivers_of(&target, want)
            }
    }
}

/// Where a stream in the state `target` stands, as a reader with these
/// descriptors sees it.
pub open spec fn origin_via<R>(read: &Box<dyn ReadVia<R>>, table: OptTable<R>, target: &R) -> Option<
    (Box<R>, nat),
> {
    match table.buf() {
        Some(via) => via.origin_of(target),
        None => read.origin_of(target),
    }
}

/// What a stream in the state `target` has yet to deliver, as a reader with
/// these descriptors sees it.
pub open spec fn content_via<R>(read: &Box<dyn ReadVia<R>>, table: OptTable<R>, target: &R) -> Content {
    match table.buf() {
        Some(via) => via.content_of(target),
        None => read.content_of(target),
    }
}

/// Whether a stream in the state `target` reports no error but an
/// interruption when read, as a reader with these descriptors sees it.
pub open spec fn reliable_via<R>(read: &Box<dyn ReadVia<R>>, table: OptTable<R>, target: &R) -> bool {
    match table.buf() {
        Some(via) => via.reliable_of(target),
        None => read.reliable_of(target),
    }
}

/// A bound on how often a stream in the state `target` may still report an
/// interruption when read, as a reader with these descriptors sees it.
pub open spec fn stalls_via<R>(read: &Box<dyn ReadVia<R>>, table: OptTable<R>, target: &R) -> nat {
    match table.buf() {
        Some(via) => via.stalls_of(target),
        None => read.stalls_of(target),
    }
}

/// How many bytes a read of a stream in the state `target` into a buffer of
/// `want` bytes delivers, where the stream fixes that, as a reader with these
/// descriptors sees it.
pub open spec fn delivers_via<R>(
    read: &Box<dyn ReadVia<R>>,
    table: OptTable<R>,
    target: &R,
    want: nat,
) -> Option<nat> {
    match table.buf() {
        Some(via) => via.delivers_of(target, want),
        None => read.delivers_of(target, want),
    }
}

/// What a stream in the state `target` shows, as a reader with these
/// descriptors sees it.
pub open spec fn sight_via<R>(read: &Box<dyn ReadVia<R>>, table: OptTable<R>, target: &R) -> Sight {
    Sight {
        content: content_via(read, table, target),
        reliable: reliable_via(read, table, target),
        stalls: stalls_via(read, table, target),
    }
}

/// Whether a stream with the start `start`, put `at` bytes into itself, is in
/// the state `mid`, where `what` holds of it; where `what` is a move, it
/// leads to the state `after`.
pub open spec fn stands_via<R>(
    read: &Box<dyn ReadVia<R>>,
    table: OptTable<R>,
    start: Option<Box<R>>,
    at: nat,
    what: Query,
    mid: R,
    after: R,
) -> bool {
    &&& origin_via(read, table, &mid) == based(start, at)
    &&& match what {
        Query::Lands(pos, to, firm) => {
            &&& table.seek()->Some_0.landing_of(&mid, pos) == to
            &&& table.seek()->Some_0.seek_reliable_of(&mid) == firm
        },
        Query::Serves(want, count) => delivers_via(read, table, &mid, want) == count,
        Query::Moves(pos, arrived, then, place, kept) => {
            &&& table.seek()->Some_0.lands_of(&mid, pos, arrived, &after)
            &&& sight_via(read, table, &after) == then
            &&& place_of(origin_via(read, table, &after)) == place
            &&& kept == (start_of(origin_via(read, table, &after)) == start)
        },
    }
}

/// Whether `what` may hold of a stream with the start `start` once it is put
/// `at` bytes into itself.
pub open spec fn stood_via<R>(
    read: &Box<dyn ReadVia<R>>,
    table: OptTable<R>,
    start: Option<Box<R>>,
    at: nat,
    what: Query,
) -> bool {
    exists|mid: R, after: R| #[trigger] stands_via(read, table, start, at, what, mid, after)
}

/// Whether `what` holds of a stream in the state `mid`; where `what` is a
/// move, it leads to the state `after`. `start` is the start to which the
/// start of `after` is held.
pub open spec fn asked<R: Read + Seek>(what: Query, start: Option<Box<R>>, mid: &R, after: &R) -> bool {
    match what {
        Query::Lands(pos, to, firm) => {
            &&& mid.landing(pos) == to
            &&& mid.seek_reliable() == firm
        },
        Query::Serves(want, count) => mid.delivers(want) == count,
        Query::Moves(pos, arrived, then, place, kept) => {
            &&& mid.lands(pos, arrived, after)
            &&& after.content() == then.content
            &&& after.read_reliable() == then.reliable
            &&& after.read_stalls() == then.stalls
            &&& place_of(after.origin()) == place
            &&& kept == (start_of(after.origin()) == start)
        },
    }
}

/// A stream shows, where it is, what is said of that place.
pub proof fn lemma_stands_where_it_is<R>(read: &Box<dyn ReadVia<R>>, table: OptTable<R>)
    ensures
        forall|target: R, pos: SeekFrom|
            place_of(origin_via(read, table, &target)) is Some ==> stood_via(
                read,
                table,
                start_of(origin_via(read, table, &target)),
                place_of(origin_via(read, table, &target))->Some_0,
                Query::Lands(
                    pos,
                    #[trigger] table.seek()->Some_0.landing_of(&target, pos),
                    table.seek()->Some_0.seek_reliable_of(&target),
                ),
            ),
        forall|target: R, want: nat|
            place_of(origin_via(read, table, &target)) is Some ==> stood_via(
                read,
                table,
                start_of(origin_via(read, table, &target)),
                place_of(origin_via(read, table, &target))->Some_0,
                Query::Serves(want, #[trigger] delivers_via(read, table, &target, want)),
            ),
{
    assert forall|target: R, want: nat|
        place_of(origin_via(read, table, &target)) is Some implies stood_via(
        read,
        table,
        start_of(origin_via(read, table, &target)),
        place_of(origin_via(read, table, &target))->Some_0,
        Query::Serves(want, #[trigger] delivers_via(read, table, &target, want)),
    ) by {
        assert(stands_via(
            read,
            table,
            start_of(origin_via(read, table, &target)),
            place_of(origin_via(read, table, &target))->Some_0,
            Query::Serves(want, delivers_via(read, table, &target, want)),
            target,
            target,
        ));
    }
    assert forall|target: R, pos: SeekFrom|
        place_of(origin_via(read, table, &target)) is Some implies stood_via(
        read,
        table,
        start_of(origin_via(read, table, &target)),
        place_of(origin_via(read, table, &target))->Some_0,
        Query::Lands(
            pos,
            #[trigger] table.seek()->Some_0.landing_of(&target, pos),
            table.seek()->Some_0.seek_reliable_of(&target),
        ),
    ) by {
        assert(stands_via(
            read,
            table,
            start_of(origin_via(read, table, &target)),
            place_of(origin_via(read, table, &target))->Some_0,
            Query::Lands(
                pos,
                table.seek()->Some_0.landing_of(&target, pos),
                table.seek()->Some_0.seek_reliable_of(&target),
            ),
            target,
            target,
        ));
    }
}

/// A reader that owns a stream of type `R`.
///
/// The reader always reads. It seeks, lends out its buffer or tells its type
/// once that has been declared, by one of the `set_` methods, which ask of `R`
/// what they declare. The methods that use a capability ask nothing of `R`.
///
/// An accessor that can change the stream borrows the reader for change as
/// long as it lives: no two of them exist at once.
#[verifier::reject_recursive_types(R)]
pub struct Reader<R> {
    inner: R,
    read: Box<dyn ReadVia<R>>,
    vtable: OptTable<R>,
}

impl<R> Reader<R> {
    /// The stream.
    pub closed spec fn inner(&self) -> R {
        self.inner
    }

    /// The descriptor for reading.
    pub closed spec fn read_via(&self) -> &Box<dyn ReadVia<R>> {
        &self.read
    }

    /// The optional capabilities.
    pub closed spec fn table(&self) -> OptTable<R> {
        self.vtable
    }

    /// Whether the reader is well formed: its descriptors agree on what the
    /// stream holds. Every reader is made so and stays so.
    pub open spec fn wf(&self) -> bool {
        self.table().agrees(self.read_via())
    }

    /// What the stream has yet to deliver: as buffered reading sees it where
    /// that has been declared, as reading sees it where not. In a well-formed
    /// reader the two agree.
    pub open spec fn content(&self) -> Content {
        match self.table().buf() {
            Some(via) => via.content_of(&self.inner()),
            None => self.read_via().content_of(&self.inner()),
        }
    }

    /// Whether the stream reports no error but an interruption when read.
    pub open spec fn read_reliable(&self) -> bool {
        match self.table().buf() {
            Some(via) => via.reliable_of(&self.inner()),
            None => self.read_via().reliable_of(&self.inner()),
        }
    }

    /// A bound on how often the stream may still report an interruption.
    pub open spec fn read_stalls(&self) -> nat {
        match self.table().buf() {
            Some(via) => via.stalls_of(&self.inner()),
            None => self.read_via().stalls_of(&self.inner()),
        }
    }

    /// How many bytes a read into a buffer of `want` bytes delivers, where the
    /// stream fixes that.
    pub open spec fn delivers(&self, want: nat) -> Option<nat> {
        delivers_via(self.read_via(), self.table(), &self.inner(), want)
    }

    /// Where a seek to `pos` arrives, where seeking has been declared.
    pub open spec fn landing(&self, pos: SeekFrom) -> Option<u64> {
        self.table().seek()->Some_0.landing_of(&self.inner(), pos)
    }

    /// Whether the stream refuses a seek only where it has no landing.
    pub open spec fn seek_reliable(&self) -> bool {
        self.table().seek()->Some_0.seek_reliable_of(&self.inner())
    }

    /// What a stream in the state `target` has yet to deliver, as this reader
    /// sees it.
    pub open spec fn holds_in(&self, target: &R) -> Content {
        match self.table().buf() {
            Some(via) => via.content_of(target),
            None => self.read_via().content_of(target),
        }
    }

    /// Whether a stream in the state `target` reports no error but an
    /// interruption when read, as this reader sees it.
    pub open spec fn steady_in(&self, target: &R) -> bool {
        match self.table().buf() {
            Some(via) => via.reliable_of(target),
            None => self.read_via().reliable_of(target),
        }
    }

    /// A bound on how often a stream in the state `target` may still report
    /// an interruption when read, as this reader sees it.
    pub open spec fn stalls_in(&self, target: &R) -> nat {
        match self.table().buf() {
            Some(via) => via.stalls_of(target),
            None => self.read_via().stalls_of(target),
        }
    }

    /// Whether the stream is in the state `after`, showing `then`,
    /// once it has moved to `pos` and arrived at `at`.
    pub open spec fn lands_on(&self, pos: SeekFrom, at: u64, then: Sight, after: R) -> bool {
        &&& self.table().seek()->Some_0.lands_of(&self.inner(), pos, at, &after)
        &&& self.holds_in(&after) == then.content
        &&& self.steady_in(&after) == then.reliable
        &&& self.stalls_in(&after) == then.stalls
    }

    /// Whether the stream may show `then` once it has moved to `pos` and
    /// arrived at `at`.
    pub open spec fn seeks_to(&self, pos: SeekFrom, at: u64, then: Sight) -> bool {
        exists|after: R| #[trigger] self.lands_on(pos, at, then, after)
    }

    /// How many bytes into itself the stream is, where it says so.
    pub open spec fn place(&self) -> Option<nat> {
        place_of(origin_via(self.read_via(), self.table(), &self.inner()))
    }

    /// Whether `what` may hold of the stream once it is put `at` bytes into
    /// itself.
    pub open spec fn stood_at(&self, at: nat, what: Query) -> bool {
        stood_via(
            self.read_via(),
            self.table(),
            start_of(origin_via(self.read_via(), self.table(), &self.inner())),
            at,
            what,
        )
    }

    /// Whether the descriptor for reading is the stream's own.
    pub open spec fn reads_own(&self) -> bool where R: Read {
        forall|target: R|
            {
                &&& #[trigger] self.read_via().content_of(&target) == target.content()
                &&& self.read_via().reliable_of(&target) == target.read_reliable()
                &&& self.read_via().stalls_of(&target) == target.read_stalls()
                &&& self.read_via().origin_of(&target) == target.origin()
                &&& forall|want: nat| #[trigger]
                    self.read_via().delivers_of(&target, want) == target.delivers(want)
            }
    }

    /// Whether seeking is declared, with the stream's own descriptor.
    pub open spec fn seeks_own(&self) -> bool where R: Seek {
        self.table().seek() matches Some(via) && (forall|target: R, pos: SeekFrom|
            {
                &&& #[trigger] via.landing_of(&target, pos) == target.landing(pos)
                &&& via.seek_reliable_of(&target) == target.seek_reliable()
            }) && (forall|target: R, pos: SeekFrom, at: u64, after: R| #[trigger]
            via.lands_of(&target, pos, at, &after) == target.lands(pos, at, &after))
    }

    /// Whether buffered reading is declared, with the stream's own descriptor.
    pub open spec fn bufs_own(&self) -> bool where R: BufRead {
        self.table().buf() matches Some(via) && forall|target: R|
            {
                &&& #[trigger] via.content_of(&target) == target.content()
                &&& via.reliable_of(&target) == target.read_reliable()
                &&& via.stalls_of(&target) == target.read_stalls()
                &&& via.origin_of(&target) == target.origin()
                &&& forall|want: nat| #[trigger] via.delivers_of(&target, want) == target.delivers(want)
            }
    }

    /// Whether `after` offers every capability that this handle offers.
    pub open spec fn kept_in(&self, after: &Self) -> bool {
        &&& self.table().seek() is Some ==> after.table().seek() is Some
        &&& self.table().buf() is Some ==> after.table().buf() is Some
        &&& self.table().any() is Some ==> after.table().any() is Some
    }

    /// Whether `after` is this handle with more declared on it, or as much:
    /// it holds the same stream and offers every capability that this handle
    /// offers.
    pub open spec fn declares(&self, after: &Self) -> bool {
        &&& after.inner() == self.inner()
        &&& self.kept_in(after)
    }

    /// Wraps `reader`. No optional capability is declared.
    pub fn new(reader: R) -> (handle: Self) where R: Read
        ensures
            handle.inner() == reader,
            handle.wf(),
            handle.reads_own(),
            handle.table().seek() is None,
            handle.table().buf() is None,
            handle.table().any() is None,
    {
        let handle = Reader {
            inner: reader,
            read: Box::new(Own),
            vtable: OptTable { seek: None, buf: None, any: None },
        };
        assert forall|target: R|
            {
                &&& #[trigger] handle.read_via().content_of(&target) == target.content()
                &&& handle.read_via().reliable_of(&target) == target.read_reliable()
                &&& handle.read_via().stalls_of(&target) == target.read_stalls()
                &&& handle.read_via().origin_of(&target) == target.origin()
                &&& forall|want: nat| #[trigger]
                    handle.read_via().delivers_of(&target, want) == target.delivers(want)
            } by {
            assert(ReadVia::content_of(&Own, &target) == target.content());
            assert(ReadVia::reliable_of(&Own, &target) == target.read_reliable());
            assert(ReadVia::stalls_of(&Own, &target) == target.read_stalls());
            assert(ReadVia::origin_of(&Own, &target) == target.origin());
            assert forall|want: nat| #[trigger]
                handle.read_via().delivers_of(&target, want) == target.delivers(want) by {
                assert(ReadVia::delivers_of(&Own, &target, want) == target.delivers(want));
            }
        }
        handle
    }

    /// Lends out the stream.
    pub fn get_ref(&self) -> (inner: &R)
        ensures
            *inner == self.inner(),
    {
        &self.inner
    }

    /// Lends out the stream for change. What has been declared stays declared.
    pub fn get_mut(&mut self) -> (inner: &mut R)
        ensures
            old(self).kept_in(&*final(self)),
            *inner == old(self).inner(),
            final(self).inner() == *final(inner),
            final(self).read_via() == old(self).read_via(),
            final(self).table() == old(self).table(),
    {
        &mut self.inner
    }

    /// Declares that the stream lends out its buffer.
    pub fn set_buf(&mut self) where R: BufRead
        ensures
            old(self).declares(&*final(self)),
            final(self).inner() == old(self).inner(),
            final(self).wf(),
            final(self).reads_own(),
            final(self).bufs_own(),
            final(self).table().seek() == old(self).table().seek(),
            final(self).table().any() == old(self).table().any(),
    {
        self.read = Box::new(Own);
        self.vtable.buf = Some(Box::new(Own));
        assert forall|target: R|
            {
                &&& #[trigger] self.read_via().content_of(&target) == target.content()
                &&& self.read_via().reliable_of(&target) == target.read_reliable()
                &&& self.read_via().stalls_of(&target) == target.read_stalls()
                &&& self.read_via().origin_of(&target) == target.origin()
                &&& forall|want: nat| #[trigger]
                    self.read_via().delivers_of(&target, want) == target.delivers(want)
            } by {
            assert(ReadVia::content_of(&Own, &target) == target.content());
            assert(ReadVia::reliable_of(&Own, &target) == target.read_reliable());
            assert(ReadVia::stalls_of(&Own, &target) == target.read_stalls());
            assert(ReadVia::origin_of(&Own, &target) == target.origin());
            assert forall|want: nat| #[trigger]
                self.read_via().delivers_of(&target, want) == target.delivers(want) by {
                assert(ReadVia::delivers_of(&Own, &target, want) == target.delivers(want));
            }
        }
        assert forall|target: R|
            {
                &&& #[trigger] self.table().buf()->Some_0.content_of(&target) == target.content()
                &&& self.table().buf()->Some_0.reliable_of(&target) == target.read_reliable()
                &&& self.table().buf()->Some_0.stalls_of(&target) == target.read_stalls()
                &&& self.table().buf()->Some_0.origin_of(&target) == target.origin()
                &&& forall|want: nat| #[trigger]
                    self.table().buf()->Some_0.delivers_of(&target, want) == target.delivers(want)
            } by {
            assert(BufReadVia::content_of(&Own, &target) == target.content());
            assert(BufReadVia::reliable_of(&Own, &target) == target.read_reliable());
            assert(BufReadVia::stalls_of(&Own, &target) == target.read_stalls());
            assert(BufReadVia::origin_of(&Own, &target) == target.origin());
            assert forall|want: nat| #[trigger]
                self.table().buf()->Some_0.delivers_of(&target, want) == target.delivers(want) by {
                assert(BufReadVia::delivers_of(&Own, &target, want) == target.delivers(want));
            }
        }
    }

    /// Declares that the stream seeks.
    pub fn set_seek(&mut self) where R: Seek
        ensures
            old(self).declares(&*final(self)),
            final(self).inner() == old(self).inner(),
            final(self).read_via() == old(self).read_via(),
            final(self).seeks_own(),
            final(self).table().buf() == old(self).table().buf(),
            final(self).table().any() == old(self).table().any(),
    {
        self.vtable.seek = Some(Box::new(Own));
        assert forall|target: R, pos: SeekFrom|
            {
                &&& #[trigger] self.table().seek()->Some_0.landing_of(&target, pos) == target.landing(pos)
                &&& self.table().seek()->Some_0.seek_reliable_of(&target) == target.seek_reliable()
            } by {
            assert(Own.landing_of(&target, pos) == target.landing(pos));
            assert(Own.seek_reliable_of(&target) == target.seek_reliable());
        }
        assert forall|target: R, pos: SeekFrom, at: u64, after: R| #[trigger]
            self.table().seek()->Some_0.lands_of(&target, pos, at, &after) == target.lands(
                pos,
                at,
                &after,
            ) by {
            assert(Own.lands_of(&target, pos, at, &after) == target.lands(pos, at, &after));
        }
    }

    /// Declares that the stream tells its type.
    pub fn set_any(&mut self) where R: 'static
        ensures
            old(self).declares(&*final(self)),
            final(self).inner() == old(self).inner(),
            final(self).read_via() == old(self).read_via(),
            final(self).table().any() is Some,
            final(self).table().seek() == old(self).table().seek(),
            final(self).table().buf() == old(self).table().buf(),
    {
        self.vtable.any = Some(type_id_of::<R>());
    }

    /// Lends out the stream to look at its reading side.
    pub fn as_read(&self) -> (acc: ReadRef<'_, R>)
        ensures
            acc.via == self.read_via(),
            *acc.target == self.inner(),
    {
        WithMetadataOf::with_metadata_of_on_stable(&self.inner, &self.read)
    }

    /// Lends out the stream for reading.
    pub fn as_read_mut(&mut self) -> (acc: ReadMut<'_, R>)
        ensures
            old(self).kept_in(&*final(self)),
            acc.via == old(self).read_via(),
            *acc.target == old(self).inner(),
            final(self).inner() == *final(acc.target),
            final(self).read_via() == old(self).read_via(),
            final(self).table() == old(self).table(),
            old(self).wf() ==> acc.content() == (*old(self)).content(),
            old(self).wf() ==> forall|want: nat| #[trigger]
                acc.delivers(want) == (*old(self)).delivers(want),
    {
        let acc = WithMetadataOf::with_metadata_of_on_stable(&mut self.inner, &self.read);
        proof {
            let target = old(self).inner();
            assert(acc.content() == acc.via.content_of(&target));
            if let Some(via) = old(self).table().buf() {
                if old(self).wf() {
                    assert(via.content_of(&target) == old(self).read_via().content_of(&target));
                }
            }
            if old(self).wf() {
                assert forall|want: nat| #[trigger]
                    acc.delivers(want) == (*old(self)).delivers(want) by {
                    assert(acc.delivers(want) == acc.via.delivers_of(&target, want));
                    if let Some(via) = old(self).table().buf() {
                        assert(via.content_of(&target) == old(self).read_via().content_of(&target));
                        assert(via.delivers_of(&target, want) == old(self).read_via().delivers_of(
                            &target,
                            want,
                        ));
                    }
                }
            }
        }
        acc
    }

    /// Lends out the stream to look at its buffered side, where that has been
    /// declared.
    pub fn as_buf(&self) -> (acc: Option<BufRef<'_, R>>)
        ensures
            match acc {
                Some(acc) => self.table().buf() == Some(*acc.via) && *acc.target == self.inner(),
                None => self.table().buf() is None,
            },
    {
        match &self.vtable.buf {
            Some(via) => Some(WithMetadataOf::with_metadata_of_on_stable(&self.inner, via)),
            None => None,
        }
    }

    /// Lends out the stream for buffered reading, where that has been declared.
    pub fn as_buf_mut(&mut self) -> (acc: Option<BufMut<'_, R>>)
        ensures
            old(self).kept_in(&*final(self)),
            final(self).read_via() == old(self).read_via(),
            final(self).table() == old(self).table(),
            match acc {
                Some(acc) => {
                    &&& old(self).table().buf() == Some(*acc.via)
                    &&& *acc.target == old(self).inner()
                    &&& final(self).inner() == *final(acc.target)
                    &&& acc.content() == (*old(self)).content()
                },
                None => old(self).table().buf() is None && final(self).inner() == old(self).inner(),
            },
    {
        match &self.vtable.buf {
            Some(via) => {
                let acc = WithMetadataOf::with_metadata_of_on_stable(&mut self.inner, via);
                assert(acc.content() == acc.via.content_of(&*acc.target));
                Some(acc)
            },
            None => None,
        }
    }

    /// Lends out the stream to look at its seeking side, where that has been
    /// declared.
    pub fn as_seek(&self) -> (acc: Option<SeekRef<'_, R>>)
        ensures
            match acc {
                Some(acc) => self.table().seek() == Some(*acc.via) && *acc.target == self.inner(),
                None => self.table().seek() is None,
            },
    {
        match &self.vtable.seek {
            Some(via) => Some(WithMetadataOf::with_metadata_of_on_stable(&self.inner, via)),
            None => None,
        }
    }

    /// Lends out the stream for seeking, where that has been declared.
    pub fn as_seek_mut(&mut self) -> (acc: Option<SeekMut<'_, R>>)
        ensures
            old(self).kept_in(&*final(self)),
            final(self).read_via() == old(self).read_via(),
            final(self).table() == old(self).table(),
            match acc {
                Some(acc) => {
                    &&& old(self).table().seek() == Some(*acc.via)
                    &&& *acc.target == old(self).inner()
                    &&& final(self).inner() == *final(acc.target)
                    &&& forall|pos: SeekFrom| #[trigger] acc.landing(pos) == old(self).landing(pos)
                    &&& acc.seek_reliable() == old(self).seek_reliable()
                },
                None => old(self).table().seek() is None && final(self).inner() == old(self).inner(),
            },
    {
        match &self.vtable.seek {
            Some(via) => {
                let acc = WithMetadataOf::with_metadata_of_on_stable(&mut self.inner, via);
                assert forall|pos: SeekFrom| #[trigger] acc.landing(pos) == old(self).landing(pos) by {
                    assert(acc.landing(pos) == acc.via.landing_of(&*acc.target, pos));
                }
                assert(acc.seek_reliable() == acc.via.seek_reliable_of(&*acc.target));
                Some(acc)
            },
            None => None,
        }
    }

    /// What identifies the stream's type, where that has been declared.
    ///
    /// The type is told by its `TypeId`; the stream itself is not handed out as
    /// a `dyn Any`. A caller that knows the type compares the identifier with
    /// `TypeId::of`. Where the reader names the stream's type, `get_ref` and
    /// `into_inner` reach the stream; a reader that does not name it has no way to
    /// give the stream back, whatever has been declared.
    pub fn as_any(&self) -> (id: Option<TypeId>)
        ensures
            id == self.table().any(),
    {
        self.vtable.any
    }

    /// What identifies the stream's type, where that has been declared.
    pub fn as_any_mut(&mut self) -> (id: Option<TypeId>)
        ensures
            old(self).kept_in(&*final(self)),
            id == old(self).table().any(),
            *final(self) == *old(self),
    {
        self.vtable.any
    }

    /// Gives back the stream.
    pub fn into_inner(self) -> (inner: R)
        ensures
            inner == self.inner(),
    {
        self.inner
    }
}

/// What a reader offers once the type of its stream is forgotten.
///
/// The stream is seen as its [`Content`]. The optional capabilities are there
/// or not as [`has_seek`](Erased::has_seek), [`has_buf`](Erased::has_buf) and
/// [`type_id`](Erased::type_id) say, and no operation takes one away.
///
/// Where the stream says how far into itself it is, the reader has a
/// [`place`](Erased::place), and [`stood_at`](Erased::stood_at) says what may
/// hold of the stream at any place: where a seek arrives, what a seek leaves
/// behind, how many bytes a read delivers. Reads move the place and leave
/// this alone, and so does a seek that keeps the start of the stream; the
/// stream always shows what is said of the place where it is. For a reader
/// made from a stream of a known type, [`lemma_boxed_place_seeks`] and
/// [`lemma_boxed_place_serves`] say what this is in terms of that stream.
pub trait Erased {
    /// What the stream has yet to deliver.
    spec fn content(&self) -> Content;

    /// Whether the stream reports no error but an interruption when read.
    spec fn read_reliable(&self) -> bool;

    /// A bound on how often the stream may still report an interruption.
    spec fn read_stalls(&self) -> nat;

    /// How many bytes a read into a buffer of `want` bytes delivers, where the
    /// stream fixes that.
    spec fn delivers(&self, want: nat) -> Option<nat>;

    /// Whether seeking has been declared.
    spec fn has_seek(&self) -> bool;

    /// Whether buffered reading has been declared.
    spec fn has_buf(&self) -> bool;

    /// What identifies the stream's type, where that has been declared.
    spec fn type_id(&self) -> Option<TypeId>;

    /// Where a seek to `pos` arrives, where seeking has been declared.
    spec fn landing(&self, pos: SeekFrom) -> Option<u64>;

    /// Whether the stream refuses a seek only where it has no landing.
    spec fn seek_reliable(&self) -> bool;

    /// Whether the stream may show `then` once it has moved to `pos` and
    /// arrived at `at`.
    spec fn seeks_to(&self, pos: SeekFrom, at: u64, then: Sight) -> bool;

    /// How many bytes into itself the stream is, where it says so. Reading
    /// moves the place on by the bytes read.
    spec fn place(&self) -> Option<nat>;

    /// Whether `what` may hold of the stream once it is put `at` bytes into
    /// itself. Reading does not change this, nor does a seek that keeps the
    /// start of the stream, and the stream shows what this says of the place
    /// where it is.
    spec fn stood_at(&self, at: nat, what: Query) -> bool;

    /// Whether seeking has been declared.
    fn can_seek(&self) -> (yes: bool)
        ensures
            yes == self.has_seek(),
    ;

    /// Whether buffered reading has been declared.
    fn can_buf(&self) -> (yes: bool)
        ensures
            yes == self.has_buf(),
    ;

    /// What identifies the stream's type, where that has been declared.
    fn any_id(&self) -> (id: Option<TypeId>)
        ensures
            id == self.type_id(),
    ;

    /// Reads as [`Read::read`] does.
    fn read_erased(&mut self, buf: &mut [u8]) -> (r: Result<usize, Error>)
        ensures
            (*old(self)).delivers(old(buf)@.len()) matches Some(k) ==> r is Ok && r->Ok_0 == k,
            final(buf)@.len() == old(buf)@.len(),
            (*final(self)).read_reliable() == (*old(self)).read_reliable(),
            (*final(self)).read_stalls() <= (*old(self)).read_stalls(),
            final(self).has_seek() == old(self).has_seek(),
            final(self).has_buf() == old(self).has_buf(),
            final(self).type_id() == old(self).type_id(),
            forall|at: nat, what: Query| #[trigger]
                final(self).stood_at(at, what) == old(self).stood_at(at, what),
            final(self).place() matches Some(at) ==> forall|pos: SeekFrom|
                final(self).stood_at(
                    at,
                    Query::Lands(pos, #[trigger] final(self).landing(pos), final(self).seek_reliable()),
                ),
            final(self).place() matches Some(at) ==> forall|want: nat|
                final(self).stood_at(at, Query::Serves(want, #[trigger] final(self).delivers(want))),
            match r {
                Ok(n) => {
                    &&& n <= old(buf)@.len()
                    &&& (*old(self)).content().holds(n as nat)
                    &&& final(buf)@ == (*old(self)).content().first(n as nat) + old(buf)@.skip(n as int)
                    &&& (*final(self)).content() == (*old(self)).content().skip(n as nat)
                    &&& final(self).place() == advanced(old(self).place(), n as nat)
                    &&& n == 0 ==> old(buf)@.len() == 0 || (*old(self)).content().exhausted()
                },
                Err(e) => {
                    &&& (*old(self)).read_reliable() ==> e.interrupted()
                    &&& (*final(self)).content() == (*old(self)).content()
                    &&& final(self).place() == old(self).place()
                    &&& e.interrupted() ==> (*final(self)).read_stalls() < (*old(self)).read_stalls()
                },
            },
    ;

    /// Lends out the buffer as [`BufRead::fill_buf`] does, where buffered
    /// reading has been declared, and fails where not.
    fn fill_buf_erased(&mut self) -> (r: Result<&[u8], Error>)
        ensures
            (*final(self)).content() == (*old(self)).content(),
            final(self).place() == old(self).place(),
            forall|at: nat, what: Query| #[trigger]
                final(self).stood_at(at, what) == old(self).stood_at(at, what),
            final(self).place() matches Some(at) ==> forall|pos: SeekFrom|
                final(self).stood_at(
                    at,
                    Query::Lands(pos, #[trigger] final(self).landing(pos), final(self).seek_reliable()),
                ),
            final(self).place() matches Some(at) ==> forall|want: nat|
                final(self).stood_at(at, Query::Serves(want, #[trigger] final(self).delivers(want))),
            (*final(self)).read_reliable() == (*old(self)).read_reliable(),
            (*final(self)).read_stalls() <= (*old(self)).read_stalls(),
            final(self).has_seek() == old(self).has_seek(),
            final(self).has_buf() == old(self).has_buf(),
            final(self).type_id() == old(self).type_id(),
            match r {
                Ok(bytes) => {
                    &&& old(self).has_buf()
                    &&& (*old(self)).content().holds(bytes@.len())
                    &&& bytes@ == (*old(self)).content().first(bytes@.len())
                    &&& bytes@.len() == 0 ==> (*old(self)).content().exhausted()
                },
                Err(e) => {
                    &&& old(self).has_buf() && (*old(self)).read_reliable() ==> e.interrupted()
                    &&& e.interrupted() ==> (*final(self)).read_stalls() < (*old(self)).read_stalls()
                },
            },
    ;

    /// Drops bytes as [`BufRead::consume`] does, where buffered reading has
    /// been declared, and does nothing where not.
    fn consume_erased(&mut self, amt: usize)
        requires
            old(self).has_buf() ==> (*old(self)).content().holds(amt as nat),
        ensures
            (*final(self)).content() == if old(self).has_buf() {
                (*old(self)).content().skip(amt as nat)
            } else {
                (*old(self)).content()
            },
            final(self).place() == if old(self).has_buf() {
                advanced(old(self).place(), amt as nat)
            } else {
                old(self).place()
            },
            forall|at: nat, what: Query| #[trigger]
                final(self).stood_at(at, what) == old(self).stood_at(at, what),
            final(self).place() matches Some(at) ==> forall|pos: SeekFrom|
                final(self).stood_at(
                    at,
                    Query::Lands(pos, #[trigger] final(self).landing(pos), final(self).seek_reliable()),
                ),
            final(self).place() matches Some(at) ==> forall|want: nat|
                final(self).stood_at(at, Query::Serves(want, #[trigger] final(self).delivers(want))),
            (*final(self)).read_reliable() == (*old(self)).read_reliable(),
            (*final(self)).read_stalls() <= (*old(self)).read_stalls(),
            final(self).has_seek() == old(self).has_seek(),
            final(self).has_buf() == old(self).has_buf(),
            final(self).type_id() == old(self).type_id(),
    ;

    /// Moves as [`Seek::seek`] does, where seeking has been declared, and
    /// fails where not.
    fn seek_erased(&mut self, pos: SeekFrom) -> (r: Result<u64, Error>)
        ensures
            final(self).seek_reliable() == old(self).seek_reliable(),
            final(self).place() matches Some(at) ==> forall|pos: SeekFrom|
                final(self).stood_at(
                    at,
                    Query::Lands(pos, #[trigger] final(self).landing(pos), final(self).seek_reliable()),
                ),
            final(self).place() matches Some(at) ==> forall|want: nat|
                final(self).stood_at(at, Query::Serves(want, #[trigger] final(self).delivers(want))),
            final(self).has_seek() == old(self).has_seek(),
            final(self).has_buf() == old(self).has_buf(),
            final(self).type_id() == old(self).type_id(),
            match r {
                Ok(at) => {
                    &&& old(self).has_seek()
                    &&& old(self).landing(pos) == Some(at)
                    &&& final(self).landing(SeekFrom::Current(0)) == Some(at)
                    &&& old(self).seeks_to(
                        pos,
                        at,
                        (Sight {
                            content: (*final(self)).content(),
                            reliable: (*final(self)).read_reliable(),
                            stalls: (*final(self)).read_stalls(),
                        }),
                    )
                    &&& old(self).place() matches Some(from) ==> exists|kept: bool|
                        {
                            &&& #[trigger] old(self).stood_at(
                                from,
                                Query::Moves(
                                    pos,
                                    at,
                                    Sight {
                                        content: (*final(self)).content(),
                                        reliable: (*final(self)).read_reliable(),
                                        stalls: (*final(self)).read_stalls(),
                                    },
                                    final(self).place(),
                                    kept,
                                ),
                            )
                            &&& kept ==> forall|a: nat, what: Query| #[trigger]
                                final(self).stood_at(a, what) == old(self).stood_at(a, what)
                        }
                },
                Err(e) => {
                    &&& final(self).landing(SeekFrom::Current(0)) == old(self).landing(
                        SeekFrom::Current(0),
                    )
                    &&& old(self).has_seek() && old(self).seek_reliable() ==> old(self).landing(pos)
                        is None && e@ == ErrorKind::InvalidInput
                },
            },
    ;
}

/// A reader's stream on loan, with the reader's descriptors.
///
/// Where buffered reading has been declared, its descriptor does all the
/// reading, so that what is read and what the buffer shows are one content.
#[verifier::reject_recursive_types(R)]
struct Lease<'lt, R> {
    target: &'lt mut R,
    read: &'lt Box<dyn ReadVia<R>>,
    vtable: &'lt OptTable<R>,
}

impl<'lt, R> Lease<'lt, R> {
    spec fn held(&self) -> Content {
        match self.vtable.buf {
            Some(via) => via.content_of(&*self.target),
            None => self.read.content_of(&*self.target),
        }
    }

    spec fn steady(&self) -> bool {
        match self.vtable.buf {
            Some(via) => via.reliable_of(&*self.target),
            None => self.read.reliable_of(&*self.target),
        }
    }

    spec fn patience(&self) -> nat {
        match self.vtable.buf {
            Some(via) => via.stalls_of(&*self.target),
            None => self.read.stalls_of(&*self.target),
        }
    }

    spec fn yields(&self, want: nat) -> Option<nat> {
        delivers_via(self.read, *self.vtable, &*self.target, want)
    }
}

impl<'lt, R> Lease<'lt, R> {
    spec fn held_in(&self, target: &R) -> Content {
        match self.vtable.buf {
            Some(via) => via.content_of(target),
            None => self.read.content_of(target),
        }
    }

    spec fn lands_on(&self, pos: SeekFrom, at: u64, then: Sight, after: R) -> bool {
        &&& self.vtable.seek->Some_0.lands_of(&*self.target, pos, at, &after)
        &&& self.held_in(&after) == then.content
        &&& self.steady_in(&after) == then.reliable
        &&& self.patience_in(&after) == then.stalls
    }

    spec fn patience_in(&self, target: &R) -> nat {
        match self.vtable.buf {
            Some(via) => via.stalls_of(target),
            None => self.read.stalls_of(target),
        }
    }

    spec fn steady_in(&self, target: &R) -> bool {
        match self.vtable.buf {
            Some(via) => via.reliable_of(target),
            None => self.read.reliable_of(target),
        }
    }
}

impl<'lt, R> Erased for Lease<'lt, R> {
    closed spec fn content(&self) -> Content {
        self.held()
    }

    closed spec fn seeks_to(&self, pos: SeekFrom, at: u64, then: Sight) -> bool {
        exists|after: R| #[trigger] self.lands_on(pos, at, then, after)
    }

    closed spec fn place(&self) -> Option<nat> {
        place_of(origin_via(self.read, *self.vtable, &*self.target))
    }

    closed spec fn stood_at(&self, at: nat, what: Query) -> bool {
        stood_via(
            self.read,
            *self.vtable,
            start_of(origin_via(self.read, *self.vtable, &*self.target)),
            at,
            what,
        )
    }

    closed spec fn read_reliable(&self) -> bool {
        self.steady()
    }

    closed spec fn read_stalls(&self) -> nat {
        self.patience()
    }

    closed spec fn delivers(&self, want: nat) -> Option<nat> {
        self.yields(want)
    }

    closed spec fn has_seek(&self) -> bool {
        self.vtable.seek is Some
    }

    closed spec fn has_buf(&self) -> bool {
        self.vtable.buf is Some
    }

    closed spec fn type_id(&self) -> Option<TypeId> {
        self.vtable.any
    }

    closed spec fn landing(&self, pos: SeekFrom) -> Option<u64> {
        self.vtable.seek->Some_0.landing_of(&*self.target, pos)
    }

    closed spec fn seek_reliable(&self) -> bool {
        self.vtable.seek->Some_0.seek_reliable_of(&*self.target)
    }

    fn can_seek(&self) -> (yes: bool) {
        self.vtable.seek.is_some()
    }

    fn can_buf(&self) -> (yes: bool) {
        self.vtable.buf.is_some()
    }

    fn any_id(&self) -> (id: Option<TypeId>) {
        self.vtable.any
    }

    fn read_erased(&mut self, buf: &mut [u8]) -> (r: Result<usize, Error>) {
        assert((*old(self)).content() == old(self).held());
        assert((*old(self)).read_reliable() == old(self).steady());
        assert((*old(self)).read_stalls() == old(self).patience());
        assert((*old(self)).delivers(buf@.len()) == old(self).yields(buf@.len()));
        assert(old(self).has_seek() == (old(self).vtable.seek is Some));
        assert(old(self).has_buf() == (old(self).vtable.buf is Some));
        assert(old(self).type_id() == old(self).vtable.any);
        proof {
            lemma_stands_where_it_is(old(self).read, *old(self).vtable);
        }
        let r = match &self.vtable.buf {
            Some(via) => via.read_on(self.target, buf),
            None => self.read.read_on(self.target, buf),
        };
        r
    }

    fn fill_buf_erased(&mut self) -> (r: Result<&[u8], Error>) {
        assert((*old(self)).content() == old(self).held());
        assert((*old(self)).read_reliable() == old(self).steady());
        assert((*old(self)).read_stalls() == old(self).patience());
        assert(old(self).has_seek() == (old(self).vtable.seek is Some));
        assert(old(self).has_buf() == (old(self).vtable.buf is Some));
        assert(old(self).type_id() == old(self).vtable.any);
        proof {
            lemma_stands_where_it_is(old(self).read, *old(self).vtable);
        }
        let r = match &self.vtable.buf {
            Some(via) => via.fill_buf_on(self.target),
            None => Err(Error::from_kind(ErrorKind::InvalidInput)),
        };
        r
    }

    fn consume_erased(&mut self, amt: usize) {
        assert((*old(self)).content() == old(self).held());
        assert((*old(self)).read_reliable() == old(self).steady());
        assert(old(self).has_seek() == (old(self).vtable.seek is Some));
        assert(old(self).has_buf() == (old(self).vtable.buf is Some));
        assert(old(self).type_id() == old(self).vtable.any);
        proof {
            lemma_stands_where_it_is(old(self).read, *old(self).vtable);
        }
        match &self.vtable.buf {
            Some(via) => {
                via.consume_on(self.target, amt);
            },
            None => {},
        }
    }

    fn seek_erased(&mut self, pos: SeekFrom) -> (r: Result<u64, Error>) {
        assert(old(self).landing(pos) == old(self).vtable.seek->Some_0.landing_of(
            &*old(self).target,
            pos,
        ));
        assert(old(self).seek_reliable() == old(self).vtable.seek->Some_0.seek_reliable_of(
            &*old(self).target,
        ));
        assert(old(self).has_seek() == (old(self).vtable.seek is Some));
        assert(old(self).has_buf() == (old(self).vtable.buf is Some));
        assert(old(self).type_id() == old(self).vtable.any);
        proof {
            lemma_stands_where_it_is(old(self).read, *old(self).vtable);
        }
        let r = match &self.vtable.seek {
            Some(via) => via.seek_on(self.target, pos),
            None => Err(Error::from_kind(ErrorKind::InvalidInput)),
        };
        proof {
            if let Ok(at) = r {
                let then = Sight {
                    content: (*self).content(),
                    reliable: (*self).read_reliable(),
                    stalls: (*self).read_stalls(),
                };
                assert((*self).content() == self.held());
                assert((*self).read_reliable() == self.steady());
                assert((*self).read_stalls() == self.patience());
                assert(old(self).lands_on(pos, at, then, *self.target));
                assert(old(self).seeks_to(pos, at, then));
                if let Some(from) = old(self).place() {
                    let read = self.read;
                    let table = *self.vtable;
                    let start = start_of(origin_via(read, table, &*old(self).target));
                    let kept = start_of(origin_via(read, table, &*self.target)) == start;
                    let what = Query::Moves(pos, at, then, self.place(), kept);
                    assert(sight_via(read, table, &*self.target) == then);
                    assert(stands_via(read, table, start, from, what, *old(self).target, *self.target));
                    assert(old(self).stood_at(from, what));
                }
            }
        }
        r
    }
}

impl<R> Erased for Reader<R> {
    open spec fn content(&self) -> Content {
        Reader::content(self)
    }

    open spec fn read_reliable(&self) -> bool {
        Reader::read_reliable(self)
    }

    open spec fn read_stalls(&self) -> nat {
        Reader::read_stalls(self)
    }

    open spec fn delivers(&self, want: nat) -> Option<nat> {
        Reader::delivers(self, want)
    }

    open spec fn has_seek(&self) -> bool {
        self.table().seek() is Some
    }

    open spec fn has_buf(&self) -> bool {
        self.table().buf() is Some
    }

    open spec fn type_id(&self) -> Option<TypeId> {
        self.table().any()
    }

    open spec fn landing(&self, pos: SeekFrom) -> Option<u64> {
        Reader::landing(self, pos)
    }

    open spec fn seek_reliable(&self) -> bool {
        Reader::seek_reliable(self)
    }

    open spec fn seeks_to(&self, pos: SeekFrom, at: u64, then: Sight) -> bool {
        Reader::seeks_to(self, pos, at, then)
    }

    open spec fn place(&self) -> Option<nat> {
        Reader::place(self)
    }

    open spec fn stood_at(&self, at: nat, what: Query) -> bool {
        Reader::stood_at(self, at, what)
    }

    fn can_seek(&self) -> (yes: bool) {
        self.vtable.seek.is_some()
    }

    fn can_buf(&self) -> (yes: bool) {
        self.vtable.buf.is_some()
    }

    fn any_id(&self) -> (id: Option<TypeId>) {
        self.vtable.any
    }

    fn read_erased(&mut self, buf: &mut [u8]) -> (r: Result<usize, Error>) {
        assert(Erased::content(old(self)) == Reader::content(old(self)));
        assert(Erased::read_reliable(old(self)) == Reader::read_reliable(old(self)));
        assert(Erased::read_stalls(old(self)) == Reader::read_stalls(old(self)));
        assert(Erased::delivers(old(self), buf@.len()) == Reader::delivers(old(self), buf@.len()));
        assert(Erased::has_seek(old(self)) == (old(self).table().seek() is Some));
        assert(Erased::has_buf(old(self)) == (old(self).table().buf() is Some));
        assert(Erased::type_id(old(self)) == old(self).table().any());
        proof {
            lemma_stands_where_it_is(old(self).read_via(), old(self).table());
        }
        let r = match &self.vtable.buf {
            Some(via) => via.read_on(&mut self.inner, buf),
            None => self.read.read_on(&mut self.inner, buf),
        };
        r
    }

    fn fill_buf_erased(&mut self) -> (r: Result<&[u8], Error>) {
        assert(Erased::content(old(self)) == Reader::content(old(self)));
        assert(Erased::read_reliable(old(self)) == Reader::read_reliable(old(self)));
        assert(Erased::read_stalls(old(self)) == Reader::read_stalls(old(self)));
        assert(Erased::has_seek(old(self)) == (old(self).table().seek() is Some));
        assert(Erased::has_buf(old(self)) == (old(self).table().buf() is Some));
        assert(Erased::type_id(old(self)) == old(self).table().any());
        proof {
            lemma_stands_where_it_is(old(self).read_via(), old(self).table());
        }
        let r = match &self.vtable.buf {
            Some(via) => via.fill_buf_on(&mut self.inner),
            None => Err(Error::from_kind(ErrorKind::InvalidInput)),
        };
        r
    }

    fn consume_erased(&mut self, amt: usize) {
        assert(Erased::content(old(self)) == Reader::content(old(self)));
        assert(Erased::read_reliable(old(self)) == Reader::read_reliable(old(self)));
        assert(Erased::has_seek(old(self)) == (old(self).table().seek() is Some));
        assert(Erased::has_buf(old(self)) == (old(self).table().buf() is Some));
        assert(Erased::type_id(old(self)) == old(self).table().any());
        proof {
            lemma_stands_where_it_is(old(self).read_via(), old(self).table());
        }
        match &self.vtable.buf {
            Some(via) => {
                via.consume_on(&mut self.inner, amt);
            },
            None => {},
        }
    }

    fn seek_erased(&mut self, pos: SeekFrom) -> (r: Result<u64, Error>) {
        assert(Erased::landing(old(self), pos) == Reader::landing(old(self), pos));
        assert(Erased::seek_reliable(old(self)) == Reader::seek_reliable(old(self)));
        assert(Erased::has_seek(old(self)) == (old(self).table().seek() is Some));
        assert(Erased::has_buf(old(self)) == (old(self).table().buf() is Some));
        assert(Erased::type_id(old(self)) == old(self).table().any());
        proof {
            lemma_stands_where_it_is(old(self).read_via(), old(self).table());
        }
        let r = match &self.vtable.seek {
            Some(via) => via.seek_on(&mut self.inner, pos),
            None => Err(Error::from_kind(ErrorKind::InvalidInput)),
        };
        proof {
            if let Ok(at) = r {
                let then = Sight {
                    content: Erased::content(self),
                    reliable: Erased::read_reliable(self),
                    stalls: Erased::read_stalls(self),
                };
                assert(Erased::content(self) == Reader::content(self));
                assert(Erased::read_reliable(self) == Reader::read_reliable(self));
                assert(Erased::read_stalls(self) == Reader::read_stalls(self));
                assert(Reader::lands_on(old(self), pos, at, then, self.inner));
                assert(Erased::seeks_to(old(self), pos, at, then));
                if let Some(from) = Erased::place(old(self)) {
                    let read = self.read_via();
                    let table = self.table();
                    let start = start_of(origin_via(read, table, &old(self).inner()));
                    let kept = start_of(origin_via(read, table, &self.inner())) == start;
                    let what = Query::Moves(pos, at, then, Erased::place(self), kept);
                    assert(sight_via(read, table, &self.inner()) == then);
                    assert(stands_via(read, table, start, from, what, old(self).inner(), self.inner()));
                    assert(Erased::stood_at(old(self), from, what));
                }
            }
        }
        r
    }
}

/// Whether two readers are in one state as far as [`Erased`] tells: they hold
/// the same content, have the same capabilities declared and seek alike.
pub open spec fn same_reader<A: Erased + ?Sized, B: Erased + ?Sized>(a: &A, b: &B) -> bool {
    &&& a.content() == b.content()
    &&& a.read_reliable() == b.read_reliable()
    &&& a.read_stalls() == b.read_stalls()
    &&& forall|want: nat| #[trigger] a.delivers(want) == b.delivers(want)
    &&& a.has_seek() == b.has_seek()
    &&& a.has_buf() == b.has_buf()
    &&& a.type_id() == b.type_id()
    &&& a.seek_reliable() == b.seek_reliable()
    &&& forall|pos: SeekFrom| #[trigger] a.landing(pos) == b.landing(pos)
    &&& forall|pos: SeekFrom, at: u64, then: Sight| #[trigger]
        a.seeks_to(pos, at, then) == b.seeks_to(pos, at, then)
    &&& a.place() == b.place()
    &&& forall|at: nat, what: Query| #[trigger]
        a.stood_at(at, what) == b.stood_at(at, what)
}

/// Whether `reader` shows, where its stream is, what it says of that place.
pub open spec fn stands<A: Erased + ?Sized>(reader: &A) -> bool {
    reader.place() matches Some(at) ==> {
        &&& forall|pos: SeekFrom|
            reader.stood_at(at, Query::Lands(pos, #[trigger] reader.landing(pos), reader.seek_reliable()))
        &&& forall|want: nat|
            reader.stood_at(at, Query::Serves(want, #[trigger] reader.delivers(want)))
    }
}

/// Where an erased reader stands, for a descriptor: its place, and nothing
/// that tells one stream from another.
pub open spec fn placed<'lt>(target: &Box<dyn Erased + 'lt>) -> Option<(Box<Box<dyn Erased + 'lt>>, nat)> {
    match target.place() {
        Some(at) => Some((arbitrary(), at)),
        None => None,
    }
}

/// An erased reader on loan.
struct Relay<'a, 'lt> {
    target: &'a mut Box<dyn Erased + 'lt>,
}

impl<'a, 'lt> Erased for Relay<'a, 'lt> {
    closed spec fn content(&self) -> Content {
        self.target.content()
    }

    closed spec fn read_reliable(&self) -> bool {
        self.target.read_reliable()
    }

    closed spec fn read_stalls(&self) -> nat {
        self.target.read_stalls()
    }

    closed spec fn delivers(&self, want: nat) -> Option<nat> {
        self.target.delivers(want)
    }

    closed spec fn has_seek(&self) -> bool {
        self.target.has_seek()
    }

    closed spec fn has_buf(&self) -> bool {
        self.target.has_buf()
    }

    closed spec fn type_id(&self) -> Option<TypeId> {
        self.target.type_id()
    }

    closed spec fn landing(&self, pos: SeekFrom) -> Option<u64> {
        self.target.landing(pos)
    }

    closed spec fn seek_reliable(&self) -> bool {
        self.target.seek_reliable()
    }

    closed spec fn seeks_to(&self, pos: SeekFrom, at: u64, then: Sight) -> bool {
        self.target.seeks_to(pos, at, then)
    }

    closed spec fn place(&self) -> Option<nat> {
        self.target.place()
    }

    closed spec fn stood_at(&self, at: nat, what: Query) -> bool {
        self.target.stood_at(at, what)
    }

    fn can_seek(&self) -> (yes: bool) {
        self.target.can_seek()
    }

    fn can_buf(&self) -> (yes: bool) {
        self.target.can_buf()
    }

    fn any_id(&self) -> (id: Option<TypeId>) {
        self.target.any_id()
    }

    fn read_erased(&mut self, buf: &mut [u8]) -> (r: Result<usize, Error>) {
        assert((*old(self)).content() == old(self).target.content());
        assert((*old(self)).read_reliable() == old(self).target.read_reliable());
        assert((*old(self)).read_stalls() == old(self).target.read_stalls());
        assert((*old(self)).delivers(buf@.len()) == old(self).target.delivers(buf@.len()));
        assert(old(self).has_seek() == old(self).target.has_seek());
        assert(old(self).has_buf() == old(self).target.has_buf());
        assert(old(self).type_id() == old(self).target.type_id());
        assert(old(self).landing(SeekFrom::Current(0)) == old(self).target.landing(
            SeekFrom::Current(0),
        ));
        assert(old(self).seek_reliable() == old(self).target.seek_reliable());
        self.target.read_erased(buf)
    }

    fn fill_buf_erased(&mut self) -> (r: Result<&[u8], Error>) {
        assert((*old(self)).content() == old(self).target.content());
        assert((*old(self)).read_reliable() == old(self).target.read_reliable());
        assert((*old(self)).read_stalls() == old(self).target.read_stalls());
        assert(old(self).has_seek() == old(self).target.has_seek());
        assert(old(self).has_buf() == old(self).target.has_buf());
        assert(old(self).type_id() == old(self).target.type_id());
        assert(old(self).landing(SeekFrom::Current(0)) == old(self).target.landing(
            SeekFrom::Current(0),
        ));
        assert(old(self).seek_reliable() == old(self).target.seek_reliable());
        self.target.fill_buf_erased()
    }

    fn consume_erased(&mut self, amt: usize) {
        assert((*old(self)).content() == old(self).target.content());
        assert((*old(self)).read_reliable() == old(self).target.read_reliable());
        assert((*old(self)).read_stalls() == old(self).target.read_stalls());
        assert(old(self).has_seek() == old(self).target.has_seek());
        assert(old(self).has_buf() == old(self).target.has_buf());
        assert(old(self).type_id() == old(self).target.type_id());
        assert(old(self).landing(SeekFrom::Current(0)) == old(self).target.landing(
            SeekFrom::Current(0),
        ));
        assert(old(self).seek_reliable() == old(self).target.seek_reliable());
        self.target.consume_erased(amt)
    }

    fn seek_erased(&mut self, pos: SeekFrom) -> (r: Result<u64, Error>) {
        assert((*old(self)).content() == old(self).target.content());
        assert((*old(self)).read_reliable() == old(self).target.read_reliable());
        assert((*old(self)).read_stalls() == old(self).target.read_stalls());
        assert(old(self).has_seek() == old(self).target.has_seek());
        assert(old(self).has_buf() == old(self).target.has_buf());
        assert(old(self).type_id() == old(self).target.type_id());
        assert(old(self).landing(SeekFrom::Current(0)) == old(self).target.landing(
            SeekFrom::Current(0),
        ));
        assert(old(self).seek_reliable() == old(self).target.seek_reliable());
        assert(forall|at: u64, then: Sight| #[trigger]
            old(self).seeks_to(pos, at, then) == old(self).target.seeks_to(pos, at, then));
        assert(old(self).place() == old(self).target.place());
        assert(forall|a: nat, what: Query| #[trigger]
            old(self).stood_at(a, what) == old(self).target.stood_at(a, what));
        let r = self.target.seek_erased(pos);
        assert(self.place() == self.target.place());
        assert(forall|a: nat, what: Query| #[trigger]
            self.stood_at(a, what) == self.target.stood_at(a, what));
        proof {
            assert((*self).content() == self.target.content());
            assert((*self).read_reliable() == self.target.read_reliable());
            assert((*self).read_stalls() == self.target.read_stalls());
            if let Ok(at) = r {
                if let Some(from) = old(self).place() {
                    let then = Sight {
                        content: self.target.content(),
                        reliable: self.target.read_reliable(),
                        stalls: self.target.read_stalls(),
                    };
                    let kept = choose|kept: bool|
                        {
                            &&& #[trigger] old(self).target.stood_at(
                                from,
                                Query::Moves(pos, at, then, self.target.place(), kept),
                            )
                            &&& kept ==> forall|a: nat, what: Query| #[trigger]
                                self.target.stood_at(a, what) == old(self).target.stood_at(a, what)
                        };
                    assert(old(self).stood_at(from, Query::Moves(pos, at, then, self.place(), kept)));
                }
            }
        }
        r
    }
}


/// What `reader` has declared.
pub open spec fn declared_by<A: Erased + ?Sized>(reader: &A) -> Declared {
    Declared { seek: reader.has_seek(), buf: reader.has_buf(), any: reader.type_id() }
}

/// A reader on loan that does not name the type of its stream.
///
/// It reads, and offers what had been declared on the reader when it was lent
/// out. Nothing can be declared on it, and nothing it offers is taken back.
pub struct ReaderMut<'lt> {
    inner: Box<dyn Erased + 'lt>,
    vtable: Declared,
}

/// A reader that owns its stream and does not name the stream's type.
///
/// It reads, and offers what had been declared on the reader when it was
/// boxed. Nothing can be declared on it, and nothing it offers is taken back.
pub struct ReaderBox<'lt> {
    inner: Box<dyn Erased + 'lt>,
    vtable: Declared,
}

/// An erased reader lent out for reading.
pub struct ErasedReadMut<'a, 'lt> {
    /// The reader.
    pub target: &'a mut Box<dyn Erased + 'lt>,
}

/// An erased reader lent out for seeking.
pub struct ErasedSeekMut<'a, 'lt> {
    /// The reader.
    pub target: &'a mut Box<dyn Erased + 'lt>,
}

/// An erased reader lent out for buffered reading.
pub struct ErasedBufMut<'a, 'lt> {
    /// The reader.
    pub target: &'a mut Box<dyn Erased + 'lt>,
}

/// How an erased reader is read: by itself.
pub struct Through;

impl<'lt> ReadVia<Box<dyn Erased + 'lt>> for Through {
    open spec fn declared_of(&self, target: &Box<dyn Erased + 'lt>) -> Declared {
        declared_by(&**target)
    }

    open spec fn content_of(&self, target: &Box<dyn Erased + 'lt>) -> Content {
        target.content()
    }

    open spec fn reliable_of(&self, target: &Box<dyn Erased + 'lt>) -> bool {
        target.read_reliable()
    }

    open spec fn stalls_of(&self, target: &Box<dyn Erased + 'lt>) -> nat {
        target.read_stalls()
    }

    open spec fn delivers_of(&self, target: &Box<dyn Erased + 'lt>, want: nat) -> Option<nat> {
        target.delivers(want)
    }

    open spec fn origin_of(&self, target: &Box<dyn Erased + 'lt>) -> Option<
        (Box<Box<dyn Erased + 'lt>>, nat),
    > {
        placed(target)
    }

    open spec fn stood_of(
        &self,
        target: &Box<dyn Erased + 'lt>,
        at: nat,
        what: Query,
    ) -> bool {
        target.stood_at(at, what)
    }

    open spec fn stands_of(&self, target: &Box<dyn Erased + 'lt>) -> bool {
        stands(&**target)
    }

    fn read_on(&self, target: &mut Box<dyn Erased + 'lt>, buf: &mut [u8]) -> (r: Result<
        usize,
        Error,
    >) {
        assert(self.declared_of(old(target)) == declared_by(&**old(target)));
        assert(self.content_of(old(target)) == (*old(target)).content());
        assert(self.reliable_of(old(target)) == (*old(target)).read_reliable());
        assert(self.stalls_of(old(target)) == (*old(target)).read_stalls());
        assert(self.delivers_of(old(target), buf@.len()) == (*old(target)).delivers(buf@.len()));
        target.read_erased(buf)
    }
}

/// How an erased reader is read through its buffer: by itself, where buffered
/// reading has been declared. Where it has not, the reader counts as an empty
/// source that refuses to lend out a buffer.
pub struct ThroughBuffer;

impl ThroughBuffer {
    /// What `target` has yet to deliver through its buffer.
    pub open spec fn buffered<'lt>(target: &Box<dyn Erased + 'lt>) -> Content {
        if target.has_buf() {
            target.content()
        } else {
            Content::Finite(Seq::empty())
        }
    }
}

impl<'lt> BufReadVia<Box<dyn Erased + 'lt>> for ThroughBuffer {
    open spec fn declared_of(&self, target: &Box<dyn Erased + 'lt>) -> Declared {
        declared_by(&**target)
    }

    open spec fn content_of(&self, target: &Box<dyn Erased + 'lt>) -> Content {
        ThroughBuffer::buffered(target)
    }

    open spec fn reliable_of(&self, target: &Box<dyn Erased + 'lt>) -> bool {
        target.has_buf() && target.read_reliable()
    }

    open spec fn stalls_of(&self, target: &Box<dyn Erased + 'lt>) -> nat {
        target.read_stalls()
    }

    open spec fn delivers_of(&self, target: &Box<dyn Erased + 'lt>, want: nat) -> Option<nat> {
        if target.has_buf() {
            target.delivers(want)
        } else {
            Some(0)
        }
    }

    open spec fn origin_of(&self, target: &Box<dyn Erased + 'lt>) -> Option<
        (Box<Box<dyn Erased + 'lt>>, nat),
    > {
        placed(target)
    }

    open spec fn stood_of(
        &self,
        target: &Box<dyn Erased + 'lt>,
        at: nat,
        what: Query,
    ) -> bool {
        target.stood_at(at, what)
    }

    open spec fn stands_of(&self, target: &Box<dyn Erased + 'lt>) -> bool {
        stands(&**target)
    }

    fn read_on(&self, target: &mut Box<dyn Erased + 'lt>, buf: &mut [u8]) -> (r: Result<
        usize,
        Error,
    >) {
        assert(self.declared_of(old(target)) == declared_by(&**old(target)));
        assert(self.content_of(old(target)) == ThroughBuffer::buffered(old(target)));
        assert(self.reliable_of(old(target)) == (old(target).has_buf() && old(
            target,
        ).read_reliable()));
        assert(self.stalls_of(old(target)) == (*old(target)).read_stalls());
        assert(self.delivers_of(old(target), buf@.len()) == if old(target).has_buf() {
            (*old(target)).delivers(buf@.len())
        } else {
            Some(0nat)
        });
        if target.can_buf() {
            target.read_erased(buf)
        } else {
            proof {
                Content::Finite(Seq::empty()).lemma_skip_none();
                assert(buf@ =~= Seq::<u8>::empty() + buf@.skip(0));
            }
            Ok(0)
        }
    }

    fn fill_buf_on<'a>(&self, target: &'a mut Box<dyn Erased + 'lt>) -> (r: Result<&'a [u8], Error>) {
        assert(self.declared_of(old(target)) == declared_by(&**old(target)));
        assert(self.content_of(old(target)) == ThroughBuffer::buffered(old(target)));
        assert(self.reliable_of(old(target)) == (old(target).has_buf() && old(
            target,
        ).read_reliable()));
        assert(self.stalls_of(old(target)) == (*old(target)).read_stalls());
        target.fill_buf_erased()
    }

    fn consume_on(&self, target: &mut Box<dyn Erased + 'lt>, amt: usize) {
        assert(self.declared_of(old(target)) == declared_by(&**old(target)));
        assert(self.content_of(old(target)) == ThroughBuffer::buffered(old(target)));
        assert(self.reliable_of(old(target)) == (old(target).has_buf() && old(
            target,
        ).read_reliable()));
        proof {
            Content::Finite(Seq::empty()).lemma_skip_none();
        }
        target.consume_erased(amt);
    }
}

/// How an erased reader is read where all reading goes through its buffer.
pub struct ThroughBuffered;

impl<'lt> ReadVia<Box<dyn Erased + 'lt>> for ThroughBuffered {
    open spec fn declared_of(&self, target: &Box<dyn Erased + 'lt>) -> Declared {
        declared_by(&**target)
    }

    open spec fn content_of(&self, target: &Box<dyn Erased + 'lt>) -> Content {
        ThroughBuffer::buffered(target)
    }

    open spec fn reliable_of(&self, target: &Box<dyn Erased + 'lt>) -> bool {
        target.has_buf() && target.read_reliable()
    }

    open spec fn stalls_of(&self, target: &Box<dyn Erased + 'lt>) -> nat {
        target.read_stalls()
    }

    open spec fn delivers_of(&self, target: &Box<dyn Erased + 'lt>, want: nat) -> Option<nat> {
        ThroughBuffer.delivers_of(target, want)
    }

    open spec fn origin_of(&self, target: &Box<dyn Erased + 'lt>) -> Option<
        (Box<Box<dyn Erased + 'lt>>, nat),
    > {
        placed(target)
    }

    open spec fn stood_of(
        &self,
        target: &Box<dyn Erased + 'lt>,
        at: nat,
        what: Query,
    ) -> bool {
        target.stood_at(at, what)
    }

    open spec fn stands_of(&self, target: &Box<dyn Erased + 'lt>) -> bool {
        stands(&**target)
    }

    fn read_on(&self, target: &mut Box<dyn Erased + 'lt>, buf: &mut [u8]) -> (r: Result<
        usize,
        Error,
    >) {
        assert(self.declared_of(old(target)) == ThroughBuffer.declared_of(old(target)));
        assert(self.content_of(old(target)) == ThroughBuffer.content_of(old(target)));
        assert(self.reliable_of(old(target)) == ThroughBuffer.reliable_of(old(target)));
        assert(self.stalls_of(old(target)) == ThroughBuffer.stalls_of(old(target)));
        assert(self.delivers_of(old(target), buf@.len()) == ThroughBuffer.delivers_of(
            old(target),
            buf@.len(),
        ));
        assert(self.origin_of(old(target)) == ThroughBuffer.origin_of(old(target)));
        assert(self.stands_of(old(target)) == ThroughBuffer.stands_of(old(target)));
        let r = ThroughBuffer.read_on(target, buf);
        assert forall|at: nat, what: Query| #[trigger]
            self.stood_of(target, at, what) == self.stood_of(
                old(target),
                at,
                what,
            ) by {
            assert(ThroughBuffer.stood_of(target, at, what) == ThroughBuffer.stood_of(
                old(target),
                at,
                what,
            ));
        }
        assert(self.origin_of(target) == ThroughBuffer.origin_of(target));
        assert(self.stands_of(target) == ThroughBuffer.stands_of(target));
        r
    }
}

/// What the descriptors of an erased reader say of a place is what the reader
/// says of it.
proof fn lemma_through_stood<'lt>()
    ensures
        forall|target: Box<dyn Erased + 'lt>, at: nat, what: Query|
            {
                &&& #[trigger] target.stood_at(at, what) == Through.stood_of(
                    &target,
                    at,
                    what,
                )
                &&& target.stood_at(at, what) == ThroughBuffer.stood_of(
                    &target,
                    at,
                    what,
                )
                &&& target.stood_at(at, what) == ThroughBuffered.stood_of(
                    &target,
                    at,
                    what,
                )
            },
{
}

impl<'a, 'lt> Read for ErasedReadMut<'a, 'lt> {
    open spec fn content(&self) -> Content {
        self.target.content()
    }

    open spec fn read_reliable(&self) -> bool {
        self.target.read_reliable()
    }

    open spec fn read_stalls(&self) -> nat {
        self.target.read_stalls()
    }

    open spec fn delivers(&self, want: nat) -> Option<nat> {
        self.target.delivers(want)
    }

    fn read(&mut self, buf: &mut [u8]) -> (r: Result<usize, Error>)
        ensures
            *final(final(self).target) == *final(old(self).target),
            declared_by(&**final(self).target) == declared_by(&**old(self).target),
            forall|at: nat, what: Query| #[trigger]
                final(self).target.stood_at(at, what) == old(self).target.stood_at(
                    at,
                    what,
                ),
            stands(&**old(self).target) ==> stands(&**final(self).target),
            match r {
                Ok(n) => final(self).target.place() == advanced(old(self).target.place(), n as nat),
                Err(_) => final(self).target.place() == old(self).target.place(),
            },
    {
        proof {
            lemma_through_stood();
        }
        assert((*old(self)).content() == old(self).target.content());
        assert((*old(self)).read_reliable() == old(self).target.read_reliable());
        assert((*old(self)).read_stalls() == old(self).target.read_stalls());
        assert((*old(self)).delivers(buf@.len()) == old(self).target.delivers(buf@.len()));
        Through.read_on(self.target, buf)
    }

    fn read_exact(&mut self, buf: &mut [u8]) -> (r: Result<(), Error>)
        ensures
            *final(final(self).target) == *final(old(self).target),
            declared_by(&**final(self).target) == declared_by(&**old(self).target),
            forall|at: nat, what: Query| #[trigger]
                final(self).target.stood_at(at, what) == old(self).target.stood_at(
                    at,
                    what,
                ),
            stands(&**old(self).target) ==> stands(&**final(self).target),
            r is Ok ==> final(self).target.place() == advanced(old(self).target.place(), old(buf)@.len()),
    {
        proof {
            lemma_through_stood();
        }
        assert((*old(self)).content() == old(self).target.content());
        assert((*old(self)).read_reliable() == old(self).target.read_reliable());
        read_exact_via(&Through, self.target, buf)
    }

    fn read_to_end(&mut self, buf: &mut Vec<u8>) -> (ret: Result<usize, Error>)
        ensures
            *final(final(self).target) == *final(old(self).target),
            declared_by(&**final(self).target) == declared_by(&**old(self).target),
            forall|at: nat, what: Query| #[trigger]
                final(self).target.stood_at(at, what) == old(self).target.stood_at(
                    at,
                    what,
                ),
            stands(&**old(self).target) ==> stands(&**final(self).target),
            ret matches Ok(n) ==> final(self).target.place() == advanced(old(self).target.place(), n as nat),
    {
        proof {
            lemma_through_stood();
        }
        assert((*old(self)).content() == old(self).target.content());
        assert((*old(self)).read_reliable() == old(self).target.read_reliable());
        read_to_end_via(&Through, self.target, buf)
    }

    fn read_to_string(&mut self, buf: &mut String) -> (ret: Result<usize, Error>)
        ensures
            *final(final(self).target) == *final(old(self).target),
            declared_by(&**final(self).target) == declared_by(&**old(self).target),
            forall|at: nat, what: Query| #[trigger]
                final(self).target.stood_at(at, what) == old(self).target.stood_at(
                    at,
                    what,
                ),
            stands(&**old(self).target) ==> stands(&**final(self).target),
            ret matches Ok(n) ==> final(self).target.place() == advanced(old(self).target.place(), n as nat),
    {
        proof {
            lemma_through_stood();
        }
        assert((*old(self)).content() == old(self).target.content());
        assert((*old(self)).read_reliable() == old(self).target.read_reliable());
        let mut bytes: Vec<u8> = Vec::new();
        let ret = read_to_end_via(&Through, self.target, &mut bytes);
        proof {
            if ret is Ok {
                assert(bytes@ =~= (*old(self)).content()->Finite_0);
            }
        }
        append_to_string(buf, bytes.as_slice(), ret)
    }
}

impl<'a, 'lt> Seek for ErasedSeekMut<'a, 'lt> {
    open spec fn landing(&self, pos: SeekFrom) -> Option<u64> {
        self.target.landing(pos)
    }

    open spec fn seek_reliable(&self) -> bool {
        self.target.has_seek() && self.target.seek_reliable()
    }

    open spec fn lands(&self, pos: SeekFrom, at: u64, after: &Self) -> bool {
        self.target.seeks_to(
            pos,
            at,
            Sight {
                content: after.target.content(),
                reliable: after.target.read_reliable(),
                stalls: after.target.read_stalls(),
            },
        )
    }

    fn seek(&mut self, pos: SeekFrom) -> (r: Result<u64, Error>)
        ensures
            *final(final(self).target) == *final(old(self).target),
            declared_by(&**final(self).target) == declared_by(&**old(self).target),
            stands(&**final(self).target),
            r matches Ok(at) ==> (old(self).target.place() matches Some(from) ==> exists|kept: bool|
                {
                    &&& #[trigger] old(self).target.stood_at(
                        from,
                        Query::Moves(
                            pos,
                            at,
                            Sight {
                                content: final(self).target.content(),
                                reliable: final(self).target.read_reliable(),
                                stalls: final(self).target.read_stalls(),
                            },
                            final(self).target.place(),
                            kept,
                        ),
                    )
                    &&& kept ==> forall|a: nat, what: Query| #[trigger]
                        final(self).target.stood_at(a, what) == old(self).target.stood_at(a, what)
                }),
    {
        assert(forall|at: u64, after: &Self| #[trigger]
            old(self).lands(pos, at, after) == old(self).target.seeks_to(
                pos,
                at,
                Sight {
                    content: after.target.content(),
                    reliable: after.target.read_reliable(),
                    stalls: after.target.read_stalls(),
                },
            ));
        assert(old(self).landing(pos) == old(self).target.landing(pos));
        assert(old(self).seek_reliable() == (old(self).target.has_seek() && old(
            self,
        ).target.seek_reliable()));
        self.target.seek_erased(pos)
    }

    fn stream_position(&mut self) -> (r: Result<u64, Error>)
        ensures
            *final(final(self).target) == *final(old(self).target),
            declared_by(&**final(self).target) == declared_by(&**old(self).target),
            stands(&**final(self).target),
            r matches Ok(at) ==> (old(self).target.place() matches Some(from) ==> exists|kept: bool|
                {
                    &&& #[trigger] old(self).target.stood_at(
                        from,
                        Query::Moves(
                            SeekFrom::Current(0),
                            at,
                            Sight {
                                content: final(self).target.content(),
                                reliable: final(self).target.read_reliable(),
                                stalls: final(self).target.read_stalls(),
                            },
                            final(self).target.place(),
                            kept,
                        ),
                    )
                    &&& kept ==> forall|a: nat, what: Query| #[trigger]
                        final(self).target.stood_at(a, what) == old(self).target.stood_at(a, what)
                }),
    {
        self.seek(SeekFrom::Current(0))
    }
}

/// Without buffered reading declared, the accessor is an empty source that
/// refuses to lend out a buffer. No reader hands out such an accessor.
impl<'a, 'lt> Read for ErasedBufMut<'a, 'lt> {
    open spec fn content(&self) -> Content {
        ThroughBuffer::buffered(self.target)
    }

    open spec fn read_reliable(&self) -> bool {
        self.target.has_buf() && self.target.read_reliable()
    }

    open spec fn read_stalls(&self) -> nat {
        self.target.read_stalls()
    }

    open spec fn delivers(&self, want: nat) -> Option<nat> {
        ThroughBuffer.delivers_of(self.target, want)
    }

    fn read(&mut self, buf: &mut [u8]) -> (r: Result<usize, Error>)
        ensures
            *final(final(self).target) == *final(old(self).target),
            declared_by(&**final(self).target) == declared_by(&**old(self).target),
            forall|at: nat, what: Query| #[trigger]
                final(self).target.stood_at(at, what) == old(self).target.stood_at(
                    at,
                    what,
                ),
            stands(&**old(self).target) ==> stands(&**final(self).target),
            match r {
                Ok(n) => final(self).target.place() == advanced(old(self).target.place(), n as nat),
                Err(_) => final(self).target.place() == old(self).target.place(),
            },
    {
        proof {
            lemma_through_stood();
        }
        assert((*old(self)).content() == ThroughBuffer::buffered(old(self).target));
        assert((*old(self)).read_reliable() == (old(self).target.has_buf() && old(
            self,
        ).target.read_reliable()));
        assert((*old(self)).read_stalls() == old(self).target.read_stalls());
        assert((*old(self)).delivers(buf@.len()) == ThroughBuffer.delivers_of(
            old(self).target,
            buf@.len(),
        ));
        ThroughBuffer.read_on(self.target, buf)
    }

    fn read_exact(&mut self, buf: &mut [u8]) -> (r: Result<(), Error>)
        ensures
            *final(final(self).target) == *final(old(self).target),
            declared_by(&**final(self).target) == declared_by(&**old(self).target),
            forall|at: nat, what: Query| #[trigger]
                final(self).target.stood_at(at, what) == old(self).target.stood_at(
                    at,
                    what,
                ),
            stands(&**old(self).target) ==> stands(&**final(self).target),
            r is Ok ==> final(self).target.place() == advanced(old(self).target.place(), old(buf)@.len()),
    {
        proof {
            lemma_through_stood();
        }
        assert((*old(self)).content() == ThroughBuffer::buffered(old(self).target));
        assert((*old(self)).read_reliable() == (old(self).target.has_buf() && old(
            self,
        ).target.read_reliable()));
        assert(ThroughBuffered.content_of(old(self).target) == ThroughBuffer::buffered(
            old(self).target,
        ));
        read_exact_via(&ThroughBuffered, self.target, buf)
    }

    fn read_to_end(&mut self, buf: &mut Vec<u8>) -> (ret: Result<usize, Error>)
        ensures
            *final(final(self).target) == *final(old(self).target),
            declared_by(&**final(self).target) == declared_by(&**old(self).target),
            forall|at: nat, what: Query| #[trigger]
                final(self).target.stood_at(at, what) == old(self).target.stood_at(
                    at,
                    what,
                ),
            stands(&**old(self).target) ==> stands(&**final(self).target),
            ret matches Ok(n) ==> final(self).target.place() == advanced(old(self).target.place(), n as nat),
    {
        proof {
            lemma_through_stood();
        }
        assert((*old(self)).content() == ThroughBuffer::buffered(old(self).target));
        assert((*old(self)).read_reliable() == (old(self).target.has_buf() && old(
            self,
        ).target.read_reliable()));
        assert(ThroughBuffered.content_of(old(self).target) == ThroughBuffer::buffered(
            old(self).target,
        ));
        read_to_end_via(&ThroughBuffered, self.target, buf)
    }

    fn read_to_string(&mut self, buf: &mut String) -> (ret: Result<usize, Error>)
        ensures
            *final(final(self).target) == *final(old(self).target),
            declared_by(&**final(self).target) == declared_by(&**old(self).target),
            forall|at: nat, what: Query| #[trigger]
                final(self).target.stood_at(at, what) == old(self).target.stood_at(
                    at,
                    what,
                ),
            stands(&**old(self).target) ==> stands(&**final(self).target),
            ret matches Ok(n) ==> final(self).target.place() == advanced(old(self).target.place(), n as nat),
    {
        proof {
            lemma_through_stood();
        }
        assert((*old(self)).content() == ThroughBuffer::buffered(old(self).target));
        assert((*old(self)).read_reliable() == (old(self).target.has_buf() && old(
            self,
        ).target.read_reliable()));
        assert(ThroughBuffered.content_of(old(self).target) == ThroughBuffer::buffered(
            old(self).target,
        ));
        let mut bytes: Vec<u8> = Vec::new();
        let ret = read_to_end_via(&ThroughBuffered, self.target, &mut bytes);
        proof {
            if ret is Ok {
                assert(bytes@ =~= (*old(self)).content()->Finite_0);
            }
        }
        append_to_string(buf, bytes.as_slice(), ret)
    }
}

impl<'a, 'lt> BufRead for ErasedBufMut<'a, 'lt> {
    fn fill_buf(&mut self) -> (r: Result<&[u8], Error>)
        ensures
            *final(final(self).target) == *final(old(self).target),
            declared_by(&**final(self).target) == declared_by(&**old(self).target),
            forall|at: nat, what: Query| #[trigger]
                final(self).target.stood_at(at, what) == old(self).target.stood_at(
                    at,
                    what,
                ),
            stands(&**old(self).target) ==> stands(&**final(self).target),
            final(self).target.place() == old(self).target.place(),
    {
        proof {
            lemma_through_stood();
        }
        assert((*old(self)).content() == ThroughBuffer::buffered(old(self).target));
        assert((*old(self)).read_reliable() == (old(self).target.has_buf() && old(
            self,
        ).target.read_reliable()));
        assert((*old(self)).read_stalls() == old(self).target.read_stalls());
        ThroughBuffer.fill_buf_on(self.target)
    }

    fn consume(&mut self, amt: usize)
        ensures
            *final(final(self).target) == *final(old(self).target),
            declared_by(&**final(self).target) == declared_by(&**old(self).target),
            forall|at: nat, what: Query| #[trigger]
                final(self).target.stood_at(at, what) == old(self).target.stood_at(
                    at,
                    what,
                ),
            stands(&**old(self).target) ==> stands(&**final(self).target),
            final(self).target.place() == advanced(old(self).target.place(), amt as nat),
    {
        proof {
            lemma_through_stood();
        }
        assert((*old(self)).content() == ThroughBuffer::buffered(old(self).target));
        assert((*old(self)).read_reliable() == (old(self).target.has_buf() && old(
            self,
        ).target.read_reliable()));
        ThroughBuffer.consume_on(self.target, amt);
    }

    fn read_until(&mut self, byte: u8, buf: &mut Vec<u8>) -> (ret: Result<usize, Error>)
        ensures
            *final(final(self).target) == *final(old(self).target),
            declared_by(&**final(self).target) == declared_by(&**old(self).target),
            forall|at: nat, what: Query| #[trigger]
                final(self).target.stood_at(at, what) == old(self).target.stood_at(
                    at,
                    what,
                ),
            stands(&**old(self).target) ==> stands(&**final(self).target),
            ret matches Ok(n) ==> final(self).target.place() == advanced(old(self).target.place(), n as nat),
    {
        proof {
            lemma_through_stood();
        }
        assert((*old(self)).content() == ThroughBuffer::buffered(old(self).target));
        assert((*old(self)).read_reliable() == (old(self).target.has_buf() && old(
            self,
        ).target.read_reliable()));
        assert(ThroughBuffer.content_of(old(self).target) == ThroughBuffer::buffered(
            old(self).target,
        ));
        read_until_via(&ThroughBuffer, self.target, byte, buf)
    }

    fn read_line(&mut self, buf: &mut String) -> (ret: Result<usize, Error>)
        ensures
            *final(final(self).target) == *final(old(self).target),
            declared_by(&**final(self).target) == declared_by(&**old(self).target),
            forall|at: nat, what: Query| #[trigger]
                final(self).target.stood_at(at, what) == old(self).target.stood_at(
                    at,
                    what,
                ),
            stands(&**old(self).target) ==> stands(&**final(self).target),
            ret matches Ok(n) ==> final(self).target.place() == advanced(old(self).target.place(), n as nat),
    {
        proof {
            lemma_through_stood();
        }
        assert((*old(self)).content() == ThroughBuffer::buffered(old(self).target));
        assert((*old(self)).read_reliable() == (old(self).target.has_buf() && old(
            self,
        ).target.read_reliable()));
        assert(ThroughBuffer.content_of(old(self).target) == ThroughBuffer::buffered(
            old(self).target,
        ));
        let mut bytes: Vec<u8> = Vec::new();
        let ret = read_until_via(&ThroughBuffer, self.target, 0x0a, &mut bytes);
        proof {
            if let Ok(n) = ret {
                assert(bytes@ =~= (*old(self)).content()->Finite_0.take(n as int));
                assert(runs_to((*old(self)).content()->Finite_0, 0x0a, n as nat));
            }
        }
        append_to_string(buf, bytes.as_slice(), ret)
    }
}

impl<'lt> ReaderMut<'lt> {
    /// The reader behind this handle.
    pub closed spec fn erased(&self) -> &Box<dyn Erased + 'lt> {
        &self.inner
    }

    /// What this handle offers: its copy of what had been declared.
    pub closed spec fn table(&self) -> Declared {
        self.vtable
    }

    /// Whether the handle is well formed: it offers what the reader behind it
    /// has declared.
    pub open spec fn wf(&self) -> bool {
        self.table() == declared_by(&**self.erased())
    }

    /// What the stream has yet to deliver.
    pub open spec fn content(&self) -> Content {
        self.erased().content()
    }

    /// Lends out the reader for reading.
    pub fn as_read_mut(&mut self) -> (acc: ErasedReadMut<'_, 'lt>)
        ensures
            *acc.target == *old(self).erased(),
            *final(self).erased() == *final(acc.target),
            final(self).table() == old(self).table(),
            acc.content() == (*old(self)).content(),
            acc.read_reliable() == old(self).erased().read_reliable(),
            forall|want: nat| #[trigger] acc.delivers(want) == old(self).erased().delivers(want),
    {
        let acc = ErasedReadMut { target: &mut self.inner };
        assert(acc.content() == acc.target.content());
        assert(acc.read_reliable() == acc.target.read_reliable());
        assert forall|want: nat| #[trigger]
            acc.delivers(want) == old(self).erased().delivers(want) by {
            assert(acc.delivers(want) == acc.target.delivers(want));
        }
        acc
    }

    /// Lends out the reader for buffered reading, where that has been declared.
    pub fn as_buf_mut(&mut self) -> (acc: Option<ErasedBufMut<'_, 'lt>>)
        ensures
            acc is Some <==> old(self).table().buf,
            final(self).table() == old(self).table(),
            match acc {
                Some(acc) => {
                    &&& *acc.target == *old(self).erased()
                    &&& *final(self).erased() == *final(acc.target)
                    &&& old(self).wf() ==> acc.content() == (*old(self)).content()
                },
                None => *final(self) == *old(self),
            },
    {
        if self.vtable.buf {
            let acc = ErasedBufMut { target: &mut self.inner };
            assert(acc.content() == ThroughBuffer::buffered(acc.target));
            Some(acc)
        } else {
            None
        }
    }

    /// Lends out the reader for seeking, where that has been declared.
    pub fn as_seek_mut(&mut self) -> (acc: Option<ErasedSeekMut<'_, 'lt>>)
        ensures
            acc is Some <==> old(self).table().seek,
            final(self).table() == old(self).table(),
            match acc {
                Some(acc) => {
                    &&& *acc.target == *old(self).erased()
                    &&& *final(self).erased() == *final(acc.target)
                    &&& forall|pos: SeekFrom| #[trigger]
                        acc.landing(pos) == old(self).erased().landing(pos)
                },
                None => *final(self) == *old(self),
            },
    {
        if self.vtable.seek {
            let acc = ErasedSeekMut { target: &mut self.inner };
            assert forall|pos: SeekFrom| #[trigger]
                acc.landing(pos) == old(self).erased().landing(pos) by {
                assert(acc.landing(pos) == acc.target.landing(pos));
            }
            Some(acc)
        } else {
            None
        }
    }

    /// What identifies the stream's type, where that has been declared.
    ///
    /// The type is told by its `TypeId`; the stream itself is not handed out as
    /// a `dyn Any`. A caller that knows the type compares the identifier with
    /// `TypeId::of`. Where the reader names the stream's type, `get_ref` and
    /// `into_inner` reach the stream; a reader that does not name it has no way to
    /// give the stream back, whatever has been declared.
    pub fn as_any(&self) -> (id: Option<TypeId>)
        ensures
            id == self.table().any,
    {
        self.vtable.any
    }

    /// What identifies the stream's type, where that has been declared.
    pub fn as_any_mut(&mut self) -> (id: Option<TypeId>)
        ensures
            id == old(self).table().any,
            *final(self) == *old(self),
    {
        self.vtable.any
    }
}

impl<'lt> ReaderBox<'lt> {
    /// The reader behind this handle.
    pub closed spec fn erased(&self) -> &Box<dyn Erased + 'lt> {
        &self.inner
    }

    /// What this handle offers: its copy of what had been declared.
    pub closed spec fn table(&self) -> Declared {
        self.vtable
    }

    /// Whether the handle is well formed: it offers what the reader behind it
    /// has declared.
    pub open spec fn wf(&self) -> bool {
        self.table() == declared_by(&**self.erased())
    }

    /// What the stream has yet to deliver.
    pub open spec fn content(&self) -> Content {
        self.erased().content()
    }

    /// Lends out the reader for reading.
    pub fn as_read_mut(&mut self) -> (acc: ErasedReadMut<'_, 'lt>)
        ensures
            *acc.target == *old(self).erased(),
            *final(self).erased() == *final(acc.target),
            final(self).table() == old(self).table(),
            acc.content() == (*old(self)).content(),
            acc.read_reliable() == old(self).erased().read_reliable(),
            forall|want: nat| #[trigger] acc.delivers(want) == old(self).erased().delivers(want),
    {
        let acc = ErasedReadMut { target: &mut self.inner };
        assert(acc.content() == acc.target.content());
        assert(acc.read_reliable() == acc.target.read_reliable());
        assert forall|want: nat| #[trigger]
            acc.delivers(want) == old(self).erased().delivers(want) by {
            assert(acc.delivers(want) == acc.target.delivers(want));
        }
        acc
    }

    /// Lends out the reader for buffered reading, where that has been declared.
    pub fn as_buf_mut(&mut self) -> (acc: Option<ErasedBufMut<'_, 'lt>>)
        ensures
            acc is Some <==> old(self).table().buf,
            final(self).table() == old(self).table(),
            match acc {
                Some(acc) => {
                    &&& *acc.target == *old(self).erased()
                    &&& *final(self).erased() == *final(acc.target)
                    &&& old(self).wf() ==> acc.content() == (*old(self)).content()
                },
                None => *final(self) == *old(self),
            },
    {
        if self.vtable.buf {
            let acc = ErasedBufMut { target: &mut self.inner };
            assert(acc.content() == ThroughBuffer::buffered(acc.target));
            Some(acc)
        } else {
            None
        }
    }

    /// Lends out the reader for seeking, where that has been declared.
    pub fn as_seek_mut(&mut self) -> (acc: Option<ErasedSeekMut<'_, 'lt>>)
        ensures
            acc is Some <==> old(self).table().seek,
            final(self).table() == old(self).table(),
            match acc {
                Some(acc) => {
                    &&& *acc.target == *old(self).erased()
                    &&& *final(self).erased() == *final(acc.target)
                    &&& forall|pos: SeekFrom| #[trigger]
                        acc.landing(pos) == old(self).erased().landing(pos)
                },
                None => *final(self) == *old(self),
            },
    {
        if self.vtable.seek {
            let acc = ErasedSeekMut { target: &mut self.inner };
            assert forall|pos: SeekFrom| #[trigger]
                acc.landing(pos) == old(self).erased().landing(pos) by {
                assert(acc.landing(pos) == acc.target.landing(pos));
            }
            Some(acc)
        } else {
            None
        }
    }

    /// What identifies the stream's type, where that has been declared.
    ///
    /// The type is told by its `TypeId`; the stream itself is not handed out as
    /// a `dyn Any`. A caller that knows the type compares the identifier with
    /// `TypeId::of`. Where the reader names the stream's type, `get_ref` and
    /// `into_inner` reach the stream; a reader that does not name it has no way to
    /// give the stream back, whatever has been declared.
    pub fn as_any(&self) -> (id: Option<TypeId>)
        ensures
            id == self.table().any,
    {
        self.vtable.any
    }

    /// What identifies the stream's type, where that has been declared.
    pub fn as_any_mut(&mut self) -> (id: Option<TypeId>)
        ensures
            id == old(self).table().any,
            *final(self) == *old(self),
    {
        self.vtable.any
    }
}

impl<'lt> ReaderBox<'lt> {
    /// Lends out the reader as a [`ReaderMut`], which offers what the box offers.
    ///
    /// The contract says what the loan shows when it is made. It does not say
    /// what the box shows once the loan has ended: the borrow of the box lies
    /// behind a `dyn`. Where that is needed, use the accessors of the box
    /// itself, whose contracts say it.
    pub fn as_mut(&mut self) -> (view: ReaderMut<'_>)
        ensures
            same_reader(&**view.erased(), &**old(self).erased()),
            stands(&**old(self).erased()) ==> stands(&**view.erased()),
            view.table() == old(self).table(),
            final(self).table() == old(self).table(),
    {
        let vtable = self.vtable;
        ReaderMut { inner: Box::new(Relay { target: &mut self.inner }), vtable }
    }
}

impl<R> Reader<R> {
    /// What the reader has declared.
    pub open spec fn declared(&self) -> Declared {
        Declared {
            seek: self.table().seek() is Some,
            buf: self.table().buf() is Some,
            any: self.table().any(),
        }
    }

    /// Lends out the reader as one that does not name the stream's type. The
    /// loan reads the stream as it is now and offers what has been declared so
    /// far.
    ///
    /// The contract says what the loan shows when it is made and that the
    /// reader keeps its descriptors and its table. It does not say what the
    /// reader's stream is once the loan has ended: the borrow of the stream
    /// lies behind a `dyn`, and no spec function of a trait may speak of the
    /// value that a borrow will have in the end. Where that is needed, use the
    /// accessors of the reader itself, whose contracts say it.
    pub fn as_mut(&mut self) -> (view: ReaderMut<'_>)
        ensures
            old(self).kept_in(&*final(self)),
            same_reader(&**view.erased(), old(self)),
            stands(&**view.erased()),
            view.table() == old(self).declared(),
            view.wf(),
            final(self).read_via() == old(self).read_via(),
            final(self).table() == old(self).table(),
    {
        let vtable = Declared {
            seek: self.vtable.seek.is_some(),
            buf: self.vtable.buf.is_some(),
            any: self.vtable.any,
        };
        let lease = Lease { target: &mut self.inner, read: &self.read, vtable: &self.vtable };
        proof {
            lemma_stands_where_it_is(old(self).read_via(), old(self).table());
            assert forall|pos: SeekFrom, at: u64, then: Sight| #[trigger]
                lease.seeks_to(pos, at, then) == Reader::seeks_to(old(self), pos, at, then) by {
                if lease.seeks_to(pos, at, then) {
                    let after = choose|after: R| #[trigger] lease.lands_on(pos, at, then, after);
                    assert(Reader::lands_on(old(self), pos, at, then, after));
                }
                if Reader::seeks_to(old(self), pos, at, then) {
                    let after = choose|after: R| #[trigger]
                        Reader::lands_on(old(self), pos, at, then, after);
                    assert(lease.lands_on(pos, at, then, after));
                }
            }
        }
        ReaderMut { inner: Box::new(lease), vtable }
    }

    /// Moves the reader to the heap and forgets the type of its stream. The
    /// box reads the stream as it is now and offers what has been declared so
    /// far.
    pub fn into_boxed<'lt>(self) -> (boxed: ReaderBox<'lt>) where R: 'lt
        ensures
            same_reader(&**boxed.erased(), &self),
            stands(&**boxed.erased()),
            boxed.table() == self.declared(),
            boxed.wf(),
    {
        proof {
            lemma_stands_where_it_is(self.read_via(), self.table());
        }
        let vtable = Declared {
            seek: self.vtable.seek.is_some(),
            buf: self.vtable.buf.is_some(),
            any: self.vtable.any,
        };
        ReaderBox { inner: Box::new(self), vtable }
    }
}

/// A reader is lent out as a [`ReaderMut`] by [`Reader::as_mut`].
impl<'lt, R> From<&'lt mut Reader<R>> for ReaderMut<'lt> {
    fn from(value: &'lt mut Reader<R>) -> (view: Self)
        ensures
            same_reader(&**view.erased(), old(value)),
            stands(&**view.erased()),
            view.table() == old(value).declared(),
            view.wf(),
            final(value).read_via() == old(value).read_via(),
            final(value).table() == old(value).table(),
    {
        value.as_mut()
    }
}

/// What the conversion gives is said by `from` itself: no value of the
/// result can be named ahead of the conversion.
impl<'lt, R> vstd::std_specs::convert::FromSpecImpl<&'lt mut Reader<R>> for ReaderMut<'lt> {
    open spec fn obeys_from_spec() -> bool {
        false
    }

    open spec fn from_spec(value: &'lt mut Reader<R>) -> Self {
        arbitrary()
    }
}

/// A reader is boxed by [`Reader::into_boxed`].
impl<'lt, R: 'lt> From<Reader<R>> for ReaderBox<'lt> {
    fn from(value: Reader<R>) -> (boxed: Self)
        ensures
            same_reader(&**boxed.erased(), &value),
            stands(&**boxed.erased()),
            boxed.table() == value.declared(),
            boxed.wf(),
    {
        value.into_boxed()
    }
}

/// What the conversion gives is said by `from` itself: no value of the
/// result can be named ahead of the conversion.
impl<'lt, R: 'lt> vstd::std_specs::convert::FromSpecImpl<Reader<R>> for ReaderBox<'lt> {
    open spec fn obeys_from_spec() -> bool {
        false
    }

    open spec fn from_spec(value: Reader<R>) -> Self {
        arbitrary()
    }
}

/// A boxed reader is lent out as a [`ReaderMut`] by [`ReaderBox::as_mut`].
impl<'lt, 'b> From<&'lt mut ReaderBox<'b>> for ReaderMut<'lt> {
    fn from(value: &'lt mut ReaderBox<'b>) -> (view: Self)
        ensures
            same_reader(&**view.erased(), &**old(value).erased()),
            view.table() == old(value).table(),
            final(value).table() == old(value).table(),
    {
        value.as_mut()
    }
}

/// What the conversion gives is said by `from` itself: no value of the
/// result can be named ahead of the conversion.
impl<'lt, 'b> vstd::std_specs::convert::FromSpecImpl<&'lt mut ReaderBox<'b>> for ReaderMut<'lt> {
    open spec fn obeys_from_spec() -> bool {
        false
    }

    open spec fn from_spec(value: &'lt mut ReaderBox<'b>) -> Self {
        arbitrary()
    }
}

impl<R> Reader<R> {
    /// A well-formed reader that reads with the stream's own descriptor holds
    /// what the stream holds.
    pub proof fn lemma_reads_stream(&self) where R: Read
        requires
            self.reads_own(),
            self.wf(),
        ensures
            (*self).content() == self.inner().content(),
            (*self).read_reliable() == self.inner().read_reliable(),
            (*self).read_stalls() == self.inner().read_stalls(),
            forall|want: nat| #[trigger] (*self).delivers(want) == self.inner().delivers(want),
            forall|target: R| #[trigger] self.holds_in(&target) == target.content(),
    {
        let target = self.inner();
        assert(self.read_via().content_of(&target) == target.content());
        if let Some(via) = self.table().buf() {
            assert(via.content_of(&target) == self.read_via().content_of(&target));
        }
        assert forall|want: nat| #[trigger] (*self).delivers(want) == self.inner().delivers(want) by {
            assert(self.read_via().content_of(&target) == target.content());
            assert(self.read_via().delivers_of(&target, want) == target.delivers(want));
            if let Some(via) = self.table().buf() {
                assert(via.content_of(&target) == self.read_via().content_of(&target));
                assert(via.delivers_of(&target, want) == self.read_via().delivers_of(&target, want));
            }
        }
        assert forall|other: R| #[trigger] self.holds_in(&other) == other.content() by {
            assert(self.read_via().content_of(&other) == other.content());
            if let Some(via) = self.table().buf() {
                assert(via.content_of(&other) == self.read_via().content_of(&other));
            }
        }
    }

    /// What a well-formed reader with the stream's own descriptors may hold
    /// after a seek is what the stream holds in a state that the seek leads to.
    pub proof fn lemma_seek_reads(&self, pos: SeekFrom, at: u64, then: Sight) where R: Read + Seek
        requires
            self.reads_own(),
            self.seeks_own(),
            self.wf(),
            self.seeks_to(pos, at, then),
        ensures
            exists|after: R|
                {
                    &&& #[trigger] self.inner().lands(pos, at, &after)
                    &&& after.content() == then.content
                    &&& after.read_reliable() == then.reliable
                    &&& after.read_stalls() == then.stalls
                },
    {
        self.lemma_reads_stream();
        let after = choose|after: R| #[trigger] self.lands_on(pos, at, then, after);
        let via = self.table().seek()->Some_0;
        assert(via.lands_of(&self.inner(), pos, at, &after) == self.inner().lands(pos, at, &after));
        assert(self.holds_in(&after) == after.content());
        assert(self.read_via().reliable_of(&after) == after.read_reliable());
        if let Some(buffered) = self.table().buf() {
            assert(buffered.content_of(&after) == self.read_via().content_of(&after));
        }
        assert(self.steady_in(&after) == after.read_reliable());
        assert(self.read_via().stalls_of(&after) == after.read_stalls());
        assert(self.stalls_in(&after) == after.read_stalls());
        assert(self.inner().lands(pos, at, &after) && after.content() == then.content
            && after.read_reliable() == then.reliable && after.read_stalls() == then.stalls);
    }

    /// What a well-formed reader with the stream's own descriptor says of the
    /// count of a read at a place is the count that the stream fixes in a
    /// state in which it is put there.
    pub proof fn lemma_place_serves(&self, at: nat, want: nat, count: Option<nat>) where R: Read
        requires
            self.reads_own(),
            self.wf(),
            self.stood_at(at, Query::Serves(want, count)),
        ensures
            self.place() == place_of(self.inner().origin()),
            exists|mid: R|
                {
                    &&& #[trigger] mid.origin() == put_at(self.inner().origin(), at)
                    &&& mid.delivers(want) == count
                },
    {
        let read = self.read_via();
        let table = self.table();
        let start = start_of(origin_via(read, table, &self.inner()));
        let what = Query::Serves(want, count);
        let (mid, after) = choose|mid: R, after: R| #[trigger]
            stands_via(read, table, start, at, what, mid, after);
        assert(read.content_of(&mid) == mid.content());
        assert(read.content_of(&self.inner()) == self.inner().content());
        assert(read.delivers_of(&mid, want) == mid.delivers(want));
        if let Some(buffered) = table.buf() {
            assert(buffered.content_of(&mid) == read.content_of(&mid));
            assert(buffered.content_of(&self.inner()) == read.content_of(&self.inner()));
            assert(buffered.delivers_of(&mid, want) == read.delivers_of(&mid, want));
        }
        assert(origin_via(read, table, &mid) == mid.origin());
        assert(origin_via(read, table, &self.inner()) == self.inner().origin());
        assert(delivers_via(read, table, &mid, want) == mid.delivers(want));
        assert(mid.origin() == put_at(self.inner().origin(), at) && mid.delivers(want) == count);
    }

    /// What a well-formed reader with the stream's own descriptors says of a
    /// place is what holds of the stream in a state in which it is put there.
    pub proof fn lemma_place_seeks(&self, at: nat, what: Query) where R: Read + Seek
        requires
            self.reads_own(),
            self.seeks_own(),
            self.wf(),
            self.stood_at(at, what),
        ensures
            self.place() == place_of(self.inner().origin()),
            exists|mid: R, after: R|
                {
                    &&& mid.origin() == put_at(self.inner().origin(), at)
                    &&& #[trigger] asked(what, start_of(self.inner().origin()), &mid, &after)
                },
    {
        let read = self.read_via();
        let table = self.table();
        let start = start_of(origin_via(read, table, &self.inner()));
        let (mid, after) = choose|mid: R, after: R| #[trigger]
            stands_via(read, table, start, at, what, mid, after);
        let via = table.seek()->Some_0;
        assert(read.content_of(&mid) == mid.content());
        assert(read.content_of(&after) == after.content());
        assert(read.content_of(&self.inner()) == self.inner().content());
        if let Some(buffered) = table.buf() {
            assert(buffered.content_of(&mid) == read.content_of(&mid));
            assert(buffered.content_of(&after) == read.content_of(&after));
            assert(buffered.content_of(&self.inner()) == read.content_of(&self.inner()));
        }
        assert(origin_via(read, table, &mid) == mid.origin());
        assert(origin_via(read, table, &after) == after.origin());
        assert(origin_via(read, table, &self.inner()) == self.inner().origin());
        assert(sight_via(read, table, &after) == Sight {
            content: after.content(),
            reliable: after.read_reliable(),
            stalls: after.read_stalls(),
        });
        match what {
            Query::Lands(pos, to, firm) => {
                assert(via.landing_of(&mid, pos) == mid.landing(pos));
            },
            Query::Serves(want, count) => {
                assert(read.delivers_of(&mid, want) == mid.delivers(want));
                if let Some(buffered) = table.buf() {
                    assert(buffered.delivers_of(&mid, want) == read.delivers_of(&mid, want));
                }
                assert(delivers_via(read, table, &mid, want) == mid.delivers(want));
            },
            Query::Moves(pos, arrived, then, place, kept) => {
                assert(via.landing_of(&mid, pos) == mid.landing(pos));
                assert(via.lands_of(&mid, pos, arrived, &after) == mid.lands(pos, arrived, &after));
            },
        }
        assert(mid.origin() == put_at(self.inner().origin(), at));
        assert(asked(what, start_of(self.inner().origin()), &mid, &after));
    }

    /// A reader that seeks with the stream's own descriptor arrives where the
    /// stream arrives.
    pub proof fn lemma_seeks_stream(&self, pos: SeekFrom) where R: Seek
        requires
            self.seeks_own(),
        ensures
            self.declared().seek,
            self.landing(pos) == self.inner().landing(pos),
            self.seek_reliable() == self.inner().seek_reliable(),
            forall|at: u64, after: R| #[trigger]
                self.table().seek()->Some_0.lands_of(&self.inner(), pos, at, &after)
                    == self.inner().lands(pos, at, &after),
    {
        let target = self.inner();
        let via = self.table().seek()->Some_0;
        assert(via.landing_of(&target, pos) == target.landing(pos));
    }
}

/// A reader that has been moved into a box still holds what its stream held
/// when it was moved, and offers what had been declared.
pub proof fn lemma_boxed_reads_stream<R: Read>(handle: Reader<R>, boxed: ReaderBox)
    requires
        handle.reads_own(),
        handle.wf(),
        same_reader(&**boxed.erased(), &handle),
        boxed.table() == handle.declared(),
    ensures
        boxed.content() == handle.inner().content(),
        boxed.erased().read_reliable() == handle.inner().read_reliable(),
        forall|want: nat| #[trigger] boxed.erased().delivers(want) == handle.inner().delivers(want),
        boxed.table().seek == (handle.table().seek() is Some),
        boxed.table().buf == (handle.table().buf() is Some),
        boxed.table().any == handle.table().any(),
{
    handle.lemma_reads_stream();
    assert(Erased::content(&handle) == Reader::content(&handle));
    assert(Erased::read_reliable(&handle) == Reader::read_reliable(&handle));
    assert forall|want: nat| #[trigger]
        boxed.erased().delivers(want) == handle.inner().delivers(want) by {
        assert(Erased::delivers(&handle, want) == Reader::delivers(&handle, want));
    }
}

/// What a boxed reader may hold after a seek is what the stream it was made
/// from holds in a state that the seek leads to from the state it was boxed in.
pub proof fn lemma_boxed_seek_reads<R: Read + Seek>(
    handle: Reader<R>,
    boxed: ReaderBox,
    pos: SeekFrom,
    at: u64,
    then: Sight,
)
    requires
        handle.reads_own(),
        handle.seeks_own(),
        handle.wf(),
        same_reader(&**boxed.erased(), &handle),
        boxed.erased().seeks_to(pos, at, then),
    ensures
        exists|after: R|
            {
                &&& #[trigger] handle.inner().lands(pos, at, &after)
                &&& after.content() == then.content
                &&& after.read_reliable() == then.reliable
                &&& after.read_stalls() == then.stalls
            },
{
    assert(Erased::seeks_to(&handle, pos, at, then) == Reader::seeks_to(&handle, pos, at, then));
    handle.lemma_seek_reads(pos, at, then);
}

/// A reader on which seeking was declared and which has then been moved into
/// a box seeks as its stream did where it was moved: to the same places, from
/// the position the stream had.
pub proof fn lemma_boxed_seeks_stream<R: Seek>(handle: Reader<R>, boxed: ReaderBox, pos: SeekFrom)
    requires
        handle.seeks_own(),
        same_reader(&**boxed.erased(), &handle),
        boxed.table() == handle.declared(),
    ensures
        boxed.table().seek,
        boxed.erased().has_seek(),
        boxed.erased().landing(pos) == handle.inner().landing(pos),
        boxed.erased().seek_reliable() == handle.inner().seek_reliable(),
{
    handle.lemma_seeks_stream(pos);
    assert(Erased::landing(&handle, pos) == Reader::landing(&handle, pos));
    assert(Erased::seek_reliable(&handle) == Reader::seek_reliable(&handle));
    assert(Erased::has_seek(&handle) == (handle.table().seek() is Some));
}

/// What a boxed reader says of the count of a read at a place is the count
/// that the stream it was made from fixes in a state in which it is put
/// there.
pub proof fn lemma_boxed_place_serves<R: Read>(
    handle: Reader<R>,
    boxed: ReaderBox,
    at: nat,
    want: nat,
    count: Option<nat>,
)
    requires
        handle.reads_own(),
        handle.wf(),
        forall|at: nat, what: Query| #[trigger]
            boxed.erased().stood_at(at, what) == Erased::stood_at(&handle, at, what),
        boxed.erased().stood_at(at, Query::Serves(want, count)),
    ensures
        exists|mid: R|
            {
                &&& #[trigger] mid.origin() == put_at(handle.inner().origin(), at)
                &&& mid.delivers(want) == count
            },
{
    let what = Query::Serves(want, count);
    assert(Erased::stood_at(&handle, at, what) == Reader::stood_at(&handle, at, what));
    handle.lemma_place_serves(at, want, count);
}

/// What a boxed reader says of a place is what holds of the stream it was
/// made from in a state in which it is put there. With [`stands`], this tells
/// where a seek through the box arrives, and what the box then shows, after
/// any reads and seeks through the box that keep the start of the stream.
pub proof fn lemma_boxed_place_seeks<R: Read + Seek>(
    handle: Reader<R>,
    boxed: ReaderBox,
    at: nat,
    what: Query,
)
    requires
        handle.reads_own(),
        handle.seeks_own(),
        handle.wf(),
        forall|at: nat, what: Query| #[trigger]
            boxed.erased().stood_at(at, what) == Erased::stood_at(&handle, at, what),
        boxed.erased().stood_at(at, what),
    ensures
        exists|mid: R, after: R|
            {
                &&& mid.origin() == put_at(handle.inner().origin(), at)
                &&& #[trigger] asked(what, start_of(handle.inner().origin()), &mid, &after)
            },
{
    assert(Erased::stood_at(&handle, at, what) == Reader::stood_at(&handle, at, what));
    handle.lemma_place_seeks(at, what);
}

/// No sequence of steps each of which keeps what the reader offers takes a
/// capability away: what is offered at one time is offered at every later
/// time. Every operation on a reader is such a step.
pub proof fn lemma_reader_never_retracts<T>(states: Seq<Reader<T>>, i: int, j: int)
    requires
        0 <= i <= j < states.len(),
        forall|k: int| 0 <= k < states.len() - 1 ==> #[trigger] states[k].kept_in(&states[k + 1]),
    ensures
        states[i].kept_in(&states[j]),
    decreases j - i,
{
    if i < j {
        lemma_reader_never_retracts(states, i, j - 1);
        let k = j - 1;
        assert(states[k].kept_in(&states[k + 1]));
    }
}

/// Declarations leave the stream alone: after any sequence of them the
/// reader holds the stream that it held at first, and offers what it
/// offered at first.
pub proof fn lemma_reader_declared_holds_stream<T>(states: Seq<Reader<T>>, i: int, j: int)
    requires
        0 <= i <= j < states.len(),
        forall|k: int| 0 <= k < states.len() - 1 ==> #[trigger] states[k].declares(&states[k + 1]),
    ensures
        states[i].declares(&states[j]),
    decreases j - i,
{
    if i < j {
        lemma_reader_declared_holds_stream(states, i, j - 1);
        let k = j - 1;
        assert(states[k].declares(&states[k + 1]));
    }
}

} // verus!
