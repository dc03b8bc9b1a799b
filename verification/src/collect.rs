//! Reading a source to its end, or up to a byte, into a growing buffer: the
//! steps that the traits' own operations are made of, and those operations as
//! functions.
use vstd::prelude::*;
use vstd::string::StringExecFns;
use vstd::string::StringSliceAdditionalSpecFns;
use vstd::utf8::{decode_utf8, encode_utf8_decode_utf8, valid_utf8};
use crate::error::{Error, ErrorKind};
use crate::stream::{moved_on, BufRead, Read};

verus! {

/// How many bytes are added to a full buffer before the next read.
pub const GROWTH: usize = 32;

/// `Vec::capacity`: the number of elements that `buf` has room for without
/// allocating again, which is never less than its length.
#[verifier::external_body]
pub(crate) fn capacity(buf: &Vec<u8>) -> (cap: usize)
    ensures
        cap >= buf@.len(),
{
    buf.capacity()
}

/// [`Read::read_to_end`] as a function: reads `r` to its end and appends every
/// byte to `buf`.
pub fn read_to_end<R: Read + ?Sized>(r: &mut R, buf: &mut Vec<u8>) -> (ret: Result<usize, Error>)
    requires
        (*old(r)).content() is Finite,
        old(buf)@.len() + (*old(r)).content()->Finite_0.len() + GROWTH <= usize::MAX,
    ensures
        ret matches Err(e) ==> !e.interrupted(),
        (*final(r)).read_reliable() == (*old(r)).read_reliable(),
        (*final(r)).read_stalls() <= (*old(r)).read_stalls(),
        (*old(r)).read_reliable() ==> ret is Ok,
        match ret {
            Ok(n) => {
                &&& n == (*old(r)).content()->Finite_0.len()
                &&& final(buf)@ == old(buf)@ + (*old(r)).content()->Finite_0
                &&& (*final(r)).content() == (*old(r)).content().skip(n as nat)
                &&& (*final(r)).origin() == moved_on((*old(r)).origin(), n as nat)
            },
            Err(e) => exists|k: nat|
                {
                    &&& k <= (*old(r)).content()->Finite_0.len()
                    &&& final(buf)@ == old(buf)@ + #[trigger] (*old(r)).content().first(k)
                    &&& (*final(r)).content() == (*old(r)).content().skip(k)
                    &&& (*final(r)).origin() == moved_on((*old(r)).origin(), k)
                },
        },
{
    r.read_to_end(buf)
}

/// Appends `bytes` to `buf`.
pub fn append_bytes(buf: &mut Vec<u8>, bytes: &[u8])
    ensures
        final(buf)@ == old(buf)@ + bytes@,
{
    buf.extend_from_slice(bytes);
    assert(buf@ =~= old(buf)@ + bytes@);
}

/// The index of the first `byte` in `bytes`, if there is one.
pub fn position(bytes: &[u8], byte: u8) -> (at: Option<usize>)
    ensures
        match at {
            Some(i) => i < bytes@.len() && bytes@[i as int] == byte && !bytes@.take(i as int).contains(byte),
            None => !bytes@.contains(byte),
        },
{
    let mut i: usize = 0;
    while i < bytes.len()
        invariant
            i <= bytes@.len(),
            !bytes@.take(i as int).contains(byte),
        decreases bytes@.len() - i,
    {
        if bytes[i] == byte {
            return Some(i);
        }
        i = i + 1;
        assert forall|j: int| 0 <= j < i implies bytes@.take(i as int)[j] != byte by {
            if j < i - 1 {
                assert(bytes@.take(i - 1)[j] == bytes@[j]);
                assert(bytes@.take(i - 1).contains(bytes@[j]));
            }
        }
    }
    assert(bytes@.take(i as int) =~= bytes@);
    None
}

/// Whether the first `n` bytes of `bytes` are what is read up to `byte`: they
/// end with the first `byte` in `bytes`, or are all of `bytes` where it holds
/// none.
pub open spec fn runs_to(bytes: Seq<u8>, byte: u8, n: nat) -> bool {
    &&& n <= bytes.len()
    &&& forall|i: int| 0 <= i < n - 1 ==> bytes[i] != byte
    &&& n < bytes.len() ==> n > 0 && bytes[n - 1] == byte
}

/// [`BufRead::read_until`] as a function: reads `r` up to and with the first
/// `byte`, or to its end where there is none, and appends what was read to
/// `buf`.
pub fn read_until<R: BufRead + ?Sized>(r: &mut R, byte: u8, buf: &mut Vec<u8>) -> (ret: Result<
    usize,
    Error,
>)
    requires
        (*old(r)).content() is Finite,
        (*old(r)).content()->Finite_0.len() <= usize::MAX,
    ensures
        ret matches Err(e) ==> !e.interrupted(),
        (*final(r)).read_reliable() == (*old(r)).read_reliable(),
        (*final(r)).read_stalls() <= (*old(r)).read_stalls(),
        (*old(r)).read_reliable() ==> ret is Ok,
        match ret {
            Ok(n) => {
                &&& runs_to((*old(r)).content()->Finite_0, byte, n as nat)
                &&& final(buf)@ == old(buf)@ + (*old(r)).content()->Finite_0.take(n as int)
                &&& (*final(r)).content() == (*old(r)).content().skip(n as nat)
                &&& (*final(r)).origin() == moved_on((*old(r)).origin(), n as nat)
            },
            Err(e) => exists|k: nat|
                {
                    &&& k <= (*old(r)).content()->Finite_0.len()
                    &&& forall|i: int| 0 <= i < k ==> (*old(r)).content()->Finite_0[i] != byte
                    &&& final(buf)@ == old(buf)@ + #[trigger] (*old(r)).content().first(k)
                    &&& (*final(r)).content() == (*old(r)).content().skip(k)
                    &&& (*final(r)).origin() == moved_on((*old(r)).origin(), k)
                },
        },
{
    r.read_until(byte, buf)
}

/// `core::str::from_utf8`: the text that `bytes` spell, where they are valid
/// UTF-8, and nothing where they are not.
#[verifier::external_body]
pub(crate) fn from_utf8(bytes: &[u8]) -> (text: Option<&str>)
    ensures
        text is Some <==> valid_utf8(bytes@),
        text matches Some(s) ==> s.spec_bytes() == bytes@,
{
    core::str::from_utf8(bytes).ok()
}

/// Appends to `buf` the text that `bytes` spell and passes on `ret`, the
/// outcome of the read that brought them.
///
/// Where `bytes` are not valid UTF-8, `buf` stays as it was, and an outcome
/// that was a success becomes [`ErrorKind::InvalidData`].
pub fn append_to_string(buf: &mut String, bytes: &[u8], ret: Result<usize, Error>) -> (out: Result<
    usize,
    Error,
>)
    ensures
        valid_utf8(bytes@) ==> final(buf)@ == old(buf)@ + decode_utf8(bytes@) && out == ret,
        !valid_utf8(bytes@) ==> final(buf)@ == old(buf)@ && match ret {
            Ok(_) => out is Err && out->Err_0@ == ErrorKind::InvalidData,
            Err(e) => out == ret,
        },
{
    match from_utf8(bytes) {
        Some(text) => {
            proof {
                encode_utf8_decode_utf8(text@);
            }
            buf.append(text);
            ret
        },
        None => match ret {
            Ok(_) => Err(Error::from_kind(ErrorKind::InvalidData)),
            Err(e) => Err(e),
        },
    }
}

/// [`Read::read_to_string`] as a function: reads `r` to its end and appends
/// the text that it holds to `buf`.
pub fn read_to_string<R: Read + ?Sized>(r: &mut R, buf: &mut String) -> (ret: Result<usize, Error>)
    requires
        (*old(r)).content() is Finite,
        (*old(r)).content()->Finite_0.len() + GROWTH <= usize::MAX,
    ensures
        ret matches Err(e) ==> !e.interrupted(),
        (*final(r)).read_reliable() == (*old(r)).read_reliable(),
        (*final(r)).read_stalls() <= (*old(r)).read_stalls(),
        (*old(r)).read_reliable() ==> (*final(r)).content() == (*old(r)).content().skip(
            (*old(r)).content()->Finite_0.len(),
        ),
        (*old(r)).read_reliable() ==> (ret is Ok <==> valid_utf8((*old(r)).content()->Finite_0)),
        match ret {
            Ok(n) => {
                &&& n == (*old(r)).content()->Finite_0.len()
                &&& valid_utf8((*old(r)).content()->Finite_0)
                &&& final(buf)@ == old(buf)@ + decode_utf8((*old(r)).content()->Finite_0)
                &&& (*final(r)).content() == (*old(r)).content().skip(n as nat)
                &&& (*final(r)).origin() == moved_on((*old(r)).origin(), n as nat)
            },
            Err(e) => (*old(r)).read_reliable() ==> e@ == ErrorKind::InvalidData && final(buf)@ == old(buf)@,
        },
{
    r.read_to_string(buf)
}

/// [`BufRead::read_line`] as a function: reads `r` up to and with the next
/// line feed, or to its end where there is none, and appends the text read to
/// `buf`.
pub fn read_line<R: BufRead + ?Sized>(r: &mut R, buf: &mut String) -> (ret: Result<usize, Error>)
    requires
        (*old(r)).content() is Finite,
        (*old(r)).content()->Finite_0.len() <= usize::MAX,
    ensures
        ret matches Err(e) ==> !e.interrupted(),
        (*final(r)).read_reliable() == (*old(r)).read_reliable(),
        (*final(r)).read_stalls() <= (*old(r)).read_stalls(),
        (*old(r)).read_reliable() ==> exists|n: nat|
            {
                &&& #[trigger] runs_to((*old(r)).content()->Finite_0, 0x0a, n)
                &&& (*final(r)).content() == (*old(r)).content().skip(n)
                &&& ret is Ok <==> valid_utf8((*old(r)).content()->Finite_0.take(n as int))
            },
        match ret {
            Ok(n) => {
                &&& runs_to((*old(r)).content()->Finite_0, 0x0a, n as nat)
                &&& valid_utf8((*old(r)).content()->Finite_0.take(n as int))
                &&& final(buf)@ == old(buf)@ + decode_utf8((*old(r)).content()->Finite_0.take(n as int))
                &&& (*final(r)).content() == (*old(r)).content().skip(n as nat)
                &&& (*final(r)).origin() == moved_on((*old(r)).origin(), n as nat)
            },
            Err(e) => (*old(r)).read_reliable() ==> e@ == ErrorKind::InvalidData && final(buf)@ == old(buf)@,
        },
{
    r.read_line(buf)
}

} // verus!
