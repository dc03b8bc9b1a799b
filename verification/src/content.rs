//! What a source of bytes still holds.
use vstd::prelude::*;

verus! {

/// The bytes that a source has yet to deliver, in the order in which it will
/// deliver them: a finite run, or a run without end.
pub enum Content {
    /// Exactly these bytes, then the end.
    Finite(Seq<u8>),
    /// The byte at each offset, with no end.
    Endless(spec_fn(nat) -> u8),
}

impl Content {
    /// Whether at least `n` bytes are left.
    pub open spec fn holds(self, n: nat) -> bool {
        match self {
            Content::Finite(bytes) => n <= bytes.len(),
            Content::Endless(_) => true,
        }
    }

    /// Whether no byte is left.
    pub open spec fn exhausted(self) -> bool {
        !self.holds(1)
    }

    /// The first `n` bytes, or all of them where fewer are left.
    pub open spec fn first(self, n: nat) -> Seq<u8> {
        match self {
            Content::Finite(bytes) => if n <= bytes.len() {
                bytes.take(n as int)
            } else {
                bytes
            },
            Content::Endless(byte_at) => Seq::new(n, |i: int| byte_at(i as nat)),
        }
    }

    /// What is left once the first `n` bytes are gone.
    pub open spec fn skip(self, n: nat) -> Content {
        match self {
            Content::Finite(bytes) => if n <= bytes.len() {
                Content::Finite(bytes.skip(n as int))
            } else {
                Content::Finite(Seq::empty())
            },
            Content::Endless(byte_at) => Content::Endless(|i: nat| byte_at(i + n)),
        }
    }

    /// The content cut off after `n` bytes.
    pub open spec fn limit(self, n: nat) -> Content {
        Content::Finite(self.first(n))
    }

    /// Taking no byte changes nothing.
    pub proof fn lemma_skip_none(self)
        ensures
            self.skip(0) == self,
            self.first(0) == Seq::<u8>::empty(),
            self.holds(0),
    {
        match self {
            Content::Finite(bytes) => {
                assert(bytes.skip(0) =~= bytes);
                assert(bytes.take(0) =~= Seq::<u8>::empty());
            },
            Content::Endless(byte_at) => {
                assert((|i: nat| byte_at(i + 0)) =~= byte_at);
                assert(Seq::new(0, |i: int| byte_at(i as nat)) =~= Seq::<u8>::empty());
            },
        }
    }

    /// Taking `a` bytes and then `b` is taking `a + b` at once.
    pub proof fn lemma_skip_again(self, a: nat, b: nat)
        ensures
            self.skip(a).skip(b) == self.skip(a + b),
            self.holds(a + b) == (self.holds(a) && self.skip(a).holds(b)),
            self.holds(a) ==> self.first(a) + self.skip(a).first(b) == self.first(a + b),
            self.holds(a) ==> self.first(a).len() == a,
    {
        match self {
            Content::Finite(bytes) => {
                if a <= bytes.len() {
                    if b <= bytes.len() - a {
                        assert(bytes.skip(a as int).skip(b as int) =~= bytes.skip((a + b) as int));
                        assert(bytes.take(a as int) + bytes.skip(a as int).take(b as int)
                            =~= bytes.take((a + b) as int));
                    } else {
                        assert(bytes.take(a as int) + bytes.skip(a as int) =~= bytes);
                    }
                } else {
                    assert(Seq::<u8>::empty().skip(0) =~= Seq::<u8>::empty());
                }
            },
            Content::Endless(byte_at) => {
                let once = |i: nat| byte_at(i + a);
                assert((|i: nat| once(i + b)) =~= (|i: nat| byte_at(i + (a + b))));
                assert(Seq::new(a, |i: int| byte_at(i as nat)) + Seq::new(b, |i: int| once(i as nat))
                    =~= Seq::new(a + b, |i: int| byte_at(i as nat)));
            },
        }
    }
}

} // verus!
