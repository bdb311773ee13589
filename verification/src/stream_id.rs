//! Stream identifiers: a 62-bit number made of an index, a directionality bit
//! and an initiator bit.
use vstd::prelude::*;

verus! {

/// Largest number of streams of one kind: 2^60.
pub const MAX_STREAM_COUNT: u64 = 0x1000_0000_0000_0000;

/// Which end of the connection.
#[derive(Clone, Copy, Debug, PartialEq, Eq, Structural)]
pub enum Side {
    Client,
    Server,
}

impl Side {
    /// The low bit of an identifier opened by this side.
    pub open spec fn bit(self) -> int {
        match self {
            Side::Client => 0,
            Side::Server => 1,
        }
    }

    pub open spec fn spec_opposite(self) -> Side {
        match self {
            Side::Client => Side::Server,
            Side::Server => Side::Client,
        }
    }

    pub fn is_client(self) -> (r: bool)
        ensures
            r == (self == Side::Client),
    {
        match self {
            Side::Client => true,
            Side::Server => false,
        }
    }

    pub fn is_server(self) -> (r: bool)
        ensures
            r == (self == Side::Server),
    {
        !self.is_client()
    }

    /// The other end.
    #[verifier::when_used_as_spec(spec_opposite)]
    pub fn opposite(self) -> (r: Side)
        ensures
            r == self.spec_opposite(),
    {
        match self {
            Side::Client => Side::Server,
            Side::Server => Side::Client,
        }
    }
}

/// Whether a stream carries data both ways or only from its initiator.
#[derive(Clone, Copy, Debug, PartialEq, Eq, Structural)]
pub enum Dir {
    Bi,
    Uni,
}

impl Dir {
    /// Position of this directionality in a per-directionality pair, also the
    /// second bit of an identifier: 0 for `Bi`, 1 for `Uni`.
    pub open spec fn slot(self) -> int {
        match self {
            Dir::Bi => 0,
            Dir::Uni => 1,
        }
    }

    pub fn as_usize(self) -> (r: usize)
        ensures
            r == self.slot(),
    {
        match self {
            Dir::Bi => 0,
            Dir::Uni => 1,
        }
    }
}

/// Identifier of a stream within a connection.
#[derive(Clone, Copy, Debug, PartialEq, Eq, Structural)]
pub struct StreamId(pub u64);

impl StreamId {
    /// The identifier made of the three parts, for an index below 2^62.
    pub open spec fn compose(initiator: Side, dir: Dir, index: u64) -> int {
        index * 4 + dir.slot() * 2 + initiator.bit()
    }

    pub open spec fn spec_initiator(self) -> Side {
        if self.0 % 2 == 0 {
            Side::Client
        } else {
            Side::Server
        }
    }

    pub open spec fn spec_dir(self) -> Dir {
        if (self.0 / 2) % 2 == 0 {
            Dir::Bi
        } else {
            Dir::Uni
        }
    }

    pub open spec fn spec_index(self) -> u64 {
        self.0 / 4
    }

    /// Builds `(index << 2) | (dir << 1) | initiator`. The initiator and the
    /// directionality are always kept; the index is kept when it is below 2^62.
    pub fn new(initiator: Side, dir: Dir, index: u64) -> (r: StreamId)
        ensures
            r.spec_initiator() == initiator,
            r.spec_dir() == dir,
            index < 0x4000_0000_0000_0000 ==> r.0 == Self::compose(initiator, dir, index),
            index < 0x4000_0000_0000_0000 ==> r.spec_index() == index,
            index < MAX_STREAM_COUNT ==> r.0 < 0x4000_0000_0000_0000,
    {
        let d: u64 = match dir {
            Dir::Bi => 0,
            Dir::Uni => 1,
        };
        let s: u64 = match initiator {
            Side::Client => 0,
            Side::Server => 1,
        };
        let v: u64 = (index << 2) | (d << 1) | s;
        assert(v % 2 == s && (v / 2) % 2 == d) by (bit_vector)
            requires
                v == (index << 2) | (d << 1) | s,
                d <= 1,
                s <= 1,
        ;
        assert(index < 0x4000_0000_0000_0000 ==> v == index * 4 + d * 2 + s && v / 4 == index)
            by (bit_vector)
            requires
                v == (index << 2) | (d << 1) | s,
                d <= 1,
                s <= 1,
        ;
        StreamId(v)
    }

    /// Which side opened the stream.
    #[verifier::when_used_as_spec(spec_initiator)]
    pub fn initiator(self) -> (r: Side)
        ensures
            r == self.spec_initiator(),
    {
        let v: u64 = self.0;
        assert((v & 1 == 0) == (v % 2 == 0)) by (bit_vector);
        if self.0 & 1 == 0 {
            Side::Client
        } else {
            Side::Server
        }
    }

    /// Which directions data flows in.
    #[verifier::when_used_as_spec(spec_dir)]
    pub fn dir(self) -> (r: Dir)
        ensures
            r == self.spec_dir(),
    {
        let v: u64 = self.0;
        assert((v & 2 == 0) == ((v / 2) % 2 == 0)) by (bit_vector);
        if self.0 & 2 == 0 {
            Dir::Bi
        } else {
            Dir::Uni
        }
    }

    /// Position of the stream among those with the same initiator and
    /// directionality.
    #[verifier::when_used_as_spec(spec_index)]
    pub fn index(self) -> (r: u64)
        ensures
            r == self.spec_index(),
    {
        let v: u64 = self.0;
        assert(v >> 2 == v / 4) by (bit_vector);
        self.0 >> 2
    }

    /// Every identifier is the composition of its three parts.
    pub proof fn lemma_decompose(self)
        ensures
            self.0 == Self::compose(self.spec_initiator(), self.spec_dir(), self.spec_index()),
    {
    }

    /// Distinct parts give distinct identifiers.
    pub proof fn lemma_compose_injective(s1: Side, d1: Dir, i1: u64, s2: Side, d2: Dir, i2: u64)
        requires
            Self::compose(s1, d1, i1) == Self::compose(s2, d2, i2),
        ensures
            s1 == s2,
            d1 == d2,
            i1 == i2,
    {
    }
}

} // verus!
