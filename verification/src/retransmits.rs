//! Control frames waiting to be sent, and counts of the frames written.
use crate::frame::StopSending;
use crate::stream_id::StreamId;
use crate::varint::VarInt;
use std::collections::HashSet;
use vstd::prelude::*;
use vstd::std_specs::iter::IteratorSpec;

verus! {

/// Control frames that are due. What was written moves from the set of
/// pending frames to the set of sent ones, from where it comes back if the
/// packet is lost.
pub struct Retransmits {
    pub max_data: bool,
    pub max_uni_stream_id: bool,
    pub max_bi_stream_id: bool,
    pub reset_stream: Vec<(StreamId, VarInt)>,
    pub stop_sending: Vec<StopSending>,
    /// The identifiers of the streams whose receive window is to be
    /// announced.
    pub max_stream_data: HashSet<u64>,
}

/// The control frames that are due.
pub struct RetransmitsView {
    pub max_data: bool,
    pub max_uni_stream_id: bool,
    pub max_bi_stream_id: bool,
    pub reset_stream: Seq<(StreamId, VarInt)>,
    pub stop_sending: Seq<StopSending>,
    pub max_stream_data: Set<u64>,
}

impl View for Retransmits {
    type V = RetransmitsView;

    open spec fn view(&self) -> RetransmitsView {
        RetransmitsView {
            max_data: self.max_data,
            max_uni_stream_id: self.max_uni_stream_id,
            max_bi_stream_id: self.max_bi_stream_id,
            reset_stream: self.reset_stream@,
            stop_sending: self.stop_sending@,
            max_stream_data: self.max_stream_data@,
        }
    }
}

impl Retransmits {
    pub fn new() -> (r: Retransmits)
        ensures
            r@ == (RetransmitsView {
                max_data: false,
                max_uni_stream_id: false,
                max_bi_stream_id: false,
                reset_stream: Seq::empty(),
                stop_sending: Seq::empty(),
                max_stream_data: Set::empty(),
            }),
    {
        Retransmits {
            max_data: false,
            max_uni_stream_id: false,
            max_bi_stream_id: false,
            reset_stream: Vec::new(),
            stop_sending: Vec::new(),
            max_stream_data: HashSet::new(),
        }
    }

    /// Whether nothing is due.
    pub fn is_empty(&self) -> (r: bool)
        ensures
            r == (!self@.max_data && !self@.max_uni_stream_id && !self@.max_bi_stream_id
                && self@.reset_stream.len() == 0 && self@.stop_sending.len() == 0
                && self@.max_stream_data.len() == 0),
    {
        broadcast use vstd::std_specs::hash::group_hash_axioms;

        !self.max_data && !self.max_uni_stream_id && !self.max_bi_stream_id
            && self.reset_stream.len() == 0 && self.stop_sending.len() == 0
            && self.max_stream_data.len() == 0
    }

    /// The streams whose window is to be announced are finitely many: they
    /// are those that a walk through their set yields.
    pub proof fn lemma_finite(&self)
        ensures
            self@.max_stream_data.finite(),
    {
        vstd::std_specs::hash::axiom_spec_hash_keys_iter(&self.max_stream_data);
        vstd::seq_lib::seq_to_set_is_finite(
            vstd::std_specs::hash::spec_hash_keys_iter(&self.max_stream_data).remaining().unref(),
        );
    }

    /// Adds a stream to those whose window is to be announced.
    pub fn insert_max_stream_data(&mut self, id: StreamId)
        ensures
            final(self)@ == (RetransmitsView {
                max_stream_data: old(self)@.max_stream_data.insert(id.0),
                ..old(self)@
            }),
    {
        broadcast use vstd::std_specs::hash::group_hash_axioms;

        let _ = self.max_stream_data.insert(id.0);
    }

    /// One of the streams whose window is to be announced, if there is
    /// any. Which one, the set does not say.
    pub fn any_max_stream_data(&self) -> (r: Option<StreamId>)
        ensures
            match r {
                Some(id) => self@.max_stream_data.contains(id.0),
                None => self@.max_stream_data.len() == 0,
            },
    {
        broadcast use vstd::std_specs::hash::group_hash_axioms;

        for k in it: self.max_stream_data.iter()
            invariant
                it.index() == 0,
                it.seq().len() == self.max_stream_data@.len(),
        {
            return Some(StreamId(*k));
        }
        None
    }

    /// Takes a stream out of those whose window is to be announced.
    pub fn remove_max_stream_data(&mut self, id: StreamId)
        ensures
            final(self)@ == (RetransmitsView {
                max_stream_data: old(self)@.max_stream_data.remove(id.0),
                ..old(self)@
            }),
    {
        broadcast use vstd::std_specs::hash::group_hash_axioms;

        let _ = self.max_stream_data.remove(&id.0);
    }
}

/// How many frames of each kind were written.
#[derive(Clone, Copy, Debug, PartialEq, Eq)]
pub struct FrameStats {
    pub reset_stream: u64,
    pub stop_sending: u64,
    pub max_data: u64,
    pub max_stream_data: u64,
    pub max_streams_uni: u64,
    pub max_streams_bidi: u64,
}

impl FrameStats {
    pub fn new() -> (r: FrameStats)
        ensures
            r == (FrameStats {
                reset_stream: 0,
                stop_sending: 0,
                max_data: 0,
                max_stream_data: 0,
                max_streams_uni: 0,
                max_streams_bidi: 0,
            }),
    {
        FrameStats {
            reset_stream: 0,
            stop_sending: 0,
            max_data: 0,
            max_stream_data: 0,
            max_streams_uni: 0,
            max_streams_bidi: 0,
        }
    }
}

} // verus!
