//! The sending half of one stream.
use crate::frame::StreamMeta;
use crate::send_buffer::SendBuffer;
use crate::send_buffer::SendBufferView;
use crate::types::FinishError;
use crate::types::WriteError;
use crate::varint::VARINT_MAX;
use crate::varint::VarInt;
use vstd::prelude::*;
use vstd::slice::slice_subrange;

verus! {

/// Where the sending half of a stream stands.
#[derive(Clone, Copy, Debug, PartialEq, Eq, Structural)]
pub enum SendState {
    /// New data is taken.
    Ready,
    /// The stream was finished; only what was written is still sent.
    DataSent { finish_acked: bool },
    /// The stream was reset.
    ResetSent,
    /// Everything written was acknowledged.
    DataRecvd,
    /// The reset was acknowledged.
    ResetRecvd,
}

/// The state of the sending half of one stream.
pub struct SendView {
    /// The stream offset up to which the peer takes data.
    pub max_data: u64,
    pub state: SendState,
    pub pending: SendBufferView,
    /// Whether a frame that ends the stream must go out, even without data.
    pub fin_pending: bool,
    /// Whether the stream waits in the list of streams that the connection
    /// blocked.
    pub connection_blocked: bool,
    /// The peer's code, once it asked for sending to stop.
    pub stop_reason: Option<VarInt>,
}

impl SendView {
    /// The buffer is sound and within the limit, which fits on the wire.
    pub open spec fn wf(self) -> bool {
        &&& self.pending.inv()
        &&& self.pending.offset() <= self.max_data <= VARINT_MAX
    }

    /// A new sending half with the limit `max_data`.
    pub open spec fn fresh(max_data: u64) -> SendView {
        SendView {
            max_data,
            state: SendState::Ready,
            pending: SendBufferView {
                base: 0,
                data: Seq::empty(),
                unsent: 0,
                acks: Seq::empty(),
                retransmits: Seq::empty(),
            },
            fin_pending: false,
            connection_blocked: false,
            stop_reason: None,
        }
    }

    /// Whether the stream has come to its end: what was sent, or the reset,
    /// was acknowledged.
    pub open spec fn is_terminal(self) -> bool {
        self.state == SendState::DataRecvd || self.state == SendState::ResetRecvd
    }

    /// Whether the stream was reset.
    pub open spec fn is_reset(self) -> bool {
        self.state == SendState::ResetSent || self.state == SendState::ResetRecvd
    }

    /// Whether the stream has anything to send.
    pub open spec fn is_pending(self) -> bool {
        self.pending.has_unsent_data() || self.fin_pending
    }

    /// Whether the stream takes new data.
    pub open spec fn is_writable(self) -> bool {
        self.state == SendState::Ready
    }

    /// What finishing gives: an error once the peer asked to stop or when
    /// the stream does not take data any more.
    pub open spec fn finish_outcome(self) -> Result<(), FinishError> {
        if let Some(error_code) = self.stop_reason {
            Err(FinishError::Stopped(error_code))
        } else if self.state == SendState::Ready {
            Ok(())
        } else {
            Err(FinishError::UnknownStream)
        }
    }

    /// The state after the stream was finished.
    pub open spec fn finished(self) -> SendView {
        SendView { state: SendState::DataSent { finish_acked: false }, fin_pending: true, ..self }
    }

    /// What writing `len` bytes gives: the number of bytes taken, which is
    /// as many as the stream's limit leaves room for, or why none is taken.
    pub open spec fn write_outcome(self, len: int) -> Result<usize, WriteError> {
        if self.state != SendState::Ready {
            Err(WriteError::UnknownStream)
        } else if let Some(error_code) = self.stop_reason {
            Err(WriteError::Stopped(error_code))
        } else if self.max_data == self.pending.offset() {
            Err(WriteError::Blocked)
        } else if len <= self.max_data - self.pending.offset() {
            Ok(len as usize)
        } else {
            Ok((self.max_data - self.pending.offset()) as usize)
        }
    }

    /// The state after `bytes` were taken for sending.
    pub open spec fn written(self, bytes: Seq<u8>) -> SendView {
        SendView { pending: SendBufferView { data: self.pending.data + bytes, ..self.pending }, ..self }
    }

    /// The state after the application gave the stream up: what is buffered
    /// is dropped.
    pub open spec fn after_reset(self) -> SendView {
        SendView {
            state: match self.state {
                SendState::Ready => SendState::ResetSent,
                SendState::DataSent { .. } => SendState::ResetSent,
                s => s,
            },
            pending: self.pending.after_discard(),
            ..self
        }
    }

    /// The state after a frame was acknowledged that carried the end of the
    /// stream if `fin` says so, where `pending` is the state of the buffer
    /// afterwards.
    pub open spec fn after_ack(self, fin: bool, pending: SendBufferView) -> SendView {
        SendView {
            state: match self.state {
                SendState::DataSent { finish_acked } => if (finish_acked || fin)
                    && pending.is_fully_acked() {
                    SendState::DataRecvd
                } else {
                    SendState::DataSent { finish_acked: finish_acked || fin }
                },
                s => s,
            },
            pending,
            ..self
        }
    }

    /// Whether raising the limit to `offset` takes effect.
    pub open spec fn raises_limit(self, offset: u64) -> bool {
        offset > self.max_data
    }

    /// The state after the peer raised the limit to `offset`.
    pub open spec fn after_max_data(self, offset: u64) -> SendView {
        if self.raises_limit(offset) {
            SendView { max_data: offset, ..self }
        } else {
            self
        }
    }

    /// The state after the frame `start..end` was lost, which carried the
    /// end of the stream if `fin` says so.
    pub open spec fn after_retransmit(self, start: u64, end: u64, fin: bool) -> SendView {
        SendView {
            fin_pending: self.fin_pending || fin,
            pending: self.pending.after_retransmit(start, end),
            ..self
        }
    }
}

/// The sending half of one stream.
pub struct Send {
    pub max_data: u64,
    pub state: SendState,
    pub pending: SendBuffer,
    pub fin_pending: bool,
    pub connection_blocked: bool,
    pub stop_reason: Option<VarInt>,
}

impl View for Send {
    type V = SendView;

    open spec fn view(&self) -> SendView {
        SendView {
            max_data: self.max_data,
            state: self.state,
            pending: self.pending@,
            fin_pending: self.fin_pending,
            connection_blocked: self.connection_blocked,
            stop_reason: self.stop_reason,
        }
    }
}

impl Send {
    pub open spec fn wf(&self) -> bool {
        self.pending.consistent() && self@.wf()
    }

    pub fn new(max_data: VarInt) -> (r: Send)
        ensures
            r.wf(),
            r@ == SendView::fresh(max_data.value()),
    {
        Send {
            max_data: max_data.into_inner(),
            state: SendState::Ready,
            pending: SendBuffer::new(),
            fin_pending: false,
            connection_blocked: false,
            stop_reason: None,
        }
    }

    /// Whether the stream was reset.
    pub fn is_reset(&self) -> (r: bool)
        ensures
            r == self@.is_reset(),
    {
        match self.state {
            SendState::ResetSent => true,
            SendState::ResetRecvd => true,
            _ => false,
        }
    }

    /// Ends the stream after what was written.
    pub fn finish(&mut self) -> (r: Result<(), FinishError>)
        ensures
            r == old(self)@.finish_outcome(),
            r.is_err() ==> *final(self) == *old(self),
            r.is_ok() ==> final(self)@ == old(self)@.finished() && final(self).pending == old(
                self).pending,
    {
        if let Some(error_code) = self.stop_reason {
            Err(FinishError::Stopped(error_code))
        } else if self.is_writable() {
            self.state = SendState::DataSent { finish_acked: false };
            self.fin_pending = true;
            Ok(())
        } else {
            Err(FinishError::UnknownStream)
        }
    }

    /// Takes the front of `data` for sending.
    pub fn write(&mut self, data: &[u8]) -> (r: Result<usize, WriteError>)
        requires
            old(self).wf(),
        ensures
            final(self).wf(),
            r == old(self)@.write_outcome(data@.len() as int),
            r.is_err() ==> *final(self) == *old(self),
            r.is_ok() ==> final(self)@ == old(self)@.written(data@.take(r.unwrap() as int)),
    {
        if !self.is_writable() {
            return Err(WriteError::UnknownStream);
        }
        if let Some(error_code) = self.stop_reason {
            return Err(WriteError::Stopped(error_code));
        }
        let budget = self.max_data - self.pending.offset();
        if budget == 0 {
            return Err(WriteError::Blocked);
        }
        let len = if data.len() as u64 <= budget {
            data.len()
        } else {
            budget as usize
        };
        self.pending.write(slice_subrange(data, 0, len));
        Ok(len)
    }

    /// The application gives the stream up: what is buffered is dropped.
    pub fn reset(&mut self)
        requires
            old(self).wf(),
        ensures
            final(self).wf(),
            final(self)@ == old(self)@.after_reset(),
    {
        match self.state {
            SendState::Ready => {
                self.state = SendState::ResetSent;
            },
            SendState::DataSent { .. } => {
                self.state = SendState::ResetSent;
            },
            _ => {},
        }
        self.pending.discard();
    }

    /// The peer asked for sending to stop.
    pub fn stop(&mut self, error_code: VarInt)
        ensures
            final(self)@ == (SendView { stop_reason: Some(error_code), ..old(self)@ }),
            final(self).pending == old(self).pending,
    {
        self.stop_reason = Some(error_code);
    }

    /// The peer has received the frame. Returns how many of its bytes had
    /// not been acknowledged before.
    pub fn ack(&mut self, frame: &StreamMeta) -> (newly: u64)
        requires
            old(self).wf(),
        ensures
            final(self).wf(),
            old(self)@.pending.ack_result(
                final(self)@.pending,
                frame.offsets.start,
                frame.offsets.end,
                newly,
            ),
            final(self)@ == old(self)@.after_ack(frame.fin, final(self)@.pending),
    {
        let newly = self.pending.ack(frame.offsets.start, frame.offsets.end);
        if let SendState::DataSent { finish_acked } = self.state {
            let acked = finish_acked || frame.fin;
            if acked && self.pending.is_fully_acked() {
                self.state = SendState::DataRecvd;
            } else {
                self.state = SendState::DataSent { finish_acked: acked };
            }
        }
        newly
    }

    /// The peer raised the stream's limit to `offset`. Returns whether the
    /// stream was blocked at its old limit and is not any more.
    pub fn increase_max_data(&mut self, offset: u64) -> (r: bool)
        requires
            old(self).wf(),
            offset <= VARINT_MAX,
        ensures
            final(self).wf(),
            r == (old(self)@.raises_limit(offset) && old(self)@.pending.offset() == old(
                self)@.max_data),
            final(self)@ == old(self)@.after_max_data(offset),
            final(self).pending == old(self).pending,
    {
        if offset <= self.max_data {
            return false;
        }
        let was_blocked = self.pending.offset() == self.max_data;
        self.max_data = offset;
        was_blocked
    }

    /// Total number of bytes ever written.
    pub fn offset(&self) -> (r: u64)
        requires
            self.wf(),
        ensures
            r == self@.pending.offset(),
    {
        self.pending.offset()
    }

    /// Whether the stream has anything to send.
    pub fn is_pending(&self) -> (r: bool)
        requires
            self.wf(),
        ensures
            r == self@.is_pending(),
    {
        self.pending.has_unsent_data() || self.fin_pending
    }

    /// Whether the stream takes new data.
    pub fn is_writable(&self) -> (r: bool)
        ensures
            r == self@.is_writable(),
    {
        match self.state {
            SendState::Ready => true,
            _ => false,
        }
    }
}

} // verus!
