//! The receiving half of one stream.
use crate::assembler::Assembler;
use crate::assembler::AssemblerView;
use crate::frame::ShouldTransmit;
use crate::frame::Stream;
use crate::transport::TransportError;
use crate::transport::TransportErrorCode;
use crate::types::ReadError;
use crate::varint::VARINT_MAX;
use crate::varint::VarInt;
use crate::wire::bytes_contents;
use crate::wire::bytes_len;
use bytes::Bytes;
use vstd::prelude::*;

verus! {

/// Where the receiving half of a stream stands.
#[allow(inconsistent_fields)]
#[derive(Clone, Copy, Debug, PartialEq, Eq)]
pub enum RecvState {
    /// Data is taken; `size` is the final size, once the peer has told it.
    Recv { size: Option<u64> },
    /// The peer gave the stream up at the final size `size`.
    ResetRecvd { size: u64, error_code: VarInt },
    /// The application has read all there was, or the error.
    Closed,
}

impl Default for RecvState {
    fn default() -> (r: RecvState)
        ensures
            r == (RecvState::Recv { size: None }),
    {
        RecvState::Recv { size: None }
    }
}

/// By how much a frame that ends at `end` raises the highest offset seen.
pub open spec fn new_bytes(prev_end: u64, end: int) -> int {
    if end > prev_end {
        end - prev_end
    } else {
        0
    }
}

/// The state of the receiving half of one stream.
pub struct RecvView {
    pub state: RecvState,
    pub assembler: AssemblerView,
    /// The highest limit announced to the peer for this stream.
    pub sent_max_stream_data: u64,
}

impl RecvView {
    /// A new receiving half.
    pub open spec fn fresh() -> RecvView {
        RecvView {
            state: RecvState::Recv { size: None },
            assembler: AssemblerView {
                buffered: Map::empty(),
                received: Seq::empty(),
                bytes_read: 0,
                end: 0,
                stopped: false,
                unordered: false,
            },
            sent_max_stream_data: 0,
        }
    }

    /// The final size of the stream, once known.
    pub open spec fn final_offset(self) -> Option<u64> {
        match self.state {
            RecvState::Recv { size } => size,
            RecvState::ResetRecvd { size, .. } => Some(size),
            RecvState::Closed => None,
        }
    }

    /// Whether the peer sends nothing more.
    pub open spec fn is_finished(self) -> bool {
        !(self.state is Recv)
    }

    /// Whether the application has read all there was.
    pub open spec fn is_closed(self) -> bool {
        self.state == RecvState::Closed
    }

    /// Whether data is taken and the final size is not yet known.
    pub open spec fn receiving_unknown_size(self) -> bool {
        self.state == (RecvState::Recv { size: None })
    }

    /// The buffer is sound, no offset is beyond what the wire can carry, and
    /// nothing was seen beyond the final size, once that is known.
    pub open spec fn wf(self) -> bool {
        &&& self.assembler.inv()
        &&& self.assembler.end <= VARINT_MAX
        &&& match self.final_offset() {
            Some(size) => self.assembler.end <= size,
            None => true,
        }
    }

    /// The limit announced last is not beyond what `window` allows.
    pub open spec fn window_ok(self, window: u64) -> bool {
        self.sent_max_stream_data <= self.assembler.bytes_read + window
    }

    /// What the stream counts towards the data received on the connection:
    /// its final size once reset, the highest offset seen before that.
    pub open spec fn counted(self) -> int {
        match self.state {
            RecvState::ResetRecvd { size, .. } => size as int,
            _ => self.assembler.end as int,
        }
    }

    /// Why a frame of `len` bytes at `offset` is refused, if it is: the
    /// offset after its last byte does not fit on the wire; it disagrees
    /// with the final size; or it goes beyond what the stream's window or
    /// the connection's limit `max_data` allows, given that `received`
    /// bytes were counted on the connection so far.
    pub open spec fn ingest_error(
        self,
        offset: u64,
        len: int,
        fin: bool,
        received: u64,
        max_data: u64,
        receive_window: u64,
    ) -> Option<(TransportErrorCode, Seq<char>)> {
        let end = offset + len;
        if end > VARINT_MAX {
            Some((TransportErrorCode::FlowControlError, "maximum stream offset too large"@))
        } else if self.final_offset().is_some() && (end > self.final_offset().unwrap() || (fin
            && end != self.final_offset().unwrap())) {
            Some((TransportErrorCode::FinalSizeError, ""@))
        } else if fin && end < self.assembler.end {
            Some((TransportErrorCode::FinalSizeError, "lower than high water mark"@))
        } else if end > self.assembler.bytes_read + receive_window || received + new_bytes(
            self.assembler.end,
            end,
        ) > max_data {
            Some((TransportErrorCode::FlowControlError, ""@))
        } else {
            None
        }
    }

    /// The state after a frame that ends at `end` was taken in, where
    /// `assembler` is the state of the buffer afterwards.
    pub open spec fn after_ingest(self, end: u64, fin: bool, assembler: AssemblerView) -> RecvView {
        RecvView {
            state: if fin {
                if self.assembler.stopped {
                    RecvState::Closed
                } else {
                    match self.state {
                        RecvState::Recv { .. } => RecvState::Recv { size: Some(end) },
                        s => s,
                    }
                }
            } else {
                self.state
            },
            assembler,
            ..self
        }
    }

    /// What a read gives where no byte can be handed out: the peer's reset,
    /// the end of the stream, or that the read has to wait.
    pub open spec fn blocked_outcome(self) -> Result<(), ReadError> {
        match self.state {
            RecvState::ResetRecvd { error_code, .. } => Err(ReadError::Reset(error_code)),
            RecvState::Closed => Err(ReadError::UnknownStream),
            RecvState::Recv { size } => if size == Some(self.assembler.end)
                && self.assembler.is_fully_read() {
                Ok(())
            } else {
                Err(ReadError::Blocked)
            },
        }
    }

    /// The state after such a read: the stream is closed unless the read
    /// has to wait.
    pub open spec fn after_blocked(self) -> RecvView {
        match self.blocked_outcome() {
            Err(ReadError::Blocked) => self,
            _ => RecvView { state: RecvState::Closed, ..self },
        }
    }

    /// The limit to announce for the stream.
    pub open spec fn max_stream_data(self, window: u64) -> int {
        self.assembler.bytes_read + window
    }

    /// Whether announcing the limit is worth a frame: the stream's size is
    /// not yet known and the limit has grown by at least an eighth of the
    /// window since the last announcement.
    pub open spec fn should_send_max_stream_data(self, window: u64) -> bool {
        self.receiving_unknown_size() && self.max_stream_data(window) - self.sent_max_stream_data
            >= window / 8
    }

    /// The state after the limit `sent_value` was announced.
    pub open spec fn after_sent_max_stream_data(self, sent_value: u64) -> RecvView {
        RecvView {
            sent_max_stream_data: if sent_value > self.sent_max_stream_data {
                sent_value
            } else {
                self.sent_max_stream_data
            },
            ..self
        }
    }

    /// The state after the peer gave the stream up, where that was not
    /// known: what is buffered is dropped.
    pub open spec fn after_reset(self, error_code: VarInt, final_offset: u64) -> RecvView {
        RecvView {
            state: RecvState::ResetRecvd { size: final_offset, error_code },
            assembler: AssemblerView { buffered: Map::empty(), ..self.assembler },
            ..self
        }
    }

    /// The state after the application gave up reading.
    pub open spec fn after_stop(self) -> RecvView {
        RecvView {
            assembler: AssemblerView { buffered: Map::empty(), stopped: true, ..self.assembler },
            ..self
        }
    }
}

/// The receiving half of one stream.
pub struct Recv {
    pub state: RecvState,
    pub assembler: Assembler,
    pub sent_max_stream_data: u64,
}

impl View for Recv {
    type V = RecvView;

    open spec fn view(&self) -> RecvView {
        RecvView {
            state: self.state,
            assembler: self.assembler@,
            sent_max_stream_data: self.sent_max_stream_data,
        }
    }
}

impl Recv {
    pub open spec fn wf(&self) -> bool {
        self.assembler.consistent() && self@.wf()
    }

    pub fn new() -> (r: Recv)
        ensures
            r.wf(),
            r@ == RecvView::fresh(),
    {
        Recv { state: RecvState::Recv { size: None }, assembler: Assembler::new(), sent_max_stream_data: 0 }
    }

    /// Takes in a STREAM frame, or refuses it. Returns by how much the
    /// frame raises the highest offset seen on the stream.
    pub fn ingest(&mut self, frame: Stream, received: u64, max_data: u64, receive_window: u64) -> (r:
        Result<u64, TransportError>)
        requires
            old(self).wf(),
        ensures
            final(self).wf(),
            match old(self)@.ingest_error(
                frame.offset,
                bytes_contents(frame.data).len() as int,
                frame.fin,
                received,
                max_data,
                receive_window,
            ) {
                Some((code, reason)) => {
                    &&& r.is_err()
                    &&& r.unwrap_err().code == code
                    &&& r.unwrap_err().reason@ == reason
                    &&& *final(self) == *old(self)
                },
                None => {
                    &&& r == Ok::<u64, TransportError>(
                        new_bytes(
                            old(self)@.assembler.end,
                            frame.offset + bytes_contents(frame.data).len(),
                        ) as u64,
                    )
                    &&& final(self)@ == old(self)@.after_ingest(
                        (frame.offset + bytes_contents(frame.data).len()) as u64,
                        frame.fin,
                        final(self)@.assembler,
                    )
                    &&& old(self)@.assembler.insert_result(
                        final(self)@.assembler,
                        frame.offset,
                        bytes_contents(frame.data),
                    )
                },
            },
    {
        let len = bytes_len(&frame.data) as u64;
        if frame.offset > VARINT_MAX || len > VARINT_MAX - frame.offset {
            return Err(TransportError::flow_control_error("maximum stream offset too large"));
        }
        let end = frame.offset + len;
        if let Some(final_offset) = self.final_offset() {
            if end > final_offset || (frame.fin && end != final_offset) {
                return Err(TransportError::final_size_error(""));
            }
        }
        let prev_end = self.assembler.end();
        if frame.fin && end < prev_end {
            return Err(TransportError::final_size_error("lower than high water mark"));
        }
        let new_bytes = if end > prev_end {
            end - prev_end
        } else {
            0
        };
        let bytes_read = self.assembler.bytes_read();
        if (end > bytes_read && end - bytes_read > receive_window) || received > max_data
            || new_bytes > max_data - received {
            return Err(TransportError::flow_control_error(""));
        }
        if frame.fin {
            if self.assembler.is_stopped() {
                self.state = RecvState::Closed;
            } else if let RecvState::Recv { .. } = self.state {
                self.state = RecvState::Recv { size: Some(end) };
            }
        }
        self.assembler.insert(frame.offset, frame.data);
        Ok(new_bytes)
    }

    /// Finds out why no byte can be handed out, and closes the stream where
    /// the reason is final.
    pub fn read_blocked(&mut self) -> (r: Result<(), ReadError>)
        requires
            old(self).wf(),
        ensures
            final(self).wf(),
            r == old(self)@.blocked_outcome(),
            final(self)@ == old(self)@.after_blocked(),
            final(self).assembler == old(self).assembler,
    {
        match self.state {
            RecvState::ResetRecvd { error_code, .. } => {
                self.state = RecvState::Closed;
                Err(ReadError::Reset(error_code))
            },
            RecvState::Closed => Err(ReadError::UnknownStream),
            RecvState::Recv { size } => {
                let at_end = match size {
                    Some(s) => s == self.assembler.end(),
                    None => false,
                };
                if at_end && self.assembler.is_fully_read() {
                    self.state = RecvState::Closed;
                    Ok(())
                } else {
                    Err(ReadError::Blocked)
                }
            },
        }
    }

    /// Reads in order into the front of `buf`. Gives the number of bytes
    /// read, at least one, or nothing at the end of the stream.
    pub fn read(&mut self, buf: &mut [u8]) -> (r: Result<Option<usize>, ReadError>)
        requires
            old(self).wf(),
        ensures
            final(self).wf(),
            final(buf)@.len() == old(buf)@.len(),
            old(self)@.assembler.stopped ==> r == Err::<Option<usize>, ReadError>(
                ReadError::UnknownStream,
            ) && final(self)@ == old(self)@ && final(buf)@ == old(buf)@,
            !old(self)@.assembler.stopped && old(self)@.assembler.unordered ==> r == Err::<
                Option<usize>,
                ReadError,
            >(ReadError::IllegalOrderedRead) && final(self)@ == old(self)@ && final(buf)@ == old(
                buf)@,
            !old(self)@.assembler.stopped && !old(self)@.assembler.unordered ==> (match r {
                Ok(Some(n)) => {
                    &&& n > 0
                    &&& old(self)@.assembler.bytes_read + n <= old(self)@.assembler.end
                    &&& old(self)@.assembler.readable(old(buf)@.len() as int, n as int)
                    &&& final(self)@ == (RecvView {
                        assembler: old(self)@.assembler.after_read(n as int),
                        ..old(self)@
                    })
                    &&& forall|i: int|
                        0 <= i < old(buf)@.len() ==> #[trigger] final(buf)@[i] == (if i < n {
                            old(self)@.assembler.buffered[old(self)@.assembler.bytes_read + i]
                        } else {
                            old(buf)@[i]
                        })
                },
                other => {
                    &&& old(self)@.assembler.readable(old(buf)@.len() as int, 0)
                    &&& final(self)@ == old(self)@.after_blocked()
                    &&& final(buf)@ == old(buf)@
                    &&& other == (match old(self)@.blocked_outcome() {
                        Ok(()) => Ok::<Option<usize>, ReadError>(None),
                        Err(e) => Err(e),
                    })
                },
            }),
    {
        if self.assembler.is_stopped() {
            return Err(ReadError::UnknownStream);
        }
        let read = match self.assembler.read(buf) {
            Ok(n) => n,
            Err(e) => {
                return Err(ReadError::from(e));
            },
        };
        if read > 0 {
            Ok(Some(read))
        } else {
            assert(buf@ =~= old(buf)@);
            match self.read_blocked() {
                Ok(()) => Ok(None),
                Err(e) => Err(e),
            }
        }
    }

    /// Reads out of order. Gives one buffered fragment with its offset, or
    /// nothing at the end of the stream.
    pub fn read_unordered(&mut self) -> (r: Result<Option<(Bytes, u64)>, ReadError>)
        requires
            old(self).wf(),
        ensures
            final(self).wf(),
            old(self)@.assembler.stopped ==> r.is_err() && r.unwrap_err()
                == ReadError::UnknownStream && final(self)@ == old(self)@,
            !old(self)@.assembler.stopped ==> (match r {
                Ok(Some((data, offset))) => {
                    &&& bytes_contents(data).len() > 0
                    &&& old(self)@.assembler.bytes_read + bytes_contents(data).len() <= old(
                        self)@.assembler.end
                    &&& forall|x: int|
                        offset <= x < offset + bytes_contents(data).len() ==> #[trigger] old(
                            self)@.assembler.buffered.contains_key(x) && old(
                            self)@.assembler.buffered[x] == bytes_contents(data)[x - offset]
                    &&& final(self)@ == (RecvView {
                        assembler: old(self)@.assembler.after_read_unordered(
                            offset,
                            bytes_contents(data).len() as int,
                        ),
                        ..old(self)@
                    })
                },
                other => {
                    &&& old(self)@.assembler.buffered == Map::<int, u8>::empty()
                    &&& final(self)@ == (RecvView {
                        assembler: AssemblerView { unordered: true, ..old(self)@.assembler },
                        ..old(self)@
                    }).after_blocked()
                    &&& other == (match old(self)@.blocked_outcome() {
                        Ok(()) => Ok::<Option<(Bytes, u64)>, ReadError>(None),
                        Err(e) => Err(e),
                    })
                },
            }),
    {
        if self.assembler.is_stopped() {
            return Err(ReadError::UnknownStream);
        }
        match self.assembler.read_unordered() {
            Some((offset, data)) => Ok(Some((data, offset))),
            None => {
                match self.read_blocked() {
                    Ok(()) => Ok(None),
                    Err(e) => Err(e),
                }
            },
        }
    }

    /// The limit to announce for this stream, and whether announcing it
    /// now is worth a frame.
    pub fn max_stream_data(&self, stream_receive_window: u64) -> (r: (u64, ShouldTransmit))
        requires
            self.wf(),
            self@.window_ok(stream_receive_window),
            stream_receive_window <= VARINT_MAX,
        ensures
            r.0 == self@.max_stream_data(stream_receive_window),
            r.1.0 == self@.should_send_max_stream_data(stream_receive_window),
    {
        let max_stream_data = self.assembler.bytes_read() + stream_receive_window;
        let diff = max_stream_data - self.sent_max_stream_data;
        let transmit = self.receiving_unknown_size() && diff >= stream_receive_window / 8;
        (max_stream_data, ShouldTransmit::new(transmit))
    }

    /// Notes that the limit `sent_value` was announced.
    pub fn record_sent_max_stream_data(&mut self, sent_value: u64)
        ensures
            final(self)@ == old(self)@.after_sent_max_stream_data(sent_value),
            final(self).assembler == old(self).assembler,
    {
        if sent_value > self.sent_max_stream_data {
            self.sent_max_stream_data = sent_value;
        }
    }

    /// Whether data is taken and the final size is not yet known.
    pub fn receiving_unknown_size(&self) -> (r: bool)
        ensures
            r == self@.receiving_unknown_size(),
    {
        match self.state {
            RecvState::Recv { size: None } => true,
            _ => false,
        }
    }

    /// Whether the peer sends nothing more.
    pub fn is_finished(&self) -> (r: bool)
        ensures
            r == self@.is_finished(),
    {
        match self.state {
            RecvState::Recv { .. } => false,
            _ => true,
        }
    }

    /// Whether the application has read all there was.
    pub fn is_closed(&self) -> (r: bool)
        ensures
            r == self@.is_closed(),
    {
        match self.state {
            RecvState::Closed => true,
            _ => false,
        }
    }

    /// The final size of the stream, once known.
    pub fn final_offset(&self) -> (r: Option<u64>)
        ensures
            r == self@.final_offset(),
    {
        match self.state {
            RecvState::Recv { size } => size,
            RecvState::ResetRecvd { size, .. } => Some(size),
            RecvState::Closed => None,
        }
    }

    /// The peer gave the stream up at `final_offset`. Returns `false` when
    /// that was known already; else what is buffered is dropped.
    pub fn reset(&mut self, error_code: VarInt, final_offset: u64) -> (r: bool)
        requires
            old(self).wf(),
        ensures
            r == !old(self)@.is_finished(),
            !r ==> *final(self) == *old(self),
            r ==> final(self)@ == old(self)@.after_reset(error_code, final_offset),
            final(self).assembler.consistent(),
            old(self)@.assembler.end <= final_offset ==> final(self).wf(),
    {
        match self.state {
            RecvState::Recv { .. } => {},
            _ => {
                return false;
            },
        }
        self.state = RecvState::ResetRecvd { size: final_offset, error_code };
        self.assembler.clear();
        true
    }

    /// The application gives up reading: what is buffered is dropped, and
    /// nothing is buffered from now on.
    pub fn stop(&mut self)
        requires
            old(self).wf(),
        ensures
            final(self).wf(),
            final(self)@ == old(self)@.after_stop(),
    {
        self.assembler.stop();
    }
}

} // verus!
