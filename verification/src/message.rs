//! The RTMP message types that a chunk header may carry.

use vstd::prelude::*;

verus! {

/// The known RTMP message types. Any other on-wire type byte is rejected by
/// the decoder with `ChunkDecodeError::InvalidMessageTypeID`.
#[derive(Clone, Copy, Debug, PartialEq, Eq, Structural)]
pub enum MessageTypeId {
    /// Protocol control: the peer changes its outgoing chunk size.
    SetChunkSize,
    /// Protocol control: abandon a partially sent message.
    Abort,
    /// Protocol control: acknowledgement of received bytes.
    Acknowledgement,
    /// Protocol control: user control event.
    UserControlEvent,
    /// Protocol control: window acknowledgement size.
    WindowAcknowledgementSize,
    /// Protocol control: set peer bandwidth.
    SetPeerBandwidth,
    /// An audio frame.
    Audio,
    /// A video frame.
    Video,
    /// AMF3-encoded data message.
    DataAmf3,
    /// AMF3-encoded shared object message.
    SharedObjectAmf3,
    /// AMF3-encoded command message.
    CommandAmf3,
    /// AMF0-encoded data message.
    DataAmf0,
    /// AMF0-encoded shared object message.
    SharedObjectAmf0,
    /// AMF0-encoded command message.
    CommandAmf0,
    /// An aggregate of several messages.
    Aggregate,
}

/// The on-wire byte of each message type.
pub open spec fn spec_type_byte(t: MessageTypeId) -> u8 {
    match t {
        MessageTypeId::SetChunkSize => 1,
        MessageTypeId::Abort => 2,
        MessageTypeId::Acknowledgement => 3,
        MessageTypeId::UserControlEvent => 4,
        MessageTypeId::WindowAcknowledgementSize => 5,
        MessageTypeId::SetPeerBandwidth => 6,
        MessageTypeId::Audio => 8,
        MessageTypeId::Video => 9,
        MessageTypeId::DataAmf3 => 15,
        MessageTypeId::SharedObjectAmf3 => 16,
        MessageTypeId::CommandAmf3 => 17,
        MessageTypeId::DataAmf0 => 18,
        MessageTypeId::SharedObjectAmf0 => 19,
        MessageTypeId::CommandAmf0 => 20,
        MessageTypeId::Aggregate => 22,
    }
}

/// The message type a byte stands for, if it is a known one.
pub open spec fn spec_type_from_byte(b: u8) -> Option<MessageTypeId> {
    if b == 1 {
        Some(MessageTypeId::SetChunkSize)
    } else if b == 2 {
        Some(MessageTypeId::Abort)
    } else if b == 3 {
        Some(MessageTypeId::Acknowledgement)
    } else if b == 4 {
        Some(MessageTypeId::UserControlEvent)
    } else if b == 5 {
        Some(MessageTypeId::WindowAcknowledgementSize)
    } else if b == 6 {
        Some(MessageTypeId::SetPeerBandwidth)
    } else if b == 8 {
        Some(MessageTypeId::Audio)
    } else if b == 9 {
        Some(MessageTypeId::Video)
    } else if b == 15 {
        Some(MessageTypeId::DataAmf3)
    } else if b == 16 {
        Some(MessageTypeId::SharedObjectAmf3)
    } else if b == 17 {
        Some(MessageTypeId::CommandAmf3)
    } else if b == 18 {
        Some(MessageTypeId::DataAmf0)
    } else if b == 19 {
        Some(MessageTypeId::SharedObjectAmf0)
    } else if b == 20 {
        Some(MessageTypeId::CommandAmf0)
    } else if b == 22 {
        Some(MessageTypeId::Aggregate)
    } else {
        None
    }
}

impl MessageTypeId {
    /// The on-wire byte of this message type.
    pub fn as_u8(self) -> (b: u8)
        ensures
            b == spec_type_byte(self),
    {
        match self {
            MessageTypeId::SetChunkSize => 1,
            MessageTypeId::Abort => 2,
            MessageTypeId::Acknowledgement => 3,
            MessageTypeId::UserControlEvent => 4,
            MessageTypeId::WindowAcknowledgementSize => 5,
            MessageTypeId::SetPeerBandwidth => 6,
            MessageTypeId::Audio => 8,
            MessageTypeId::Video => 9,
            MessageTypeId::DataAmf3 => 15,
            MessageTypeId::SharedObjectAmf3 => 16,
            MessageTypeId::CommandAmf3 => 17,
            MessageTypeId::DataAmf0 => 18,
            MessageTypeId::SharedObjectAmf0 => 19,
            MessageTypeId::CommandAmf0 => 20,
            MessageTypeId::Aggregate => 22,
        }
    }

    /// Decodes an on-wire type byte; `None` for an unknown value.
    pub fn from_byte(b: u8) -> (t: Option<MessageTypeId>)
        ensures
            t == spec_type_from_byte(b),
    {
        if b == 1 {
            Some(MessageTypeId::SetChunkSize)
        } else if b == 2 {
            Some(MessageTypeId::Abort)
        } else if b == 3 {
            Some(MessageTypeId::Acknowledgement)
        } else if b == 4 {
            Some(MessageTypeId::UserControlEvent)
        } else if b == 5 {
            Some(MessageTypeId::WindowAcknowledgementSize)
        } else if b == 6 {
            Some(MessageTypeId::SetPeerBandwidth)
        } else if b == 8 {
            Some(MessageTypeId::Audio)
        } else if b == 9 {
            Some(MessageTypeId::Video)
        } else if b == 15 {
            Some(MessageTypeId::DataAmf3)
        } else if b == 16 {
            Some(MessageTypeId::SharedObjectAmf3)
        } else if b == 17 {
            Some(MessageTypeId::CommandAmf3)
        } else if b == 18 {
            Some(MessageTypeId::DataAmf0)
        } else if b == 19 {
            Some(MessageTypeId::SharedObjectAmf0)
        } else if b == 20 {
            Some(MessageTypeId::CommandAmf0)
        } else if b == 22 {
            Some(MessageTypeId::Aggregate)
        } else {
            None
        }
    }
}

/// Encoding a message type and decoding the byte again gives the type back,
/// and decoding never returns a type with a different byte.
pub proof fn lemma_type_byte_round_trip(t: MessageTypeId, b: u8)
    ensures
        spec_type_from_byte(spec_type_byte(t)) == Some(t),
        spec_type_from_byte(b) matches Some(u) ==> spec_type_byte(u) == b,
{
}

} // verus!
