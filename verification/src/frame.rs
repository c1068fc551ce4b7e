//! Frames: self-describing sensor/control message units, with the schema
//! registry that maps a message type to its field layout.

use vstd::prelude::*;

verus! {

/// Broadcast keepalive ping; carries no data fields.
pub const PING_TYPE: u8 = 0;
/// Temperature reading: device id field plus one reading field.
pub const TEMPERATURE_TYPE: u8 = 1;
/// Humidity reading: device id field plus one reading field.
pub const HUMIDITY_TYPE: u8 = 2;
/// Fire alarm event: device id field plus one alarm-level field.
pub const FIRE_ALARM_TYPE: u8 = 3;
/// Gas leakage event: device id field plus one gas-level field.
pub const GAS_LEAKAGE_TYPE: u8 = 4;

/// Number of distinct message types in the schema registry.
pub const TYPE_COUNT: u8 = 5;

/// True for message types the schema registry knows.
pub open spec fn valid_type(t: u8) -> bool {
    t < TYPE_COUNT
}

/// Number of data fields the schema prescribes for message type `t`.
/// A ping carries none; every reading or alarm carries a device id field
/// followed by one value field.
pub open spec fn spec_field_count(t: u8) -> nat {
    if t == PING_TYPE {
        0
    } else {
        2
    }
}

/// Index of the device id field within type `t`'s field list, if the schema
/// gives the type one. Pings have no device id field.
pub open spec fn spec_device_id_index(t: u8) -> Option<int> {
    if t == PING_TYPE {
        None
    } else {
        Some(0int)
    }
}

/// Mathematical value of a frame: its message type, its timestamp in
/// milliseconds since the epoch, and its data fields in schema order.
pub struct FrameView {
    pub msg_type: u8,
    pub timestamp: u64,
    pub fields: Seq<u64>,
}

impl FrameView {
    /// A frame is valid when its type is registered and it carries exactly
    /// the fields the schema prescribes for that type.
    pub open spec fn valid(self) -> bool {
        &&& valid_type(self.msg_type)
        &&& self.fields.len() == spec_field_count(self.msg_type)
    }

    /// The same frame with the device id field (if the schema gives the type
    /// one) overwritten and the timestamp replaced.
    pub open spec fn stamped(self, device_id: u8, now: u64) -> FrameView {
        match spec_device_id_index(self.msg_type) {
            Some(i) => FrameView {
                msg_type: self.msg_type,
                timestamp: now,
                fields: self.fields.update(i, device_id as u64),
            },
            None => self,
        }
    }
}

/// One decoded message unit. `fields` holds the data fields in schema order;
/// the master overwrites the device id field and the timestamp before
/// dispatching the frame.
#[derive(Debug, PartialEq, Eq)]
pub struct Frame {
    pub msg_type: u8,
    pub timestamp: u64,
    pub fields: Vec<u64>,
}

impl View for Frame {
    type V = FrameView;

    open spec fn view(&self) -> FrameView {
        FrameView { msg_type: self.msg_type, timestamp: self.timestamp, fields: self.fields@ }
    }
}

impl Clone for Frame {
    fn clone(&self) -> (r: Self)
        ensures
            r@ == self@,
    {
        let fields_copy = copy_fields(&self.fields);
        Frame { msg_type: self.msg_type, timestamp: self.timestamp, fields: fields_copy }
    }
}

/// Copies a field vector element by element.
fn copy_fields(fields: &Vec<u64>) -> (r: Vec<u64>)
    ensures
        r@ == fields@,
{
    let mut out: Vec<u64> = Vec::new();
    let mut i: usize = 0;
    while i < fields.len()
        invariant
            i <= fields.len(),
            out@ == fields@.take(i as int),
        decreases fields.len() - i,
    {
        out.push(fields[i]);
        proof {
            assert(fields@.take(i + 1 as int) =~= fields@.take(i as int).push(fields@[i as int]));
        }
        i = i + 1;
    }
    proof {
        assert(fields@.take(fields@.len() as int) =~= fields@);
    }
    out
}

/// Error raised by schema-directed frame access.
#[derive(PartialEq, Eq, Structural, Clone, Copy, Debug)]
pub enum FrameError {
    /// The frame's message type has no device id field in the schema, so it
    /// cannot be stamped as coming from a device (keepalive pings are the
    /// one such type).
    FrameIsNotMessage,
}

impl Frame {
    /// A fresh keepalive ping frame; the timestamp is filled in at dispatch.
    pub fn new_ping() -> (r: Frame)
        ensures
            r@.valid(),
            r@.msg_type == PING_TYPE,
            r@.timestamp == 0,
            r@.fields.len() == 0,
    {
        Frame { msg_type: PING_TYPE, timestamp: 0, fields: Vec::new() }
    }

    /// A fresh data frame of type `msg_type` with both schema fields zeroed.
    pub fn new_reading(msg_type: u8, value: u64) -> (r: Frame)
        requires
            valid_type(msg_type),
            msg_type != PING_TYPE,
        ensures
            r@.valid(),
            r@.msg_type == msg_type,
            r@.timestamp == 0,
            r@.fields =~= seq![0u64, value],
    {
        let mut fields: Vec<u64> = Vec::new();
        fields.push(0);
        fields.push(value);
        Frame { msg_type, timestamp: 0, fields }
    }

    /// Number of data fields the schema prescribes for `t`; executable twin
    /// of `spec_field_count`.
    pub fn field_count(t: u8) -> (r: usize)
        ensures
            r == spec_field_count(t),
    {
        if t == PING_TYPE {
            0
        } else {
            2
        }
    }

    /// Overwrites the timestamp (milliseconds since the epoch).
    pub fn set_timestamp(&mut self, now: u64)
        ensures
            final (self)@ == (FrameView {
                msg_type: old(self)@.msg_type,
                timestamp: now,
                fields: old(self)@.fields,
            }),
    {
        self.timestamp = now;
    }
}

/// Writes `device_id` into the frame's device id field, as located by the
/// schema registry for the frame's message type. A type without such a field
/// is a schema mismatch, reported as `FrameIsNotMessage` with the frame left
/// untouched.
pub fn set_message_device_id(message: &mut Frame, device_id: u8) -> (r: Result<(), FrameError>)
    requires
        old(message)@.valid(),
    ensures
        final (message)@.valid(),
        r is Ok <==> spec_device_id_index(old(message)@.msg_type) is Some,
        r is Ok ==> final (message)@ == old(message)@.stamped(device_id, old(message)@.timestamp),
        r is Err ==> final (message)@ == old(message)@ && r == Err::<(), FrameError>(
            FrameError::FrameIsNotMessage,
        ),
{
    if message.msg_type == PING_TYPE {
        Err(FrameError::FrameIsNotMessage)
    } else {
        message.fields.set(0, device_id as u64);
        Ok(())
    }
}

} // verus!
