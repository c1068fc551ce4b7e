//! Line-protocol encoder for the backend sink: each frame becomes one
//! textual measurement line, `name device_id=D,value=V T\n`, with the
//! measurement name taken from the schema registry, the two data fields in
//! schema order, and the timestamp in milliseconds at the end. A keepalive
//! ping, which has no data fields, becomes `ping T\n`.

use vstd::prelude::*;

use crate::frame::Frame;
use crate::frame::FrameView;
use crate::frame::FIRE_ALARM_TYPE;
use crate::frame::GAS_LEAKAGE_TYPE;
use crate::frame::HUMIDITY_TYPE;
use crate::frame::PING_TYPE;
use crate::frame::TEMPERATURE_TYPE;

verus! {

/// Decimal digits of `n`, most significant first, as ASCII bytes.
pub open spec fn dec_rep(n: nat) -> Seq<u8>
    decreases n,
{
    if n < 10 {
        seq![(n + 48) as u8]
    } else {
        dec_rep(n / 10).push((n % 10 + 48) as u8)
    }
}

/// Measurement name of a message type, as ASCII bytes.
pub open spec fn spec_measurement_name(t: u8) -> Seq<u8> {
    if t == PING_TYPE {
        seq![112u8, 105u8, 110u8, 103u8]  // "ping"
    } else if t == TEMPERATURE_TYPE {
        // "temperature"
        seq![116u8, 101u8, 109u8, 112u8, 101u8, 114u8, 97u8, 116u8, 117u8, 114u8, 101u8]
    } else if t == HUMIDITY_TYPE {
        seq![104u8, 117u8, 109u8, 105u8, 100u8, 105u8, 116u8, 121u8]  // "humidity"
    } else if t == FIRE_ALARM_TYPE {
        seq![102u8, 105u8, 114u8, 101u8, 95u8, 97u8, 108u8, 97u8, 114u8, 109u8]  // "fire_alarm"
    } else {
        // "gas_leakage"
        seq![103u8, 97u8, 115u8, 95u8, 108u8, 101u8, 97u8, 107u8, 97u8, 103u8, 101u8]
    }
}

/// `device_id=` as ASCII bytes.
pub open spec fn spec_device_id_key() -> Seq<u8> {
    seq![100u8, 101u8, 118u8, 105u8, 99u8, 101u8, 95u8, 105u8, 100u8, 61u8]
}

/// `value=` as ASCII bytes.
pub open spec fn spec_value_key() -> Seq<u8> {
    seq![118u8, 97u8, 108u8, 117u8, 101u8, 61u8]
}

/// The measurement line of a frame: name, a space, the two data fields as
/// `device_id=D,value=V` (omitted for a ping, which has none), a space, the
/// timestamp, a line feed.
pub open spec fn line_of(f: FrameView) -> Seq<u8> {
    if f.fields.len() == 0 {
        spec_measurement_name(f.msg_type) + seq![32u8] + dec_rep(f.timestamp as nat) + seq![10u8]
    } else {
        spec_measurement_name(f.msg_type) + seq![32u8] + spec_device_id_key() + dec_rep(
            f.fields[0] as nat,
        ) + seq![44u8] + spec_value_key() + dec_rep(f.fields[1] as nat) + seq![32u8] + dec_rep(
            f.timestamp as nat,
        ) + seq![10u8]
    }
}

/// Appends the decimal digits of `n` to `out`.
fn push_decimal(out: &mut Vec<u8>, n: u64)
    ensures
        final (out)@ =~= old(out)@ + dec_rep(n as nat),
{
    let mut digits: Vec<u8> = Vec::new();
    let mut x = n;
    let d = (x % 10) as u8 + 48;
    digits.push(d);
    x = x / 10;
    proof {
        if x > 0 {
            assert(dec_rep(n as nat) == dec_rep(n as nat / 10).push((n as nat % 10 + 48) as u8));
            assert(digits@.reverse() =~= seq![d]);
            assert(dec_rep(n as nat) =~= dec_rep(x as nat) + digits@.reverse());
        } else {
            assert(dec_rep(n as nat) =~= seq![d]);
            assert(digits@.reverse() =~= seq![d]);
        }
    }
    while x > 0
        invariant
            x > 0 ==> dec_rep(n as nat) =~= dec_rep(x as nat) + digits@.reverse(),
            x == 0 ==> dec_rep(n as nat) =~= digits@.reverse(),
        decreases x,
    {
        let ghost digits0 = digits@;
        let ghost x0 = x as nat;
        let d = (x % 10) as u8 + 48;
        digits.push(d);
        x = x / 10;
        proof {
            assert(digits@.reverse() =~= seq![d] + digits0.reverse());
            if x > 0 {
                assert(dec_rep(x0) == dec_rep(x0 / 10).push((x0 % 10 + 48) as u8));
                assert(dec_rep(x0) =~= dec_rep(x as nat).push(d));
                assert(dec_rep(x as nat) + digits@.reverse() =~= (dec_rep(x as nat).push(d))
                    + digits0.reverse());
            } else {
                assert(x0 < 10);
                assert(dec_rep(x0) =~= seq![d]);
            }
        }
    }
    let mut i: usize = 0;
    let ghost rev = digits@.reverse();
    while i < digits.len()
        invariant
            i <= digits.len(),
            rev == digits@.reverse(),
            dec_rep(n as nat) =~= rev,
            out@ =~= old(out)@ + rev.take(i as int),
        decreases digits.len() - i,
    {
        let b = digits[digits.len() - 1 - i];
        out.push(b);
        proof {
            assert(rev[i as int] == digits@[digits@.len() - 1 - i]);
            assert(rev.take(i + 1) =~= rev.take(i as int).push(rev[i as int]));
        }
        i = i + 1;
    }
    proof {
        assert(rev.take(rev.len() as int) =~= rev);
    }
}

/// The measurement name of message type `t`.
pub fn measurement_name(t: u8) -> (r: Vec<u8>)
    ensures
        r@ =~= spec_measurement_name(t),
{
    let mut r: Vec<u8> = Vec::new();
    if t == PING_TYPE {
        r.push(112);
        r.push(105);
        r.push(110);
        r.push(103);
    } else if t == TEMPERATURE_TYPE {
        r.push(116);
        r.push(101);
        r.push(109);
        r.push(112);
        r.push(101);
        r.push(114);
        r.push(97);
        r.push(116);
        r.push(117);
        r.push(114);
        r.push(101);
    } else if t == HUMIDITY_TYPE {
        r.push(104);
        r.push(117);
        r.push(109);
        r.push(105);
        r.push(100);
        r.push(105);
        r.push(116);
        r.push(121);
    } else if t == FIRE_ALARM_TYPE {
        r.push(102);
        r.push(105);
        r.push(114);
        r.push(101);
        r.push(95);
        r.push(97);
        r.push(108);
        r.push(97);
        r.push(114);
        r.push(109);
    } else {
        r.push(103);
        r.push(97);
        r.push(115);
        r.push(95);
        r.push(108);
        r.push(101);
        r.push(97);
        r.push(107);
        r.push(97);
        r.push(103);
        r.push(101);
    }
    r
}

/// Encodes one frame as its measurement line for the backend sink.
pub fn to_line(frame: &Frame) -> (r: Vec<u8>)
    requires
        frame@.valid(),
    ensures
        r@ =~= line_of(frame@),
{
    let mut r = measurement_name(frame.msg_type);
    r.push(32);
    if frame.fields.len() == 0 {
        push_decimal(&mut r, frame.timestamp);
        r.push(10);
    } else {
        r.push(100);
        r.push(101);
        r.push(118);
        r.push(105);
        r.push(99);
        r.push(101);
        r.push(95);
        r.push(105);
        r.push(100);
        r.push(61);
        push_decimal(&mut r, frame.fields[0]);
        r.push(44);
        r.push(118);
        r.push(97);
        r.push(108);
        r.push(117);
        r.push(101);
        r.push(61);
        push_decimal(&mut r, frame.fields[1]);
        r.push(32);
        push_decimal(&mut r, frame.timestamp);
        r.push(10);
    }
    r
}

} // verus!
