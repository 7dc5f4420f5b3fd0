//! The seam between the protocols and the USB stack.
//!
//! Everything protocol-side depends only on the [`Transport`] trait, never on a specific
//! operating system or USB library. A transport keeps, for the proofs alone, a history of what
//! went over the wire; what a session does is specified by the history it leaves.

use std::time::Duration;

use vstd::prelude::*;
use vstd::string::StringExecFns;

verus! {

/// Samsung's USB vendor id. Only devices with this vendor are considered.
pub const SAMSUNG_VENDOR_ID: u16 = 0x04E8;

/// The span of time that `Duration::from_millis` makes of a number of milliseconds.
pub uninterp spec fn millis(ms: u64) -> Duration;

/// `Duration::from_millis` depends on nothing but its argument. No operation of the library
/// looks inside a duration, so the span is named only.
pub assume_specification[ Duration::from_millis ](ms: u64) -> (d: Duration)
    ensures
        d == millis(ms),
;

/// A transport failure (no device, disconnected, timed out, or a backend error).
#[derive(Debug)]
pub enum UsbError {
    /// No matching device was found.
    NoDevice,
    /// A required endpoint or interface was not found on the device.
    NoEndpoints,
    /// The transport is not connected.
    NotConnected,
    /// The transfer timed out.
    Timeout,
    /// Any other backend error, with context.
    Backend(String),
}

/// The text of a transport failure.
pub open spec fn usb_error_text(e: UsbError) -> Seq<char> {
    match e {
        UsbError::NoDevice => "no matching Samsung device found"@,
        UsbError::NoEndpoints => "no valid CDC-data bulk endpoints found"@,
        UsbError::NotConnected => "not connected to a device"@,
        UsbError::Timeout => "USB transfer timed out"@,
        UsbError::Backend(msg) => "USB error: "@ + msg@,
    }
}

impl UsbError {
    /// The failure in words.
    pub fn message(&self) -> (s: String)
        ensures
            s@ == usb_error_text(*self),
    {
        match self {
            UsbError::NoDevice => String::from_str("no matching Samsung device found"),
            UsbError::NoEndpoints => String::from_str("no valid CDC-data bulk endpoints found"),
            UsbError::NotConnected => String::from_str("not connected to a device"),
            UsbError::Timeout => String::from_str("USB transfer timed out"),
            UsbError::Backend(msg) => {
                let mut s = String::from_str("USB error: ");
                s.append(msg.as_str());
                s
            },
        }
    }
}

/// One transfer of a transport's history.
pub enum Event {
    /// `data` was handed to the bulk OUT endpoint.
    Write { data: Seq<u8>, write_timeout: Duration, outcome: Result<(), UsbError> },
    /// Up to `max_len` bytes were asked of the bulk IN endpoint.
    Read { max_len: usize, read_timeout: Duration, reply: Result<Seq<u8>, UsbError> },
}

/// The bytes of a reply.
pub open spec fn reply_bytes(r: Result<Vec<u8>, UsbError>) -> Result<Seq<u8>, UsbError> {
    match r {
        Ok(v) => Ok(v@),
        Err(e) => Err(e),
    }
}

/// The event of writing `data` under a timeout in milliseconds.
pub open spec fn wrote(data: Seq<u8>, ms: u64, outcome: Result<(), UsbError>) -> Event {
    Event::Write { data, write_timeout: millis(ms), outcome }
}

/// The event of asking for `max_len` bytes under a timeout in milliseconds.
pub open spec fn got(max_len: usize, ms: u64, reply: Result<Seq<u8>, UsbError>) -> Event {
    Event::Read { max_len, read_timeout: millis(ms), reply }
}

/// How a write of the history ended.
pub open spec fn write_outcome(e: Event) -> Result<(), UsbError> {
    match e {
        Event::Write { outcome, .. } => outcome,
        Event::Read { .. } => Ok(()),
    }
}

/// What a read of the history brought.
pub open spec fn read_reply(e: Event) -> Result<Seq<u8>, UsbError> {
    match e {
        Event::Write { .. } => Ok(Seq::empty()),
        Event::Read { reply, .. } => reply,
    }
}

/// The transport `t` may have drained its IN endpoint, which turned its history into `after` and
/// returned `r`.
pub open spec fn drained<T: Transport>(t: T, after: Seq<Event>, r: Result<(), UsbError>) -> bool {
    &&& only_read(t.history(), after)
    &&& drained_by_default(t.history(), after, r) || t.drains_to(after, r)
}

/// Whether `after` is the history `before` with nothing but reads added.
pub open spec fn only_read(before: Seq<Event>, after: Seq<Event>) -> bool {
    &&& before.is_prefix_of(after)
    &&& forall|i: int| before.len() <= i < after.len() ==> (#[trigger] after[i]) is Read
}

/// Draining the IN endpoint the default way turned the history `before` into `after` and returned
/// `r`: zero bytes were asked for with a short timeout, and whatever came of that was ignored.
pub open spec fn drained_by_default(
    before: Seq<Event>,
    after: Seq<Event>,
    r: Result<(), UsbError>,
) -> bool {
    &&& r is Ok
    &&& exists|reply: Result<Seq<u8>, UsbError>| after == before.push(#[trigger] got(0, 100, reply))
}

/// A bidirectional bulk pipe to a device.
///
/// The protocol code is generic over this trait, so it can be driven by a real USB backend or
/// by a scripted one.
pub trait Transport {
    /// Every transfer so far, in order. Only proofs look at it, so a transport that is not itself
    /// verified need not say what it is.
    closed spec fn history(&self) -> Seq<Event> {
        arbitrary()
    }

    /// Whether a transport that drains its IN endpoint in a way of its own may leave the history
    /// `after` and return `r`. Like the history, this is for proofs alone.
    closed spec fn drains_to(&self, after: Seq<Event>, r: Result<(), UsbError>) -> bool {
        arbitrary()
    }

    /// Send `data` to the device's bulk OUT endpoint.
    fn bulk_write(&mut self, data: &[u8], timeout: Duration) -> (r: Result<(), UsbError>)
        ensures
            (*final(self)).history() == (*old(self)).history().push(
                Event::Write { data: data@, write_timeout: timeout, outcome: r },
            ),
    ;

    /// Read up to `max_len` bytes from the bulk IN endpoint, returning what the device actually
    /// sent (which may be fewer bytes).
    fn bulk_read(&mut self, max_len: usize, timeout: Duration) -> (r: Result<Vec<u8>, UsbError>)
        ensures
            (*final(self)).history() == (*old(self)).history().push(
                Event::Read { max_len, read_timeout: timeout, reply: reply_bytes(r) },
            ),
            r matches Ok(v) ==> v@.len() <= max_len,
    ;

    /// Best-effort zero-length read, used to drain the IN endpoint after a PIT dump. The default
    /// reads zero bytes with a short timeout and ignores the result.
    fn read_zlp(&mut self) -> (r: Result<(), UsbError>)
        ensures
            only_read((*old(self)).history(), (*final(self)).history()),
            drained_by_default((*old(self)).history(), (*final(self)).history(), r) || (*old(
                self,
            )).drains_to((*final(self)).history(), r),
        default_ensures
            drained_by_default((*old(self)).history(), (*final(self)).history(), r),
    {
        let r = self.bulk_read(0, Duration::from_millis(100));
        proof {
            assert((*self).history() == (*old(self)).history().push(got(0, 100, reply_bytes(r))));
        }
        Ok(())
    }
}

/// Lets `&mut T` be used anywhere a `Transport` is expected.
impl<T: Transport + ?Sized> Transport for &mut T {
    open spec fn history(&self) -> Seq<Event> {
        (**self).history()
    }

    open spec fn drains_to(&self, after: Seq<Event>, r: Result<(), UsbError>) -> bool {
        (**self).drains_to(after, r)
    }

    fn bulk_write(&mut self, data: &[u8], timeout: Duration) -> (r: Result<(), UsbError>) {
        (**self).bulk_write(data, timeout)
    }

    fn bulk_read(&mut self, max_len: usize, timeout: Duration) -> (r: Result<Vec<u8>, UsbError>) {
        (**self).bulk_read(max_len, timeout)
    }

    fn read_zlp(&mut self) -> (r: Result<(), UsbError>) {
        (**self).read_zlp()
    }
}

/// A discovered Samsung device available to connect to.
#[derive(Debug, Clone, PartialEq, Eq)]
pub struct DeviceInfo {
    /// Human-readable name (best effort).
    pub display_name: String,
    /// Stable identifier used to reopen this specific device (backend-defined).
    pub identifier: String,
    pub vendor_id: u16,
    pub product_id: u16,
}

} // verus!
