use vstd::prelude::*;

verus! {

/// Errors reported by the USB session layer.
#[derive(Debug, Clone)]
pub enum UsbError {
    /// The peer broke the framing protocol (a missing acknowledge or preamble).
    Protocol(String),
    /// The native USB driver reported a failure (code, message).
    Usbh(i32, String),
    /// The native libusb layer reported a failure (code, message).
    Libusb(i32, String),
    /// No device answers to the given serial.
    DeviceNotFound(String),
    /// A reply could not be parsed.
    Parser(String),
    /// A failure without further detail.
    Unknown,
}

/// Errors that a device reports in its reply, as opposed to transport failures.
#[derive(Debug, Clone, Copy, PartialEq, Eq, Structural)]
pub enum ApiError {
    /// `[400]` client api protocol error
    Linq400,
    /// `[403]` unauthorized
    Linq403,
    /// `[404]` resource not found
    Linq404,
    /// `[500]` critical server failure
    Linq500,
    /// `[504]` please try again later
    Linq504,
    /// the device submitted an unknown error response
    LinqUnknown,
}

/// Every failure that the transport and its callers can see.
#[derive(Debug, Clone)]
pub enum IoError {
    /// A reply or document could not be parsed.
    Parser(String),
    /// USB communication failed.
    Usb(UsbError),
    /// The operating system failed (a thread could not be joined).
    Kernel(String),
    /// No channel is registered under the given serial.
    DeviceNotFound(String),
    /// The device answered with an error code.
    ApiError(ApiError),
    /// An input/output failure outside the USB layer.
    Io(String),
    /// A state that the design rules out was reached.
    Impossible(String),
    /// A failure without further detail (also: the transport is no longer available).
    Unknown,
}

/// Errors of the command line front end.
#[derive(Debug, Clone)]
pub enum LinqError {
    /// The transport failed.
    Io(IoError),
    /// Input could not be parsed.
    Parser(String),
    /// A local input/output failure.
    StdIo(String),
    /// A failure without further detail.
    Unknown,
}

impl ApiError {
    /// The numeric code that the device uses for this error, where it has one.
    pub open spec fn code(self) -> Option<int> {
        match self {
            ApiError::Linq400 => Some(400),
            ApiError::Linq403 => Some(403),
            ApiError::Linq404 => Some(404),
            ApiError::Linq500 => Some(500),
            ApiError::Linq504 => Some(504),
            ApiError::LinqUnknown => None,
        }
    }
}

} // verus!
