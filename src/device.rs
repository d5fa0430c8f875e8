use vstd::prelude::*;
use crate::driver::{ReaderWriter, Transcript, Transfer};
use crate::k64::{grew, joined, new_calls};
use crate::error::{IoError, UsbError};
use crate::k64;
use crate::m5;
use crate::request::Request;

verus! {

/// Product id of the K64 family.
pub const PID_K64: u32 = 0x0020;

/// Product id of the M5 family.
pub const PID_M5: u32 = 0x4444;

/// The device family, which decides how a session is driven.
#[derive(Debug, Clone, Copy, PartialEq, Eq, Structural)]
pub enum Driver {
    K64,
    M5,
}

/// The driver for a product id, if the product is supported.
pub open spec fn driver_for(pid: u32) -> Option<Driver> {
    if pid == PID_K64 {
        Some(Driver::K64)
    } else if pid == PID_M5 {
        Some(Driver::M5)
    } else {
        None
    }
}

impl Default for Driver {
    fn default() -> (r: Self)
        ensures
            r == Driver::K64,
    {
        Driver::K64
    }
}

impl Driver {
    /// The driver for a product id, if the product is supported.
    pub fn for_product(pid: u32) -> (r: Option<Driver>)
        ensures
            r == driver_for(pid),
    {
        if pid == PID_K64 {
            Some(Driver::K64)
        } else if pid == PID_M5 {
            Some(Driver::M5)
        } else {
            None
        }
    }

    /// Send a request to a device of this family.
    pub fn request<T: ReaderWriter>(&self, ctx: &mut T, sid: &str, r: Request) -> (res: Result<
        String,
        IoError,
    >)
        ensures
            grew(old(ctx).history(), final(ctx).history()),
            *self == Driver::K64 ==> k64::request_answers(
                k64::plan_of(r),
                new_calls(old(ctx).history(), final(ctx).history()),
                res,
            ),
            *self == Driver::M5 ==> (res matches Ok(s) && s@.len() == 0) && *final(ctx) == *old(ctx),
    {
        match self {
            Driver::K64 => k64::request_raw(ctx, sid, r),
            Driver::M5 => {
                let res = m5::request_raw(ctx, sid, r);
                proof {
                    assert(ctx.history().subrange(0, ctx.history().len() as int) =~= ctx.history());
                }
                res
            },
        }
    }

    /// Resolve the session id of a device of this family.
    pub fn open<T: ReaderWriter>(&self, ctx: &mut T, sid: &str) -> (res: Result<String, IoError>)
        ensures
            grew(old(ctx).history(), final(ctx).history()),
            *self == Driver::K64 ==> k64::open_answers(
                new_calls(old(ctx).history(), final(ctx).history()),
                res,
            ),
            *self == Driver::M5 ==> (res matches Ok(s) && s@.len() == 0) && *final(ctx) == *old(ctx),
    {
        match self {
            Driver::K64 => k64::open(ctx, sid),
            Driver::M5 => {
                let res = m5::open(ctx, sid);
                proof {
                    assert(ctx.history().subrange(0, ctx.history().len() as int) =~= ctx.history());
                }
                res
            },
        }
    }
}

/// A connected device as the USB layer enumerates it.
#[derive(Debug, Clone)]
pub struct Summary {
    pub vendor: u32,
    pub product: u32,
    pub serial: String,
}

/// A resolved device: `sid`, the session id that the device reported when it was opened,
/// names it on the wire; `serial`, the serial that enumeration reported, is the id callers use.
#[derive(Debug, Clone)]
pub struct UsbMetadata {
    pub vid: u32,
    pub pid: u32,
    pub sid: String,
    pub serial: String,
    pub driver: Driver,
}

impl UsbMetadata {
    /// The metadata of an enumerated device, reached on the wire by the session id `sid` that
    /// it reported.
    pub fn new(sid: &str, driver: Driver, s: &Summary) -> (r: Self)
        ensures
            r.vid == s.vendor,
            r.pid == s.product,
            r.sid@ == sid@,
            r.serial@ == s.serial@,
            r.driver == driver,
    {
        UsbMetadata {
            vid: s.vendor,
            pid: s.product,
            sid: sid.to_owned(),
            serial: s.serial.clone(),
            driver,
        }
    }

    /// A copy of this metadata.
    pub fn copied(&self) -> (r: Self)
        ensures
            r == *self,
    {
        UsbMetadata {
            vid: self.vid,
            pid: self.pid,
            sid: self.sid.clone(),
            serial: self.serial.clone(),
            driver: self.driver,
        }
    }
}

/// `m` is the metadata of enumerated device `d`, which reported the session id `id` when it
/// was opened: `id` is its wire id, the enumerated serial its caller-facing id.
pub open spec fn metadata_of(m: UsbMetadata, d: Summary, id: Seq<char>) -> bool {
    &&& driver_for(d.product) == Some(m.driver)
    &&& m.vid == d.vendor
    &&& m.pid == d.product
    &&& m.sid@ == id
    &&& m.serial@ == d.serial@
}

/// Opening device `d` with the driver of its product made the calls `seg` and returned `out`.
pub open spec fn opened(d: Summary, seg: Seq<Transfer>, out: Result<String, IoError>) -> bool {
    match driver_for(d.product) {
        Some(Driver::K64) => k64::open_answers(seg, out),
        Some(Driver::M5) => seg.len() == 0 && (out matches Ok(s) && s@.len() == 0),
        None => false,
    }
}

/// `r` is what opening `devices` in order gives, when the devices it opened made the calls
/// `segs` and returned `outs`: it stops at the first device that is not supported (a protocol
/// error) or that fails to open (that failure).
pub open spec fn open_all_result(
    devices: Seq<Summary>,
    segs: Seq<Seq<Transfer>>,
    outs: Seq<Result<String, IoError>>,
    r: Result<Vec<UsbMetadata>, IoError>,
) -> bool {
    &&& segs.len() == outs.len()
    &&& segs.len() <= devices.len()
    &&& forall|i: int| 0 <= i < segs.len() ==> opened(devices[i], #[trigger] segs[i], outs[i])
    &&& forall|i: int| 0 <= i < segs.len() - 1 ==> #[trigger] outs[i] is Ok
    &&& match r {
        Ok(v) => {
            &&& segs.len() == devices.len()
            &&& v@.len() == devices.len()
            &&& forall|i: int|
                0 <= i < v@.len() ==> (outs[i] matches Ok(id) && metadata_of(
                    #[trigger] v@[i],
                    devices[i],
                    id@,
                ))
        },
        Err(e) => {
            ||| (segs.len() < devices.len() && driver_for(devices[segs.len() as int].product) is None
                && (segs.len() > 0 ==> outs.last() is Ok) && e matches IoError::Usb(
                UsbError::Protocol(_),
            ))
            ||| (segs.len() > 0 && outs.last() == Err::<String, IoError>(e))
        },
    }
}

proof fn lemma_open_all_witness(
    devices: Seq<Summary>,
    u: Seq<Transfer>,
    segs: Seq<Seq<Transfer>>,
    outs: Seq<Result<String, IoError>>,
    r: Result<Vec<UsbMetadata>, IoError>,
)
    requires
        joined(segs) == u,
        open_all_result(devices, segs, outs, r),
    ensures
        exists|s: Seq<Seq<Transfer>>, o: Seq<Result<String, IoError>>|
            joined(s) == u && #[trigger] open_all_result(devices, s, o, r),
{
}

/// Open every enumerated device with the driver of its product, in order; fail on the first
/// device that is not supported or cannot be opened.
pub fn open_all<T: ReaderWriter>(ctx: &mut T, devices: &Vec<Summary>) -> (r: Result<
    Vec<UsbMetadata>,
    IoError,
>)
    ensures
        grew(old(ctx).history(), final(ctx).history()),
        exists|segs: Seq<Seq<Transfer>>, outs: Seq<Result<String, IoError>>|
            joined(segs) == new_calls(old(ctx).history(), final(ctx).history())
                && #[trigger] open_all_result(devices@, segs, outs, r),
        devices@.len() == 0 ==> (r matches Ok(v) && v@.len() == 0),
        (forall|i: int| 0 <= i < devices@.len() ==> #[trigger] devices@[i].product == PID_M5) ==> (r
            is Ok && final(ctx).history() == old(ctx).history()),
{
    let ghost h0 = ctx.history();
    let ghost mut segs: Seq<Seq<Transfer>> = seq![];
    let ghost mut outs: Seq<Result<String, IoError>> = seq![];
    assert(h0 + joined(segs) =~= h0);
    let mut out: Vec<UsbMetadata> = Vec::new();
    let mut i: usize = 0;
    while i < devices.len()
        invariant
            h0 == old(ctx).history(),
            i <= devices@.len(),
            out@.len() == i,
            segs.len() == i,
            outs.len() == i,
            ctx.history() == h0 + joined(segs),
            forall|j: int| 0 <= j < i ==> opened(devices@[j], #[trigger] segs[j], outs[j]),
            forall|j: int|
                0 <= j < i ==> (#[trigger] outs[j] matches Ok(id) && metadata_of(
                    out@[j],
                    devices@[j],
                    id@,
                )),
            (forall|j: int| 0 <= j < i ==> #[trigger] devices@[j].product == PID_M5) ==> joined(segs)
                == Seq::<Transfer>::empty(),
        decreases devices@.len() - i,
    {
        let x = &devices[i];
        let driver = match Driver::for_product(x.product) {
            Some(d) => d,
            None => {
                let e = String::from_str("invalid pid");
                let r = Err(IoError::Usb(UsbError::Protocol(e)));
                proof {
                    crate::k64::lemma_new_calls(h0, joined(segs));
                    lemma_open_all_witness(devices@, joined(segs), segs, outs, r);
                }
                return r;
            },
        };
        let ghost hb = ctx.history();
        let res = driver.open(ctx, x.serial.as_str());
        let ghost resp = res;
        let ghost u = new_calls(hb, ctx.history());
        proof {
            assert(ctx.history() =~= hb + u);
            crate::k64::lemma_joined_push(segs, u);
            assert(h0 + joined(segs) + u =~= h0 + (joined(segs) + u));
            if driver == Driver::M5 {
                assert(u =~= Seq::<Transfer>::empty());
            }
            segs = segs.push(u);
            outs = outs.push(resp);
        }
        let session_id = match res {
            Ok(s) => s,
            Err(e) => {
                let r = Err(e);
                proof {
                    crate::k64::lemma_new_calls(h0, joined(segs));
                    lemma_open_all_witness(devices@, joined(segs), segs, outs, r);
                }
                return r;
            },
        };
        out.push(UsbMetadata::new(session_id.as_str(), driver, x));
        i = i + 1;
        assert forall|j: int| 0 <= j < i implies (#[trigger] outs[j] matches Ok(id) && metadata_of(
            out@[j],
            devices@[j],
            id@,
        )) by {}
    }
    let r = Ok(out);
    proof {
        crate::k64::lemma_new_calls(h0, joined(segs));
        lemma_open_all_witness(devices@, joined(segs), segs, outs, r);
    }
    r
}

} // verus!
