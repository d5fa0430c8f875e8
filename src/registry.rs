use vstd::prelude::*;
use crate::device::UsbMetadata;
use crate::error::IoError;
use crate::request::Request;

verus! {

/// The devices found by scans, each under its caller-facing serial (at most one per serial).
pub struct Registry {
    channels: Vec<UsbMetadata>,
}

impl Registry {
    /// The registered devices, in order of first registration.
    pub closed spec fn entries(&self) -> Seq<UsbMetadata> {
        self.channels@
    }

    /// No serial is registered twice.
    pub open spec fn wf(&self) -> bool {
        forall|i: int, j: int|
            0 <= i < j < self.entries().len() ==> #[trigger] self.entries()[i].serial@
                != #[trigger] self.entries()[j].serial@
    }

    #[verifier::type_invariant]
    spec fn inv(&self) -> bool {
        self.wf()
    }

    /// A device is registered under `serial`.
    pub open spec fn has(&self, serial: Seq<char>) -> bool {
        exists|i: int| 0 <= i < self.entries().len() && #[trigger] self.entries()[i].serial@ == serial
    }

    /// The device registered under `serial`.
    pub open spec fn lookup(&self, serial: Seq<char>) -> UsbMetadata
        recommends
            self.has(serial),
    {
        self.entries()[choose|i: int|
            0 <= i < self.entries().len() && #[trigger] self.entries()[i].serial@ == serial]
    }

    /// An empty registry.
    pub fn new() -> (r: Self)
        ensures
            r.entries().len() == 0,
    {
        Registry { channels: Vec::new() }
    }

    /// In a registry without repeated serials, the device at `i` is the one under its serial.
    proof fn lemma_lookup_at(r: &Registry, i: int)
        requires
            r.wf(),
            0 <= i < r.entries().len(),
        ensures
            r.has(r.entries()[i].serial@),
            r.lookup(r.entries()[i].serial@) == r.entries()[i],
    {
        let s = r.entries()[i].serial@;
        assert(r.entries()[i].serial@ == s);
        let j = choose|j: int| 0 <= j < r.entries().len() && #[trigger] r.entries()[j].serial@ == s;
        if j < i {
            assert(r.entries()[j].serial@ != r.entries()[i].serial@);
        } else if i < j {
            assert(r.entries()[i].serial@ != r.entries()[j].serial@);
        }
    }

    /// Register a device under its serial, replacing the device registered there before.
    pub fn insert(&mut self, m: UsbMetadata)
        ensures
            final(self).has(m.serial@),
            final(self).lookup(m.serial@) == m,
            forall|s: Seq<char>|
                s != m.serial@ ==> (final(self).has(s) == old(self).has(s) && (old(self).has(s)
                    ==> final(self).lookup(s) == old(self).lookup(s))),
    {
        proof {
            use_type_invariant(&*self);
        }
        let ghost e0 = self.channels@;
        let ghost r0 = *self;
        let ghost sm = m.serial@;
        let mut i: usize = 0;
        while i < self.channels.len()
            invariant
                self.channels@ == e0,
                r0.entries() == e0,
                r0.wf(),
                r0 == *old(self),
                sm == m.serial@,
                i <= e0.len(),
                forall|k: int| 0 <= k < i ==> #[trigger] e0[k].serial@ != sm,
            decreases e0.len() - i,
        {
            if self.channels[i].serial == m.serial {
                let mut v: Vec<UsbMetadata> = Vec::new();
                std::mem::swap(&mut self.channels, &mut v);
                v.set(i, m);
                let ghost e1 = v@;
                assert(e1[i as int].serial@ == sm);
                assert forall|a: int, b: int| 0 <= a < b < e1.len() implies #[trigger] e1[a].serial@
                    != #[trigger] e1[b].serial@ by {
                    assert(e0[a].serial@ == e1[a].serial@);
                    assert(e0[b].serial@ == e1[b].serial@);
                }
                std::mem::swap(&mut self.channels, &mut v);
                proof {
                    Self::lemma_lookup_at(self, i as int);
                }
                assert forall|s: Seq<char>| s != sm implies (self.has(s) == r0.has(s) && (r0.has(s)
                    ==> self.lookup(s) == r0.lookup(s))) by {
                    if r0.has(s) {
                        let k = choose|k: int| 0 <= k < e0.len() && #[trigger] e0[k].serial@ == s;
                        assert(e1[k] == e0[k]);
                        Self::lemma_lookup_at(self, k);
                        Self::lemma_lookup_at(&r0, k);
                    }
                    if self.has(s) {
                        let k = choose|k: int| 0 <= k < e1.len() && #[trigger] e1[k].serial@ == s;
                        assert(e0[k].serial@ == s);
                    }
                }
                return;
            }
            i = i + 1;
        }
        let mut v: Vec<UsbMetadata> = Vec::new();
        std::mem::swap(&mut self.channels, &mut v);
        v.push(m);
        let ghost e1 = v@;
        assert(e1[e0.len() as int].serial@ == sm);
        assert forall|a: int, b: int| 0 <= a < b < e1.len() implies #[trigger] e1[a].serial@
            != #[trigger] e1[b].serial@ by {
            assert(e0[a].serial@ == e1[a].serial@);
            if b < e0.len() {
                assert(e0[b].serial@ == e1[b].serial@);
            }
        }
        std::mem::swap(&mut self.channels, &mut v);
        proof {
            Self::lemma_lookup_at(self, e0.len() as int);
        }
        assert forall|s: Seq<char>| s != sm implies (self.has(s) == r0.has(s) && (r0.has(s)
            ==> self.lookup(s) == r0.lookup(s))) by {
            if r0.has(s) {
                let k = choose|k: int| 0 <= k < e0.len() && #[trigger] e0[k].serial@ == s;
                assert(e1[k] == e0[k]);
                Self::lemma_lookup_at(self, k);
                Self::lemma_lookup_at(&r0, k);
            }
            if self.has(s) {
                let k = choose|k: int| 0 <= k < e1.len() && #[trigger] e1[k].serial@ == s;
                assert(e0[k].serial@ == s);
            }
        }
    }

    /// Register every device of a scan; return the devices, in order.
    pub fn register_all(&mut self, metas: Vec<UsbMetadata>) -> (r: Vec<UsbMetadata>)
        ensures
            r@ == metas@,
            forall|s: Seq<char>|
                match #[trigger] last_with(metas@, s) {
                    Some(m) => final(self).has(s) && final(self).lookup(s) == m,
                    None => final(self).has(s) == old(self).has(s) && (old(self).has(s)
                        ==> final(self).lookup(s) == old(self).lookup(s)),
                },
    {
        let mut i: usize = 0;
        let mut out: Vec<UsbMetadata> = Vec::new();
        while i < metas.len()
            invariant
                i <= metas@.len(),
                out@ == metas@.subrange(0, i as int),
                forall|s: Seq<char>|
                    match #[trigger] last_with(metas@.take(i as int), s) {
                        Some(m) => self.has(s) && self.lookup(s) == m,
                        None => self.has(s) == old(self).has(s) && (old(self).has(s)
                            ==> self.lookup(s) == old(self).lookup(s)),
                    },
            decreases metas@.len() - i,
        {
            let m = metas[i].copied();
            let ghost prev = *self;
            self.insert(m);
            out.push(metas[i].copied());
            assert(metas@.take(i + 1).drop_last() =~= metas@.take(i as int));
            assert(metas@.take(i + 1).last() == metas@[i as int]);
            assert forall|s: Seq<char>|
                match #[trigger] last_with(metas@.take(i + 1), s) {
                    Some(x) => self.has(s) && self.lookup(s) == x,
                    None => self.has(s) == old(self).has(s) && (old(self).has(s)
                        ==> self.lookup(s) == old(self).lookup(s)),
                } by {
                if s != m.serial@ {
                    assert(last_with(metas@.take(i + 1), s) == last_with(metas@.take(i as int), s));
                }
            }
            i = i + 1;
            assert(out@ =~= metas@.subrange(0, i as int));
        }
        assert(out@ =~= metas@);
        assert(metas@.take(metas@.len() as int) =~= metas@);
        out
    }

    /// The device registered under `serial`, or `DeviceNotFound`.
    pub fn get(&self, serial: &str) -> (r: Result<&UsbMetadata, IoError>)
        ensures
            r is Ok <==> self.has(serial@),
            r matches Ok(m) ==> *m == self.lookup(serial@),
            r matches Err(e) ==> (e matches IoError::DeviceNotFound(x) && x@ == serial@),
    {
        proof {
            use_type_invariant(self);
        }
        let key = serial.to_owned();
        let mut i: usize = 0;
        while i < self.channels.len()
            invariant
                self.wf(),
                key@ == serial@,
                i <= self.entries().len(),
                forall|k: int| 0 <= k < i ==> #[trigger] self.entries()[k].serial@ != serial@,
            decreases self.entries().len() - i,
        {
            if self.channels[i].serial == key {
                proof {
                    Self::lemma_lookup_at(self, i as int);
                }
                return Ok(&self.channels[i]);
            }
            i = i + 1;
        }
        Err(IoError::DeviceNotFound(key))
    }

    /// Copies of the registered devices.
    pub fn meta(&self) -> (r: Vec<UsbMetadata>)
        ensures
            r@ == self.entries(),
    {
        let mut out: Vec<UsbMetadata> = Vec::new();
        let mut i: usize = 0;
        while i < self.channels.len()
            invariant
                i <= self.entries().len(),
                out@ == self.entries().subrange(0, i as int),
            decreases self.entries().len() - i,
        {
            out.push(self.channels[i].copied());
            i = i + 1;
            assert(out@ =~= self.entries().subrange(0, i as int));
        }
        assert(out@ =~= self.entries());
        out
    }

    /// Drop every registered device.
    pub fn clear(&mut self)
        ensures
            final(self).entries().len() == 0,
    {
        self.channels = Vec::new();
    }
}

/// The last of `metas` registered under `serial`, if any.
pub open spec fn last_with(metas: Seq<UsbMetadata>, serial: Seq<char>) -> Option<UsbMetadata>
    decreases metas.len(),
{
    if metas.len() == 0 {
        None
    } else if metas.last().serial@ == serial {
        Some(metas.last())
    } else {
        last_with(metas.drop_last(), serial)
    }
}

/// The progress of sending an image: requests left (the next at the end) and their total.
pub struct UpdateProgress {
    requests: Vec<Request>,
    total: usize,
}

impl UpdateProgress {
    #[verifier::type_invariant]
    spec fn inv(&self) -> bool {
        self.requests@.len() <= self.total
    }

    /// The requests still to send; the next is the last.
    pub closed spec fn pending(&self) -> Seq<Request> {
        self.requests@
    }

    /// How many requests there were.
    pub closed spec fn total(&self) -> nat {
        self.total as nat
    }

    /// Start sending `requests`, popping from the end.
    pub fn new(requests: Vec<Request>) -> (r: Self)
        ensures
            r.pending() == requests@,
            r.total() == requests@.len(),
    {
        let total = requests.len();
        UpdateProgress { requests, total }
    }

    /// The next request to send, if any is left.
    pub fn next_request(&mut self) -> (r: Option<Request>)
        ensures
            final(self).total() == old(self).total(),
            old(self).pending().len() == 0 ==> r is None && final(self).pending() == old(self).pending(),
            old(self).pending().len() > 0 ==> r == Some(old(self).pending().last())
                && final(self).pending() == old(self).pending().drop_last(),
    {
        proof {
            use_type_invariant(&*self);
        }
        let mut v: Vec<Request> = Vec::new();
        std::mem::swap(&mut self.requests, &mut v);
        let r = v.pop();
        std::mem::swap(&mut self.requests, &mut v);
        r
    }

    /// Stop after a request failed: nothing more is sent.
    pub fn fail(&mut self)
        ensures
            final(self).pending().len() == 0,
            final(self).total() == old(self).total(),
    {
        let mut v: Vec<Request> = Vec::new();
        std::mem::swap(&mut self.requests, &mut v);
    }

    /// How many requests have been sent, and how many there are.
    pub fn progress(&self) -> (r: (usize, usize))
        ensures
            self.pending().len() <= self.total(),
            r.0 == self.total() - self.pending().len(),
            r.1 == self.total(),
    {
        proof {
            use_type_invariant(self);
        }
        (self.total - self.requests.len(), self.total)
    }
}

/// Whether the transport's worker thread still runs.
pub struct Lifecycle {
    running: bool,
}

impl Lifecycle {
    pub closed spec fn is_running(&self) -> bool {
        self.running
    }

    /// A transport whose worker has just been started.
    pub fn started() -> (r: Self)
        ensures
            r.is_running(),
    {
        Lifecycle { running: true }
    }

    /// Close the transport. Returns whether the worker must now be told to stop and be
    /// joined: only on the first call.
    pub fn close(&mut self) -> (join: bool)
        ensures
            join == old(self).is_running(),
            !final(self).is_running(),
    {
        let join = self.running;
        self.running = false;
        join
    }

    /// Check that the transport may be released: it must have been closed.
    pub fn check_released(&self) -> (r: Result<(), IoError>)
        ensures
            r is Ok <==> !self.is_running(),
            r matches Err(e) ==> e is Impossible,
    {
        if self.running {
            Err(IoError::Impossible("transport released without close".to_string()))
        } else {
            Ok(())
        }
    }
}

/// The kinds of operation that the transport's worker serves.
#[derive(Debug, Clone, Copy, PartialEq, Eq, Structural)]
pub enum Operation {
    Scan,
    Device,
    Close,
}

/// Whether the worker goes on after taking an operation whose reply was (or was not)
/// delivered: it stops on `Close`, and on a reply that nobody can receive.
pub open spec fn worker_continues(op: Operation, delivered: bool) -> bool {
    op != Operation::Close && delivered
}

/// Decide whether the worker goes on.
pub fn continues(op: Operation, delivered: bool) -> (r: bool)
    ensures
        r == worker_continues(op, delivered),
{
    match op {
        Operation::Close => false,
        _ => delivered,
    }
}

/// The operations that the worker serves from a queue, in order, when every reply is
/// delivered: all of them up to the first `Close`.
pub open spec fn served(queue: Seq<Operation>) -> Seq<Operation>
    decreases queue.len(),
{
    if queue.len() == 0 {
        seq![]
    } else if worker_continues(queue[0], true) {
        seq![queue[0]].add(served(queue.drop_first()))
    } else {
        seq![]
    }
}

/// Closing drains the queue: every operation submitted before `Close` is served, in order,
/// and nothing after it.
pub proof fn lemma_close_drains(queue: Seq<Operation>, c: int)
    requires
        0 <= c < queue.len(),
        queue[c] == Operation::Close,
        forall|i: int| 0 <= i < c ==> queue[i] != Operation::Close,
    ensures
        served(queue) == queue.take(c),
    decreases c,
{
    if c == 0 {
        assert(queue.take(0) =~= seq![]);
    } else {
        lemma_close_drains(queue.drop_first(), c - 1);
        assert(queue.take(c) =~= seq![queue[0]].add(queue.drop_first().take(c - 1)));
    }
}

} // verus!
