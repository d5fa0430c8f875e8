use vstd::prelude::*;
use crate::about::{text_member, text_of};
use crate::error::IoError;
use crate::json::{get_member, json_of, member, parse_json, JsonValue};
use crate::request::Request;

verus! {

/// One record of an update image.
#[derive(Debug, Clone, Default)]
pub struct Update {
    /// the record's `"type"`
    pub kind: String,
    pub size: u32,
    pub offset: u32,
    pub payload: String,
    pub md5: String,
}

/// The records of one image, in order.
#[derive(Debug, Clone, Default)]
pub struct DashboardUpdateImage {
    pub update: Vec<Update>,
}

/// An update bundle: its images, in order.
#[derive(Debug, Clone, Default)]
pub struct DashboardUpdate {
    pub files: Vec<DashboardUpdateImage>,
}

/// The requests that send a bundle's firmware image (`.0`) and website image (`.1`), each
/// reversed so that popping from the end sends them in the bundle's order.
pub struct DashboardUpdatePackets(pub Vec<Request>, pub Vec<Request>);

/// A lowercase hexadecimal digit.
pub open spec fn hex_digit(d: u32) -> char {
    if d < 10 {
        digit_char(d as nat)
    } else if d == 10 { 'a' } else if d == 11 { 'b' } else if d == 12 { 'c' } else if d == 13 {
        'd'
    } else if d == 14 { 'e' } else { 'f' }
}

/// How a character stands inside a JSON string: quote and backslash escaped, the control
/// characters as `\b \t \n \f \r` or `\u00xx`, every other character as itself.
pub open spec fn json_escape(c: char) -> Seq<char> {
    if c == '"' {
        seq!['\\', '"']
    } else if c == '\\' {
        seq!['\\', '\\']
    } else if c == '\x08' {
        seq!['\\', 'b']
    } else if c == '\t' {
        seq!['\\', 't']
    } else if c == '\n' {
        seq!['\\', 'n']
    } else if c == '\x0c' {
        seq!['\\', 'f']
    } else if c == '\r' {
        seq!['\\', 'r']
    } else if (c as u32) < 0x20 {
        seq!['\\', 'u', '0', '0', hex_digit((c as u32) / 16), hex_digit((c as u32) % 16)]
    } else {
        seq![c]
    }
}

/// The characters of a string, each as it stands inside a JSON string.
pub open spec fn json_escaped(s: Seq<char>) -> Seq<char>
    decreases s.len(),
{
    if s.len() == 0 {
        seq![]
    } else {
        json_escaped(s.drop_last()) + json_escape(s.last())
    }
}

/// The JSON text of a string: quoted, with its characters escaped.
pub open spec fn json_quoted(s: Seq<char>) -> Seq<char> {
    seq!['"'] + json_escaped(s) + seq!['"']
}

/// Relies on serde_json::to_string on a string slice: writes it quoted, escaping with the
/// table of `json_escape`. It cannot fail on a string slice, so the fallback is never taken.
#[verifier::external_body]
fn quote_json(s: &str) -> (r: String)
    ensures
        r@ == json_quoted(s@),
{
    serde_json::to_string(s).unwrap_or_default()
}

/// The decimal digits of `n`.
pub open spec fn decimal(n: nat) -> Seq<char>
    decreases n,
{
    if n < 10 {
        seq![digit_char(n)]
    } else {
        decimal(n / 10).push(digit_char(n % 10))
    }
}

pub open spec fn digit_char(d: nat) -> char {
    if d == 0 { '0' } else if d == 1 { '1' } else if d == 2 { '2' } else if d == 3 { '3' }
    else if d == 4 { '4' } else if d == 5 { '5' } else if d == 6 { '6' } else if d == 7 { '7' }
    else if d == 8 { '8' } else { '9' }
}

fn digit_str(d: u32) -> (r: &'static str)
    requires
        d < 10,
    ensures
        r@ == seq![digit_char(d as nat)],
{
    proof {
        reveal_strlit("0");
        reveal_strlit("1");
        reveal_strlit("2");
        reveal_strlit("3");
        reveal_strlit("4");
        reveal_strlit("5");
        reveal_strlit("6");
        reveal_strlit("7");
        reveal_strlit("8");
        reveal_strlit("9");
    }
    let r = if d == 0 { "0" } else if d == 1 { "1" } else if d == 2 { "2" } else if d == 3 { "3" }
    else if d == 4 { "4" } else if d == 5 { "5" } else if d == 6 { "6" } else if d == 7 { "7" }
    else if d == 8 { "8" } else { "9" };
    assert(r@ =~= seq![digit_char(d as nat)]);
    r
}

/// The decimal text of `n`.
pub fn decimal_text(n: u32) -> (r: String)
    ensures
        r@ == decimal(n as nat),
    decreases n,
{
    if n < 10 {
        String::from_str(digit_str(n))
    } else {
        let mut s = decimal_text(n / 10);
        s.append(digit_str(n % 10));
        s
    }
}

/// The JSON text of a record: its fields in order, without spaces.
pub open spec fn update_body(u: Update) -> Seq<char> {
    "{\"type\":"@ + json_quoted(u.kind@) + ",\"size\":"@ + decimal(u.size as nat)
        + ",\"offset\":"@ + decimal(u.offset as nat) + ",\"payload\":"@ + json_quoted(u.payload@)
        + ",\"md5\":"@ + json_quoted(u.md5@) + "}"@
}

/// The unsigned 32-bit number under `key`, if the member there is one.
pub open spec fn u32_member(m: Seq<(String, JsonValue)>, key: Seq<char>) -> Option<u32> {
    match member(m, key) {
        Some(JsonValue::Number(Some(i))) => if 0 <= i <= u32::MAX {
            Some(i as u32)
        } else {
            None
        },
        _ => None,
    }
}

/// `u` is the record that `v` holds.
pub open spec fn is_update_of(u: Update, v: JsonValue) -> bool {
    match v {
        JsonValue::Object(m) => {
            &&& text_member(m@, "type"@) == Some(u.kind@)
            &&& u32_member(m@, "size"@) == Some(u.size)
            &&& u32_member(m@, "offset"@) == Some(u.offset)
            &&& text_member(m@, "payload"@) == Some(u.payload@)
            &&& text_member(m@, "md5"@) == Some(u.md5@)
        },
        _ => false,
    }
}

/// `v` holds a record: an object with every field of the right type.
pub open spec fn is_record(v: JsonValue) -> bool {
    match v {
        JsonValue::Object(m) => {
            &&& text_member(m@, "type"@) is Some
            &&& u32_member(m@, "size"@) is Some
            &&& u32_member(m@, "offset"@) is Some
            &&& text_member(m@, "payload"@) is Some
            &&& text_member(m@, "md5"@) is Some
        },
        _ => false,
    }
}

/// The array under `key` of an object.
pub open spec fn array_member(v: JsonValue, key: Seq<char>) -> Option<Seq<JsonValue>> {
    match v {
        JsonValue::Object(m) => match member(m@, key) {
            Some(JsonValue::Array(a)) => Some(a@),
            _ => None,
        },
        _ => None,
    }
}

/// `v` holds an image: an object whose `"update"` is an array of records.
pub open spec fn is_image(v: JsonValue) -> bool {
    &&& array_member(v, "update"@) is Some
    &&& forall|i: int|
        0 <= i < array_member(v, "update"@)->Some_0.len() ==> is_record(
            #[trigger] array_member(v, "update"@)->Some_0[i],
        )
}

/// `j` holds a bundle: an object whose `"files"` is an array of images.
pub open spec fn is_bundle(j: JsonValue) -> bool {
    &&& array_member(j, "files"@) is Some
    &&& forall|i: int|
        0 <= i < array_member(j, "files"@)->Some_0.len() ==> is_image(
            #[trigger] array_member(j, "files"@)->Some_0[i],
        )
}

/// `img` is the image that `v` holds.
pub open spec fn is_image_of(img: DashboardUpdateImage, v: JsonValue) -> bool {
    &&& array_member(v, "update"@) matches Some(a)
    &&& img.update@.len() == a.len()
    &&& forall|i: int| 0 <= i < a.len() ==> is_update_of(#[trigger] img.update@[i], a[i])
}

/// `d` is the bundle that `j` holds.
pub open spec fn is_bundle_of(d: DashboardUpdate, j: JsonValue) -> bool {
    &&& array_member(j, "files"@) matches Some(a)
    &&& d.files@.len() == a.len()
    &&& forall|i: int| 0 <= i < a.len() ==> is_image_of(#[trigger] d.files@[i], a[i])
}

/// `reqs` sends the records of `img` from its last to its first.
pub open spec fn sends_reversed(reqs: Seq<Request>, img: DashboardUpdateImage) -> bool {
    &&& reqs.len() == img.update@.len()
    &&& forall|i: int|
        0 <= i < reqs.len() ==> (#[trigger] reqs[i] matches Request::Post(p, b) && p@
            == "/ATX/exe/update"@ && b@ == update_body(img.update@[reqs.len() - 1 - i]))
}

/// The number of images of a bundle document.
pub open spec fn image_count(j: JsonValue) -> int {
    array_member(j, "files"@)->Some_0.len() as int
}

fn u32_of(m: &Vec<(String, JsonValue)>, key: &str) -> (r: Option<u32>)
    ensures
        r == u32_member(m@, key@),
{
    match get_member(m, key) {
        Some(JsonValue::Number(Some(i))) => {
            if 0 <= *i && *i <= 0xffff_ffff {
                Some(*i as u32)
            } else {
                None
            }
        },
        _ => None,
    }
}

fn array_of<'a>(v: &'a JsonValue, key: &str) -> (r: Option<&'a Vec<JsonValue>>)
    ensures
        r matches Some(a) ==> array_member(*v, key@) == Some(a@),
        r is None ==> array_member(*v, key@) is None,
{
    match v {
        JsonValue::Object(m) => match get_member(m, key) {
            Some(JsonValue::Array(a)) => Some(a),
            _ => None,
        },
        _ => None,
    }
}

impl Update {
    /// Read a record from a parsed value.
    pub fn from_json(v: &JsonValue) -> (r: Option<Update>)
        ensures
            r is Some <==> is_record(*v),
            r matches Some(u) ==> is_update_of(u, *v),
    {
        let m = match v {
            JsonValue::Object(m) => m,
            _ => return None,
        };
        let kind = match text_of(m, "type") { Some(s) => s, None => return None };
        let size = match u32_of(m, "size") { Some(n) => n, None => return None };
        let offset = match u32_of(m, "offset") { Some(n) => n, None => return None };
        let payload = match text_of(m, "payload") { Some(s) => s, None => return None };
        let md5 = match text_of(m, "md5") { Some(s) => s, None => return None };
        Some(Update { kind, size, offset, payload, md5 })
    }

    /// The record as JSON text: the body of the request that sends it.
    pub fn body(&self) -> (r: String)
        ensures
            r@ == update_body(*self),
    {
        let mut s = String::from_str("{\"type\":");
        s.append(quote_json(self.kind.as_str()).as_str());
        s.append(",\"size\":");
        s.append(decimal_text(self.size).as_str());
        s.append(",\"offset\":");
        s.append(decimal_text(self.offset).as_str());
        s.append(",\"payload\":");
        s.append(quote_json(self.payload.as_str()).as_str());
        s.append(",\"md5\":");
        s.append(quote_json(self.md5.as_str()).as_str());
        s.append("}");
        s
    }
}

impl DashboardUpdateImage {
    /// Read an image from a parsed value.
    pub fn from_json(v: &JsonValue) -> (r: Option<DashboardUpdateImage>)
        ensures
            r is Some <==> is_image(*v),
            r matches Some(img) ==> is_image_of(img, *v),
    {
        let a = match array_of(v, "update") {
            Some(a) => a,
            None => return None,
        };
        let mut update: Vec<Update> = Vec::new();
        let mut i: usize = 0;
        while i < a.len()
            invariant
                array_member(*v, "update"@) == Some(a@),
                i <= a@.len(),
                update@.len() == i,
                forall|k: int| 0 <= k < i ==> is_update_of(#[trigger] update@[k], a@[k]),
                forall|k: int| 0 <= k < i ==> is_record(#[trigger] a@[k]),
            decreases a@.len() - i,
        {
            match Update::from_json(&a[i]) {
                Some(u) => update.push(u),
                None => {
                    assert(!is_record(array_member(*v, "update"@)->Some_0[i as int]));
                    return None;
                },
            }
            i = i + 1;
        }
        Some(DashboardUpdateImage { update })
    }
}

impl DashboardUpdate {
    /// Read a bundle from a parsed value.
    pub fn from_json(j: &JsonValue) -> (r: Option<DashboardUpdate>)
        ensures
            r is Some <==> is_bundle(*j),
            r matches Some(d) ==> is_bundle_of(d, *j),
    {
        let a = match array_of(j, "files") {
            Some(a) => a,
            None => return None,
        };
        let mut files: Vec<DashboardUpdateImage> = Vec::new();
        let mut i: usize = 0;
        while i < a.len()
            invariant
                array_member(*j, "files"@) == Some(a@),
                i <= a@.len(),
                files@.len() == i,
                forall|k: int| 0 <= k < i ==> is_image_of(#[trigger] files@[k], a@[k]),
                forall|k: int| 0 <= k < i ==> is_image(#[trigger] a@[k]),
            decreases a@.len() - i,
        {
            match DashboardUpdateImage::from_json(&a[i]) {
                Some(img) => files.push(img),
                None => {
                    assert(!is_image(array_member(*j, "files"@)->Some_0[i as int]));
                    return None;
                },
            }
            i = i + 1;
        }
        Some(DashboardUpdate { files })
    }
}

impl DashboardUpdatePackets {
    /// Take an update image and return its requests, last record first
    fn map_requests(update: &DashboardUpdateImage) -> (r: Vec<Request>)
        ensures
            sends_reversed(r@, *update),
    {
        let n = update.update.len();
        let mut out: Vec<Request> = Vec::new();
        let mut k: usize = 0;
        while k < n
            invariant
                n == update.update@.len(),
                k <= n,
                out@.len() == k,
                forall|i: int|
                    0 <= i < k ==> (#[trigger] out@[i] matches Request::Post(p, b) && p@
                        == "/ATX/exe/update"@ && b@ == update_body(update.update@[n - 1 - i])),
            decreases n - k,
        {
            let u = &update.update[n - 1 - k];
            out.push(Request::post_raw("/ATX/exe/update", u.body().as_str()));
            k = k + 1;
        }
        out
    }

    /// We have a JSON string Dashboard Update and we want a vec of requests: the last image
    /// is the website, the one before it the firmware.
    pub fn parse(u: &str) -> (r: Result<Self, IoError>)
        ensures
            r is Ok <==> (json_of(u@) matches Some(j) && is_bundle(j) && image_count(j) >= 2),
            r matches Err(e) ==> e is Parser,
            r matches Ok(p) ==> exists|d: DashboardUpdate|
                is_bundle_of(d, json_of(u@)->Some_0) && d.files@.len() >= 2 && sends_reversed(
                    p.0@,
                    #[trigger] d.files@[d.files@.len() - 2],
                ) && sends_reversed(p.1@, d.files@[d.files@.len() - 1]),
    {
        let j = match parse_json(u) {
            Some(j) => j,
            None => return Err(IoError::Parser("update file is not JSON".to_string())),
        };
        let d = match DashboardUpdate::from_json(&j) {
            Some(d) => d,
            None => return Err(IoError::Parser("bad update file".to_string())),
        };
        let n = d.files.len();
        if n < 2 {
            return Err(IoError::Parser("bad update file".to_string()));
        }
        let website = Self::map_requests(&d.files[n - 1]);
        let firmware = Self::map_requests(&d.files[n - 2]);
        Ok(DashboardUpdatePackets(firmware, website))
    }

    /// The requests of one image: the firmware for image 0, the website for any other.
    pub fn image(self, image: u8) -> (r: Vec<Request>)
        ensures
            image == 0 ==> r@ == self.0@,
            image != 0 ==> r@ == self.1@,
    {
        if image == 0 {
            self.0
        } else {
            self.1
        }
    }
}


/// Draining requests from the tail sends an image's records in the bundle's order: the
/// `k`-th request popped sends record `k`.
pub proof fn lemma_drain_in_bundle_order(reqs: Seq<Request>, img: DashboardUpdateImage, k: int)
    requires
        sends_reversed(reqs, img),
        0 <= k < reqs.len(),
    ensures
        reqs[reqs.len() - 1 - k] matches Request::Post(p, b) && p@ == "/ATX/exe/update"@ && b@
            == update_body(img.update@[k]),
{
    let i = reqs.len() - 1 - k;
    assert(reqs.len() - 1 - i == k);
}

} // verus!
