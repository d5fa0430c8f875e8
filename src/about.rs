use vstd::prelude::*;
use crate::json::{get_member, member, JsonValue};

verus! {

/// A device's description of itself.
#[allow(non_snake_case)]
#[derive(Debug, Default)]
pub struct About {
    pub siteId: String,
    pub prjVersion: String,
    pub prjVersionRc: String,
    pub atxVersion: String,
    pub atxVersionRc: String,
    pub sid: String,
    pub mac: String,
    pub product: String,
}

/// The reply to a request for a device's description: `{"about": {...}}`.
#[derive(Debug, Default)]
pub struct AboutResponse {
    pub about: About,
}

/// The text held under `key`, if the member there is a string.
pub open spec fn text_member(m: Seq<(String, JsonValue)>, key: Seq<char>) -> Option<Seq<char>> {
    match member(m, key) {
        Some(JsonValue::Str(s)) => Some(s@),
        _ => None,
    }
}

/// The members of the object under `"about"`.
pub open spec fn about_members(j: JsonValue) -> Option<Seq<(String, JsonValue)>> {
    match j {
        JsonValue::Object(m) => match member(m@, "about"@) {
            Some(JsonValue::Object(a)) => Some(a@),
            _ => None,
        },
        _ => None,
    }
}

/// `x` is the description that `j` holds: every field is the string under its name.
pub open spec fn is_about_of(x: AboutResponse, j: JsonValue) -> bool {
    match about_members(j) {
        Some(a) => {
            &&& text_member(a, "siteId"@) == Some(x.about.siteId@)
            &&& text_member(a, "prjVersion"@) == Some(x.about.prjVersion@)
            &&& text_member(a, "prjVersionRc"@) == Some(x.about.prjVersionRc@)
            &&& text_member(a, "atxVersion"@) == Some(x.about.atxVersion@)
            &&& text_member(a, "atxVersionRc"@) == Some(x.about.atxVersionRc@)
            &&& text_member(a, "sid"@) == Some(x.about.sid@)
            &&& text_member(a, "mac"@) == Some(x.about.mac@)
            &&& text_member(a, "product"@) == Some(x.about.product@)
        },
        None => false,
    }
}

/// `j` holds a description: an `"about"` object with every field a string.
pub open spec fn has_about(j: JsonValue) -> bool {
    match about_members(j) {
        Some(a) => {
            &&& text_member(a, "siteId"@) is Some
            &&& text_member(a, "prjVersion"@) is Some
            &&& text_member(a, "prjVersionRc"@) is Some
            &&& text_member(a, "atxVersion"@) is Some
            &&& text_member(a, "atxVersionRc"@) is Some
            &&& text_member(a, "sid"@) is Some
            &&& text_member(a, "mac"@) is Some
            &&& text_member(a, "product"@) is Some
        },
        None => false,
    }
}

/// The session id that a parsed reply describes, if it is a description.
pub open spec fn about_sid(j: Option<JsonValue>) -> Option<Seq<char>> {
    match j {
        Some(v) => if has_about(v) {
            text_member(about_members(v)->Some_0, "sid"@)
        } else {
            None
        },
        None => None,
    }
}

/// The string under `key`, if the member there is a string.
pub fn text_of(m: &Vec<(String, JsonValue)>, key: &str) -> (r: Option<String>)
    ensures
        r matches Some(s) ==> text_member(m@, key@) == Some(s@),
        r is None ==> text_member(m@, key@) is None,
{
    match get_member(m, key) {
        Some(JsonValue::Str(s)) => Some(s.clone()),
        _ => None,
    }
}

impl AboutResponse {
    /// Read a description from a parsed reply.
    pub fn from_json(j: &JsonValue) -> (r: Option<AboutResponse>)
        ensures
            r is Some <==> has_about(*j),
            r matches Some(x) ==> is_about_of(x, *j),
    {
        let m = match j {
            JsonValue::Object(m) => m,
            _ => return None,
        };
        let a = match get_member(m, "about") {
            Some(JsonValue::Object(a)) => a,
            _ => return None,
        };
        let site_id = match text_of(a, "siteId") { Some(s) => s, None => return None };
        let prj_version = match text_of(a, "prjVersion") { Some(s) => s, None => return None };
        let prj_version_rc = match text_of(a, "prjVersionRc") { Some(s) => s, None => return None };
        let atx_version = match text_of(a, "atxVersion") { Some(s) => s, None => return None };
        let atx_version_rc = match text_of(a, "atxVersionRc") { Some(s) => s, None => return None };
        let sid = match text_of(a, "sid") { Some(s) => s, None => return None };
        let mac = match text_of(a, "mac") { Some(s) => s, None => return None };
        let product = match text_of(a, "product") { Some(s) => s, None => return None };
        Some(AboutResponse {
            about: About {
                siteId: site_id,
                prjVersion: prj_version,
                prjVersionRc: prj_version_rc,
                atxVersion: atx_version,
                atxVersionRc: atx_version_rc,
                sid,
                mac,
                product,
            },
        })
    }
}

} // verus!
