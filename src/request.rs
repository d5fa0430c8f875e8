use vstd::prelude::*;

verus! {

/// A request to a device: a method and a path, and for `Post` a body.
#[derive(Debug, Clone, PartialEq, Eq)]
pub enum Request {
    /// Get Request accepts a Path
    Get(String),
    /// Post Request accepts a Path, and Data string
    Post(String, String),
    /// Delete Request accepts a Path
    Delete(String),
}

/// The characters of a method name.
pub open spec fn get_chars() -> Seq<char> {
    seq!['G', 'E', 'T']
}

pub open spec fn post_chars() -> Seq<char> {
    seq!['P', 'O', 'S', 'T']
}

pub open spec fn delete_chars() -> Seq<char> {
    seq!['D', 'E', 'L', 'E', 'T', 'E']
}

impl Request {
    /// The wire form of a request: its fields joined by NUL characters.
    pub open spec fn wire(self) -> Seq<char> {
        match self {
            Request::Get(p) => get_chars() + seq!['\0'] + p@,
            Request::Post(p, b) => post_chars() + seq!['\0'] + p@ + seq!['\0'] + b@,
            Request::Delete(p) => delete_chars() + seq!['\0'] + p@,
        }
    }

    /// Helper routine to extract typical arguments for building URL
    pub fn format_with_null_terminators(&self) -> (r: String)
        ensures
            r@ == self.wire(),
    {
        let sep = "\0";
        proof {
            reveal_strlit("\0");
            reveal_strlit("GET");
            reveal_strlit("POST");
            reveal_strlit("DELETE");
        }
        match self {
            Request::Get(path) => {
                let mut s = String::from_str("GET");
                s.append(sep);
                s.append(path.as_str());
                s
            },
            Request::Post(p, b) => {
                let mut s = String::from_str("POST");
                s.append(sep);
                s.append(p.as_str());
                s.append(sep);
                s.append(b.as_str());
                s
            },
            Request::Delete(path) => {
                let mut s = String::from_str("DELETE");
                s.append(sep);
                s.append(path.as_str());
                s
            },
        }
    }

    /// Create a GET request
    pub fn get(path: &str) -> (r: Self)
        ensures
            r matches Request::Get(p) && p@ == path@,
    {
        Request::Get(path.to_owned())
    }

    /// Create a POST request with a body given as text
    pub fn post_raw(path: &str, data: &str) -> (r: Self)
        ensures
            r matches Request::Post(p, b) && p@ == path@ && b@ == data@,
    {
        Request::Post(path.to_owned(), data.to_owned())
    }

    /// Create a DELETE request (the serial names the device and is not part of the request)
    pub fn delete(serial: &str, path: &str) -> (r: Self)
        ensures
            r matches Request::Delete(p) && p@ == path@,
    {
        Request::Delete(path.to_owned())
    }
}

} // verus!
