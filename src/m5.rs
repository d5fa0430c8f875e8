use vstd::prelude::*;
use crate::driver::ReaderWriter;
use crate::error::IoError;
use crate::request::Request;

verus! {

/// Placeholder driver of the M5 family: every request succeeds with an empty reply.
pub fn request_raw<T: ReaderWriter>(ctx: &mut T, sid: &str, r: Request) -> (result: Result<
    String,
    IoError,
>)
    ensures
        result matches Ok(s) && s@.len() == 0,
        *final(ctx) == *old(ctx),
{
    Ok(String::new())
}

/// Placeholder of the M5 family: the session id is empty.
pub fn open<T: ReaderWriter>(ctx: &mut T, sid: &str) -> (r: Result<String, IoError>)
    ensures
        r matches Ok(s) && s@.len() == 0,
        *final(ctx) == *old(ctx),
{
    Ok(String::new())
}

} // verus!
