use vstd::prelude::*;
use crate::errors::{AppError, ErrorKind};

verus! {

/// The envelope the front end wraps every successful answer in.
pub struct APIResponse<T> {
    pub status_code: i32,
    pub message: String,
    pub data: T,
}

impl<T> APIResponse<T> {
    /// A successful envelope around `data`.
    pub fn success(message: &str, data: T) -> (r: Self)
        ensures
            r.status_code == 200,
            r.message@ == message@,
            r.data == data,
    {
        APIResponse { status_code: 200, message: message.to_string(), data }
    }
}

/// A request to benchmark the codecs over a text, in one thread or many.
pub struct CompressRequest {
    pub text: Vec<u8>,
    pub multithread: bool,
}

impl CompressRequest {
    /// Rejects an empty text; anything else is fit to benchmark.
    pub fn validate(&self) -> (r: Result<(), AppError>)
        ensures
            r is Ok <==> self.text@.len() > 0,
            r is Err ==> r.get_Err_0().kind == ErrorKind::FailedAction
                && r.get_Err_0().status_code == 400 && r.get_Err_0().message@
                == "text cannot be empty"@,
    {
        if self.text.len() == 0 {
            return Err(AppError::new("text cannot be empty", ErrorKind::FailedAction));
        }
        Ok(())
    }
}

} // verus!
