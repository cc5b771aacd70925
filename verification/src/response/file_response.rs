//! The response built around the content of a static file.

use vstd::prelude::*;
use vstd::string::StringSliceAdditionalSpecFns;

use crate::bytes::dec_digits;
use crate::bytes::lemma_dec_digits_value;
use crate::bytes::str_bytes;
use crate::bytes::u64_to_dec;
use crate::headers::put;
use crate::headers::Headers;
use crate::response::body_view;
use crate::response::Response;
use crate::utils::extension_of;
use crate::utils::get_content_type;
use crate::utils::mime_for;

verus! {

/// A static file to serve: the status on success, the path the content was
/// read from (which decides the `Content-Type`), and extra headers.
pub struct FileResponse {
    pub status_code: u16,
    pub file_path: Vec<u8>,
    pub headers: Option<Headers>,
}

/// The extra headers of a file response, or an empty table.
pub open spec fn base_headers(h: &Option<Headers>) -> Seq<(Seq<u8>, Seq<u8>)> {
    match h {
        Some(t) => t@,
        None => Seq::empty(),
    }
}

impl FileResponse {
    /// The extra headers, if any, must themselves be well formed.
    pub open spec fn wf(&self) -> bool {
        match self.headers {
            Some(ref t) => t.wf(),
            None => true,
        }
    }

    /// The response that serves `content`, read from `file_path` by the
    /// caller: the file's bytes under its resolved MIME type, or the fixed
    /// not-found response when the file could not be read.
    pub fn into_response(self, content: Option<Vec<u8>>) -> (r: Response)
        requires
            self.wf(),
        ensures
            r.headers.wf(),
            match content {
                Some(data) => {
                    &&& r.status_code == self.status_code
                    &&& r.headers@ == put(
                        put(
                            base_headers(&self.headers),
                            "Content-Type".spec_bytes(),
                            vstd::utf8::encode_utf8(mime_for(extension_of(self.file_path@))),
                        ),
                        "Content-Length".spec_bytes(),
                        dec_digits(data@.len() as int),
                    )
                    &&& body_view(&r) == Some(data@)
                },
                None => {
                    &&& r.status_code == 404
                    &&& r.headers@ == put(
                        put(
                            base_headers(&self.headers),
                            "Content-Type".spec_bytes(),
                            "text/plain".spec_bytes(),
                        ),
                        "Content-Length".spec_bytes(),
                        dec_digits("404 Not Found".spec_bytes().len() as int),
                    )
                    &&& body_view(&r) == Some("404 Not Found".spec_bytes())
                },
            },
    {
        let mut headers = match self.headers {
            Some(t) => t,
            None => Headers::new(),
        };
        match content {
            Some(data) => {
                let mime = get_content_type(self.file_path.as_slice());
                headers.insert(str_bytes("Content-Type"), str_bytes(mime));
                let len_bytes = u64_to_dec(data.len() as u64);
                proof {
                    lemma_dec_digits_value(data@.len() as int);
                }
                headers.insert(str_bytes("Content-Length"), len_bytes);
                Response { status_code: self.status_code, headers, body: Some(data) }
            },
            None => {
                let body = str_bytes("404 Not Found");
                headers.insert(str_bytes("Content-Type"), str_bytes("text/plain"));
                let len_bytes = u64_to_dec(body.len() as u64);
                headers.insert(str_bytes("Content-Length"), len_bytes);
                Response { status_code: 404, headers, body: Some(body) }
            },
        }
    }
}

} // verus!
