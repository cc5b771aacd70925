//! The MIME resolver: a pure lookup from a file path's extension to the
//! `Content-Type` string it is served with.

use vstd::prelude::*;
use vstd::string::StringSliceAdditionalSpecFns;

use crate::bytes::bytes_eq;
use crate::bytes::subvec;

verus! {

/// Index of the last occurrence of `b` in `s`, if any.
pub open spec fn rfind_byte(s: Seq<u8>, b: u8) -> Option<int>
    decreases s.len(),
{
    if s.len() == 0 {
        None
    } else if s.last() == b {
        Some(s.len() - 1)
    } else {
        rfind_byte(s.drop_last(), b)
    }
}

/// `rfind_byte` finds the last occurrence: the found byte matches and
/// nothing after it does; `None` means the byte does not occur.
pub proof fn lemma_rfind_byte_props(s: Seq<u8>, b: u8)
    ensures
        match rfind_byte(s, b) {
            Some(i) => 0 <= i < s.len() && s[i] == b && forall|j: int|
                i < j < s.len() ==> s[j] != b,
            None => forall|j: int| 0 <= j < s.len() ==> s[j] != b,
        },
    decreases s.len(),
{
    if s.len() == 0 {
    } else if s.last() == b {
    } else {
        lemma_rfind_byte_props(s.drop_last(), b);
        assert(forall|j: int| 0 <= j < s.len() - 1 ==> s.drop_last()[j] == #[trigger] s[j]);
    }
}

/// The extension of a path: the bytes after the last `.`, provided that dot
/// comes after the last `/`; empty otherwise.
pub open spec fn extension_of(path: Seq<u8>) -> Seq<u8> {
    match rfind_byte(path, 46) {
        None => Seq::empty(),
        Some(i) => match rfind_byte(path, 47) {
            Some(j) => if j < i {
                path.skip(i + 1)
            } else {
                Seq::empty()
            },
            None => path.skip(i + 1),
        },
    }
}

/// The MIME string each known extension maps to; anything unknown is served
/// as a generic byte stream.
pub open spec fn mime_for(ext: Seq<u8>) -> Seq<char> {
    if ext == "txt".spec_bytes() {
        "text/plain"@
    } else if ext == "html".spec_bytes() {
        "text/html"@
    } else if ext == "css".spec_bytes() {
        "text/css"@
    } else if ext == "js".spec_bytes() {
        "application/javascript"@
    } else if ext == "json".spec_bytes() {
        "application/json"@
    } else if ext == "xml".spec_bytes() {
        "application/xml"@
    } else if ext == "pdf".spec_bytes() {
        "application/pdf"@
    } else if ext == "png".spec_bytes() {
        "image/png"@
    } else if ext == "jpg".spec_bytes() || ext == "jpeg".spec_bytes() {
        "image/jpeg"@
    } else if ext == "gif".spec_bytes() {
        "image/gif"@
    } else if ext == "svg".spec_bytes() {
        "image/svg+xml"@
    } else if ext == "mp3".spec_bytes() || ext == "wav".spec_bytes() || ext
        == "ogg".spec_bytes() {
        "audio/mpeg"@
    } else if ext == "mp4".spec_bytes() {
        "video/mp4"@
    } else if ext == "avi".spec_bytes() {
        "video/x-msvideo"@
    } else if ext == "mov".spec_bytes() {
        "video/quicktime"@
    } else if ext == "wmv".spec_bytes() {
        "video/x-ms-wmv"@
    } else if ext == "flv".spec_bytes() {
        "video/x-flv"@
    } else if ext == "mkv".spec_bytes() {
        "video/x-matroska"@
    } else if ext == "webm".spec_bytes() {
        "video/webm"@
    } else if ext == "csv".spec_bytes() {
        "text/csv"@
    } else if ext == "zip".spec_bytes() {
        "application/zip"@
    } else if ext == "tar".spec_bytes() {
        "application/x-tar"@
    } else if ext == "gz".spec_bytes() || ext == "gzip".spec_bytes() {
        "application/gzip"@
    } else if ext == "rar".spec_bytes() {
        "application/x-rar-compressed"@
    } else if ext == "7z".spec_bytes() {
        "application/x-7z-compressed"@
    } else if ext == "doc".spec_bytes() {
        "application/msword"@
    } else if ext == "docx".spec_bytes() {
        "application/vnd.openxmlformats-officedocument.wordprocessingml.document"@
    } else if ext == "xls".spec_bytes() {
        "application/vnd.ms-excel"@
    } else if ext == "xlsx".spec_bytes() {
        "application/vnd.openxmlformats-officedocument.spreadsheetml.sheet"@
    } else if ext == "ppt".spec_bytes() {
        "application/vnd.ms-powerpoint"@
    } else if ext == "pptx".spec_bytes() {
        "application/vnd.openxmlformats-officedocument.presentationml.presentation"@
    } else {
        "application/octet-stream"@
    }
}

/// Index of the last occurrence of `b` in `s`, scanning right to left.
fn rfind_byte_exec(s: &[u8], b: u8) -> (r: Option<usize>)
    ensures
        match r {
            Some(i) => rfind_byte(s@, b) == Some(i as int),
            None => rfind_byte(s@, b) is None,
        },
{
    let mut i: usize = s.len();
    while i > 0
        invariant
            0 <= i <= s.len(),
            forall|j: int| i <= j < s.len() ==> s@[j] != b,
        decreases i,
    {
        i -= 1;
        if s[i] == b {
            proof {
                lemma_rfind_byte_props(s@, b);
                if rfind_byte(s@, b) is None {
                    assert(s@[i as int] != b);
                } else {
                    let k = rfind_byte(s@, b)->Some_0;
                    if k < i {
                        assert(s@[i as int] != b);
                    } else if i < k {
                        assert(s@[k] != b);
                    }
                }
            }
            return Some(i);
        }
    }
    proof {
        lemma_rfind_byte_props(s@, b);
        if rfind_byte(s@, b) is Some {
            let k = rfind_byte(s@, b)->Some_0;
            assert(s@[k] != b);
        }
    }
    None
}

/// The extension of `path`: the bytes after the last `.` of its final
/// component, or nothing.
pub fn path_extension(path: &[u8]) -> (r: Vec<u8>)
    ensures
        r@ == extension_of(path@),
{
    match rfind_byte_exec(path, 46) {
        None => Vec::new(),
        Some(i) => {
            let after_slash: bool = match rfind_byte_exec(path, 47) {
                Some(j) => j < i,
                None => true,
            };
            if after_slash {
                let n = path.len();
                proof {
                    lemma_rfind_byte_props(path@, 46);
                    assert(i < n);
                }
                let e = subvec(path, i + 1, n);
                proof {
                    assert(path@.subrange(i + 1, path@.len() as int) =~= path@.skip(i + 1));
                }
                e
            } else {
                Vec::new()
            }
        },
    }
}

/// The MIME string a file at `path` is served with, resolved from the
/// path's extension, with a generic byte-stream fallback.
pub fn get_content_type(path: &[u8]) -> (r: &'static str)
    ensures
        r@ == mime_for(extension_of(path@)),
{
    let ext = path_extension(path);
    let e = ext.as_slice();
    if bytes_eq(e, "txt".as_bytes()) {
        "text/plain"
    } else if bytes_eq(e, "html".as_bytes()) {
        "text/html"
    } else if bytes_eq(e, "css".as_bytes()) {
        "text/css"
    } else if bytes_eq(e, "js".as_bytes()) {
        "application/javascript"
    } else if bytes_eq(e, "json".as_bytes()) {
        "application/json"
    } else if bytes_eq(e, "xml".as_bytes()) {
        "application/xml"
    } else if bytes_eq(e, "pdf".as_bytes()) {
        "application/pdf"
    } else if bytes_eq(e, "png".as_bytes()) {
        "image/png"
    } else if bytes_eq(e, "jpg".as_bytes()) || bytes_eq(e, "jpeg".as_bytes()) {
        "image/jpeg"
    } else if bytes_eq(e, "gif".as_bytes()) {
        "image/gif"
    } else if bytes_eq(e, "svg".as_bytes()) {
        "image/svg+xml"
    } else if bytes_eq(e, "mp3".as_bytes()) || bytes_eq(e, "wav".as_bytes()) || bytes_eq(
        e,
        "ogg".as_bytes(),
    ) {
        "audio/mpeg"
    } else if bytes_eq(e, "mp4".as_bytes()) {
        "video/mp4"
    } else if bytes_eq(e, "avi".as_bytes()) {
        "video/x-msvideo"
    } else if bytes_eq(e, "mov".as_bytes()) {
        "video/quicktime"
    } else if bytes_eq(e, "wmv".as_bytes()) {
        "video/x-ms-wmv"
    } else if bytes_eq(e, "flv".as_bytes()) {
        "video/x-flv"
    } else if bytes_eq(e, "mkv".as_bytes()) {
        "video/x-matroska"
    } else if bytes_eq(e, "webm".as_bytes()) {
        "video/webm"
    } else if bytes_eq(e, "csv".as_bytes()) {
        "text/csv"
    } else if bytes_eq(e, "zip".as_bytes()) {
        "application/zip"
    } else if bytes_eq(e, "tar".as_bytes()) {
        "application/x-tar"
    } else if bytes_eq(e, "gz".as_bytes()) || bytes_eq(e, "gzip".as_bytes()) {
        "application/gzip"
    } else if bytes_eq(e, "rar".as_bytes()) {
        "application/x-rar-compressed"
    } else if bytes_eq(e, "7z".as_bytes()) {
        "application/x-7z-compressed"
    } else if bytes_eq(e, "doc".as_bytes()) {
        "application/msword"
    } else if bytes_eq(e, "docx".as_bytes()) {
        "application/vnd.openxmlformats-officedocument.wordprocessingml.document"
    } else if bytes_eq(e, "xls".as_bytes()) {
        "application/vnd.ms-excel"
    } else if bytes_eq(e, "xlsx".as_bytes()) {
        "application/vnd.openxmlformats-officedocument.spreadsheetml.sheet"
    } else if bytes_eq(e, "ppt".as_bytes()) {
        "application/vnd.ms-powerpoint"
    } else if bytes_eq(e, "pptx".as_bytes()) {
        "application/vnd.openxmlformats-officedocument.presentationml.presentation"
    } else {
        "application/octet-stream"
    }
}

} // verus!
