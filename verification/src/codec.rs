//! The message codec: decoding the head of a request from the first chunk
//! read off a connection, reconciling the body against `Content-Length`, and
//! assembling the finished request.
//!
//! Decoding is split in two halves so that the caller owns all reading: the
//! first chunk is parsed by [`parse_head`], which reports how many body bytes
//! are still missing; the caller reads exactly that many and hands them to
//! [`finish_request`].

use vstd::prelude::*;
use vstd::string::StringSliceAdditionalSpecFns;

use crate::bytes::bytes_eq;
use crate::bytes::colon_sp;
use crate::bytes::crlf;
use crate::bytes::crlf_vec;
use crate::bytes::crlfcrlf;
use crate::bytes::crlfcrlf_vec;
use crate::bytes::dec_digits;
use crate::bytes::dec_value;
use crate::bytes::find_first;
use crate::bytes::is_digits;
use crate::bytes::lemma_dec_digits_value;
use crate::bytes::lemma_find_first_is;
use crate::bytes::lemma_find_from_props;
use crate::bytes::match_at;
use crate::bytes::parse_dec_usize;
use crate::bytes::push_all;
use crate::bytes::split_at_first;
use crate::bytes::split_at_first_exec;
use crate::bytes::split_on;
use crate::bytes::split_on_exec;
use crate::bytes::starts_with;
use crate::bytes::str_bytes;
use crate::bytes::subvec;
use crate::bytes::tokenize;
use crate::bytes::tokenize_exec;
use crate::bytes::u64_to_dec;
use crate::headers::Header;
use crate::headers::Headers;
use crate::headers::fold_put;
use crate::headers::lookup;
use crate::headers::put;
use crate::multipart::FormEntry;
use crate::multipart::decode_multipart;
use crate::multipart::multipart_entries;
use crate::request::Request;
use crate::response::Response;
use crate::response::body_view;

verus! {

/// Why a byte stream failed to decode into a request.
#[derive(Clone, Copy, Debug, PartialEq, Eq, Structural)]
pub enum DecodeError {
    /// No head/body separator was found in the initial chunk.
    MalformedRequest,
    /// A header value could not be used: a non-numeric or oversized
    /// `Content-Length`, or a multipart `Content-Type` without a boundary.
    MalformedHeader,
    /// The stream closed before the declared body length was reached.
    IncompleteBody,
}

/// Position of the blank line that separates head from body.
pub open spec fn head_split(chunk: Seq<u8>) -> Option<int> {
    find_first(chunk, crlfcrlf())
}

/// The lines of the head region: the request line, then one line per header.
pub open spec fn head_lines(chunk: Seq<u8>, p: int) -> Seq<Seq<u8>> {
    split_on(chunk.take(p), crlf())
}

/// The request-line tokens with their fail-safe defaults: a missing method
/// or version falls back to `unknown`, a missing path to `/`.
pub open spec fn request_line_parts(line: Seq<u8>) -> (Seq<u8>, Seq<u8>, Seq<u8>) {
    let t = tokenize(line);
    (
        if t.len() > 0 {
            t[0]
        } else {
            "unknown".spec_bytes()
        },
        if t.len() > 1 {
            t[1]
        } else {
            "/".spec_bytes()
        },
        if t.len() > 2 {
            t[2]
        } else {
            "unknown".spec_bytes()
        },
    )
}

/// The name/value pairs of the header lines, in order; a line without the
/// `: ` separator contributes nothing.
pub open spec fn header_pairs(lines: Seq<Seq<u8>>) -> Seq<(Seq<u8>, Seq<u8>)>
    decreases lines.len(),
{
    if lines.len() == 0 {
        Seq::empty()
    } else {
        let rest = header_pairs(lines.drop_last());
        match split_at_first(lines.last(), colon_sp()) {
            Some(p) => rest.push(p),
            None => rest,
        }
    }
}

/// The header table that a sequence of lines denotes: each pair inserted in
/// order, later occurrences of a name overwriting earlier ones.
pub open spec fn headers_model(lines: Seq<Seq<u8>>) -> Seq<(Seq<u8>, Seq<u8>)> {
    fold_put(header_pairs(lines))
}

/// The body length a header table declares: absent means zero; a value that
/// is not a number fitting `usize` cannot be used at all.
pub open spec fn content_length_of(m: Seq<(Seq<u8>, Seq<u8>)>) -> Option<int> {
    match lookup(m, "Content-Length".spec_bytes()) {
        None => Some(0int),
        Some(v) => if is_digits(v) && dec_value(v) <= usize::MAX {
            Some(dec_value(v))
        } else {
            None
        },
    }
}

/// The media type of a `Content-Type` value: the text before any `;`.
pub open spec fn primary_media_type(ct: Seq<u8>) -> Seq<u8> {
    match split_at_first(ct, seq![59u8]) {
        Some(p) => p.0,
        None => ct,
    }
}

/// The boundary token of a `Content-Type` value: everything after the first
/// `boundary=`, if that marker is present.
pub open spec fn boundary_of(ct: Seq<u8>) -> Option<Seq<u8>> {
    match split_at_first(ct, "boundary=".spec_bytes()) {
        Some(p) => Some(p.1),
        None => None,
    }
}

/// The `Content-Type` value of a header table, defaulted to `text/plain`.
pub open spec fn content_type_of(m: Seq<(Seq<u8>, Seq<u8>)>) -> Seq<u8> {
    match lookup(m, "Content-Type".spec_bytes()) {
        Some(v) => v,
        None => "text/plain".spec_bytes(),
    }
}

/// The decoded head of a request, together with what is known about the
/// body: the bytes of it that arrived inside the initial chunk, and how many
/// more the declared `Content-Length` still demands.
#[derive(Debug)]
pub struct HeadInfo {
    pub method: Vec<u8>,
    pub path: Vec<u8>,
    pub http_version: Vec<u8>,
    pub headers: Headers,
    pub body_prefix: Vec<u8>,
    pub content_length: usize,
    pub needed: usize,
}

impl HeadInfo {
    /// The prefix and the missing remainder together make up the declared
    /// body length, and the header table is well formed.
    pub open spec fn wf(&self) -> bool {
        &&& self.headers.wf()
        &&& self.body_prefix@.len() + self.needed == self.content_length
    }
}

/// `split_on` never yields an empty sequence of pieces.
pub proof fn lemma_split_on_nonempty(s: Seq<u8>, pat: Seq<u8>)
    ensures
        split_on(s, pat).len() >= 1,
    decreases s.len(),
{
}

/// Build the header table of a sequence of header lines.
fn parse_headers(lines: &[Vec<u8>]) -> (h: Headers)
    ensures
        h@ == headers_model(lines@.map_values(|l: Vec<u8>| l@)),
        h.wf(),
{
    let ghost lns = lines@.map_values(|l: Vec<u8>| l@);
    let sep = crate::bytes::colon_sp_vec();
    let mut h = Headers::new();
    let mut i: usize = 0;
    proof {
        assert(header_pairs(lns.take(0)) =~= Seq::<(Seq<u8>, Seq<u8>)>::empty());
    }
    while i < lines.len()
        invariant
            0 <= i <= lines.len(),
            lns == lines@.map_values(|l: Vec<u8>| l@),
            sep@ == colon_sp(),
            h@ == headers_model(lns.take(i as int)),
            h.wf(),
        decreases lines.len() - i,
    {
        proof {
            assert(lns.take(i + 1).drop_last() =~= lns.take(i as int));
            assert(lns.take(i + 1).last() == lns[i as int]);
        }
        match split_at_first_exec(lines[i].as_slice(), sep.as_slice()) {
            Some(p) => {
                proof {
                    let ps = header_pairs(lns.take(i as int));
                    assert(header_pairs(lns.take(i + 1)) == ps.push((p.0@, p.1@)));
                    assert(ps.push((p.0@, p.1@)).drop_last() =~= ps);
                    assert(fold_put(ps.push((p.0@, p.1@))) == put(fold_put(ps), p.0@, p.1@));
                }
                h.insert(p.0, p.1);
            },
            None => {
                proof {
                    assert(header_pairs(lns.take(i + 1)) == header_pairs(lns.take(i as int)));
                }
            },
        }
        i += 1;
    }
    proof {
        assert(lns.take(lns.len() as int) =~= lns);
    }
    h
}

/// Split the request line into method, path and version, with the
/// fail-safe defaults for missing tokens.
fn parse_request_line(line: &[u8]) -> (r: (Vec<u8>, Vec<u8>, Vec<u8>))
    ensures
        (r.0@, r.1@, r.2@) == request_line_parts(line@),
{
    let toks = tokenize_exec(line);
    let ghost ts = toks@.map_values(|t: Vec<u8>| t@);
    let mut toks = toks;
    let method: Vec<u8>;
    let path: Vec<u8>;
    let version: Vec<u8>;
    if toks.len() > 2 {
        version = toks.remove(2);
        path = toks.remove(1);
        method = toks.remove(0);
    } else if toks.len() > 1 {
        version = str_bytes("unknown");
        path = toks.remove(1);
        method = toks.remove(0);
    } else if toks.len() > 0 {
        version = str_bytes("unknown");
        path = str_bytes("/");
        method = toks.remove(0);
    } else {
        version = str_bytes("unknown");
        path = str_bytes("/");
        method = str_bytes("unknown");
    }
    (method, path, version)
}

/// Decode the head of a request out of the initial chunk read from a
/// connection.
///
/// On success the returned head carries the request-line tokens (with their
/// defaults), the header table with last-wins insertion, and the body bytes
/// already present in the chunk, truncated or extended bookkeeping according
/// to `Content-Length`. The head/body separator must be present, and a
/// `Content-Length` value must be a number that fits `usize`; otherwise the
/// respective decode error comes back.
pub fn parse_head(chunk: &[u8]) -> (r: Result<HeadInfo, DecodeError>)
    ensures
        match r {
            Ok(h) => {
                &&& head_split(chunk@) is Some
                &&& h.wf()
                &&& {
                    let p = head_split(chunk@)->Some_0;
                    let lines = head_lines(chunk@, p);
                    let parts = request_line_parts(lines[0]);
                    let model = headers_model(lines.drop_first());
                    &&& h.method@ == parts.0
                    &&& h.path@ == parts.1
                    &&& h.http_version@ == parts.2
                    &&& h.headers@ == model
                    &&& content_length_of(model) == Some(h.content_length as int)
                    &&& {
                        let start = p + 4;
                        let avail = chunk@.len() - start;
                        if h.content_length <= avail {
                            h.body_prefix@ == chunk@.subrange(start, start + h.content_length)
                                && h.needed == 0
                        } else {
                            h.body_prefix@ == chunk@.subrange(start, chunk@.len() as int)
                                && h.needed == h.content_length - avail
                        }
                    }
                }
            },
            Err(e) => {
                &&& (e == DecodeError::MalformedRequest <==> head_split(chunk@) is None)
                &&& (e == DecodeError::MalformedRequest || e == DecodeError::MalformedHeader)
                &&& (e == DecodeError::MalformedHeader ==> {
                    let p = head_split(chunk@)->Some_0;
                    let lines = head_lines(chunk@, p);
                    content_length_of(headers_model(lines.drop_first())) is None
                })
            },
        },
{
    let blank = crlfcrlf_vec();
    match crate::bytes::find_subslice(chunk, blank.as_slice()) {
        None => Err(DecodeError::MalformedRequest),
        Some(p) => {
            let n = chunk.len();
            proof {
                lemma_find_from_props(chunk@, crlfcrlf(), 0);
                assert(match_at(chunk@, crlfcrlf(), p as int));
                assert(p + 4 <= n);
            }
            let head_region = subvec(chunk, 0, p);
            proof {
                assert(chunk@.subrange(0, p as int) =~= chunk@.take(p as int));
            }
            let nl = crlf_vec();
            let lines = split_on_exec(head_region.as_slice(), nl.as_slice());
            proof {
                lemma_split_on_nonempty(head_region@, crlf());
                assert(lines@.map_values(|l: Vec<u8>| l@).len() >= 1);
                assert(lines@.len() >= 1);
            }
            let parts = parse_request_line(lines[0].as_slice());
            let hdrs = parse_headers(&lines[1..lines.len()]);
            proof {
                assert(lines@.subrange(1, lines@.len() as int).map_values(|l: Vec<u8>| l@)
                    =~= lines@.map_values(|l: Vec<u8>| l@).drop_first());
            }
            let cl_name = str_bytes("Content-Length");
            let content_length: usize = match hdrs.get(cl_name.as_slice()) {
                None => 0,
                Some(v) => {
                    match parse_dec_usize(v.as_slice()) {
                        Some(n) => n,
                        None => {
                            return Err(DecodeError::MalformedHeader);
                        },
                    }
                },
            };
            let start = p + 4;
            let avail = chunk.len() - start;
            if content_length <= avail {
                let body_prefix = subvec(chunk, start, start + content_length);
                Ok(
                    HeadInfo {
                        method: parts.0,
                        path: parts.1,
                        http_version: parts.2,
                        headers: hdrs,
                        body_prefix,
                        content_length,
                        needed: 0,
                    },
                )
            } else {
                let body_prefix = subvec(chunk, start, chunk.len());
                Ok(
                    HeadInfo {
                        method: parts.0,
                        path: parts.1,
                        http_version: parts.2,
                        headers: hdrs,
                        body_prefix,
                        content_length,
                        needed: content_length - avail,
                    },
                )
            }
        },
    }
}

/// However a body is split between the initial chunk and the later read,
/// decoding reassembles exactly that body.
///
/// `head_bytes` is a head region ending in its blank-line separator, with no
/// earlier separator; `body` is the full body and `cut` the number of body
/// bytes that happened to arrive inside the initial chunk. The head then
/// splits and parses identically for every `cut`, the chunk holds exactly
/// the first `cut` body bytes after the separator, and those bytes followed
/// by the remainder make up `body` again — so [`parse_head`] (whose
/// `body_prefix` and `needed` are pinned to these subranges) followed by
/// [`finish_request`] on the remainder yields a request whose body is
/// `body`, wherever the split fell.
pub proof fn lemma_body_split_reassembly(head_bytes: Seq<u8>, body: Seq<u8>, cut: int)
    requires
        find_first(head_bytes, crlfcrlf()) == Some(head_bytes.len() - 4),
        0 <= cut <= body.len(),
    ensures
        ({
            let chunk = head_bytes + body.take(cut);
            let p = head_bytes.len() - 4;
            &&& head_split(chunk) == Some(p)
            &&& head_lines(chunk, p) == head_lines(head_bytes, p)
            &&& chunk.len() - (p + 4) == cut
            &&& (cut == body.len() ==> chunk.subrange(p + 4, p + 4 + body.len()) == body)
            &&& (cut < body.len() ==> chunk.subrange(p + 4, chunk.len() as int) + body.skip(cut)
                == body)
        }),
{
    let chunk = head_bytes + body.take(cut);
    let p = head_bytes.len() - 4;
    lemma_find_from_props(head_bytes, crlfcrlf(), 0);
    assert(match_at(head_bytes, crlfcrlf(), p));
    assert(forall|x: int| 0 <= x < head_bytes.len() ==> chunk[x] == #[trigger] head_bytes[x]);
    assert(match_at(chunk, crlfcrlf(), p));
    assert forall|j: int| 0 <= j < p implies !match_at(chunk, crlfcrlf(), j) by {
        if match_at(chunk, crlfcrlf(), j) {
            assert(forall|x: int| 0 <= x < 4 ==> chunk[j + x] == #[trigger] crlfcrlf()[x]);
            assert(match_at(head_bytes, crlfcrlf(), j));
        }
    }
    lemma_find_first_is(chunk, crlfcrlf(), p);
    assert(chunk.take(p) =~= head_bytes.take(p));
    if cut == body.len() {
        assert(chunk.subrange(p + 4, p + 4 + body.len()) =~= body);
    }
    if cut < body.len() {
        assert(chunk.subrange(p + 4, chunk.len() as int) + body.skip(cut) =~= body);
    }
}

/// Assemble the finished request out of a decoded head and the body bytes
/// read after the initial chunk.
///
/// The body is the head's prefix followed by exactly the missing number of
/// bytes out of `extra`; fewer arriving means the stream closed early. A
/// `multipart/form-data` body is decomposed into its form entries along the
/// boundary named by the `Content-Type` header; every other media type keeps
/// the raw bytes only.
pub fn finish_request(head: HeadInfo, extra: &[u8]) -> (r: Result<Request, DecodeError>)
    requires
        head.wf(),
    ensures
        match r {
            Ok(req) => {
                &&& extra@.len() >= head.needed
                &&& req.method@ == head.method@
                &&& req.path@ == head.path@
                &&& req.http_version@ == head.http_version@
                &&& req.headers@ == head.headers@
                &&& req.headers.wf()
                &&& req.body@ == head.body_prefix@ + extra@.take(head.needed as int)
                &&& req.body@.len() == head.content_length
                &&& {
                    let ct = content_type_of(head.headers@);
                    if primary_media_type(ct) == "multipart/form-data".spec_bytes() {
                        &&& boundary_of(ct) is Some
                        &&& req.files@.map_values(|e: FormEntry| e@) == multipart_entries(
                            req.body@,
                            boundary_of(ct)->Some_0,
                        )
                    } else {
                        req.files@ == Seq::<FormEntry>::empty()
                    }
                }
            },
            Err(e) => {
                &&& (e == DecodeError::IncompleteBody <==> extra@.len() < head.needed)
                &&& (e == DecodeError::IncompleteBody || e == DecodeError::MalformedHeader)
                &&& (e == DecodeError::MalformedHeader <==> {
                    let ct = content_type_of(head.headers@);
                    &&& extra@.len() >= head.needed
                    &&& primary_media_type(ct) == "multipart/form-data".spec_bytes()
                    &&& boundary_of(ct) is None
                })
            },
        },
{
    if extra.len() < head.needed {
        return Err(DecodeError::IncompleteBody);
    }
    let mut body = head.body_prefix;
    push_all(&mut body, &extra[0..head.needed]);
    proof {
        assert(extra@.subrange(0, head.needed as int) =~= extra@.take(head.needed as int));
    }
    let ct_name = str_bytes("Content-Type");
    let ct: Vec<u8> = match head.headers.get(ct_name.as_slice()) {
        Some(v) => {
            let c = subvec(v.as_slice(), 0, v.len());
            proof {
                assert(v@.subrange(0, v@.len() as int) =~= v@);
            }
            c
        },
        None => str_bytes("text/plain"),
    };
    assert(ct@ == content_type_of(head.headers@));
    let mut semi: Vec<u8> = Vec::new();
    semi.push(59);
    proof {
        assert(semi@ =~= seq![59u8]);
    }
    let primary: Vec<u8> = match split_at_first_exec(ct.as_slice(), semi.as_slice()) {
        Some(p) => p.0,
        None => {
            let c = subvec(ct.as_slice(), 0, ct.len());
            proof {
                assert(ct@.subrange(0, ct@.len() as int) =~= ct@);
            }
            c
        },
    };
    assert(primary@ == primary_media_type(ct@));
    let mp = str_bytes("multipart/form-data");
    if bytes_eq(primary.as_slice(), mp.as_slice()) {
        let bmark = str_bytes("boundary=");
        match split_at_first_exec(ct.as_slice(), bmark.as_slice()) {
            None => Err(DecodeError::MalformedHeader),
            Some(bp) => {
                let files = decode_multipart(body.as_slice(), bp.1.as_slice());
                Ok(
                    Request {
                        method: head.method,
                        path: head.path,
                        headers: head.headers,
                        body,
                        files,
                        http_version: head.http_version,
                    },
                )
            },
        }
    } else {
        let files: Vec<FormEntry> = Vec::new();
        proof {
            assert(files@ =~= Seq::<FormEntry>::empty());
        }
        Ok(
            Request {
                method: head.method,
                path: head.path,
                headers: head.headers,
                body,
                files,
                http_version: head.http_version,
            },
        )
    }
}

/// One header on the wire: name, `: `, value, line break.
pub open spec fn header_line_bytes(h: (Seq<u8>, Seq<u8>)) -> Seq<u8> {
    h.0 + colon_sp() + h.1 + crlf()
}

/// The header block on the wire: every entry's line, in table order.
pub open spec fn encode_headers_bytes(m: Seq<(Seq<u8>, Seq<u8>)>) -> Seq<u8>
    decreases m.len(),
{
    if m.len() == 0 {
        Seq::empty()
    } else {
        header_line_bytes(m[0]) + encode_headers_bytes(m.drop_first())
    }
}

/// A whole response on the wire: the status line, the header block, a blank
/// line, then the body bytes if there are any.
pub open spec fn encode_response_bytes(code: int, m: Seq<(Seq<u8>, Seq<u8>)>, body: Option<
    Seq<u8>,
>) -> Seq<u8> {
    "HTTP/1.1 ".spec_bytes() + dec_digits(code) + crlf() + encode_headers_bytes(m) + crlf() + (
    match body {
        Some(b) => b,
        None => Seq::empty(),
    })
}

/// Appending one entry appends its line to the encoded block.
pub proof fn lemma_encode_headers_push(m: Seq<(Seq<u8>, Seq<u8>)>, h: (Seq<u8>, Seq<u8>))
    ensures
        encode_headers_bytes(m.push(h)) == encode_headers_bytes(m) + header_line_bytes(h),
    decreases m.len(),
{
    let u = m.push(h);
    if m.len() == 0 {
        assert(u[0] == h);
        assert(u.drop_first() =~= Seq::<(Seq<u8>, Seq<u8>)>::empty());
        assert(encode_headers_bytes(u.drop_first()) =~= Seq::<u8>::empty());
        assert(encode_headers_bytes(u) == header_line_bytes(h) + encode_headers_bytes(
            u.drop_first(),
        ));
        assert(encode_headers_bytes(m) =~= Seq::<u8>::empty());
        assert(header_line_bytes(h) + encode_headers_bytes(u.drop_first())
            =~= encode_headers_bytes(m) + header_line_bytes(h));
    } else {
        assert(u[0] == m[0]);
        assert(u.drop_first() =~= m.drop_first().push(h));
        lemma_encode_headers_push(m.drop_first(), h);
        assert(encode_headers_bytes(u) == header_line_bytes(m[0]) + (encode_headers_bytes(
            m.drop_first(),
        ) + header_line_bytes(h)));
        assert(header_line_bytes(m[0]) + (encode_headers_bytes(m.drop_first())
            + header_line_bytes(h)) =~= (header_line_bytes(m[0]) + encode_headers_bytes(
            m.drop_first(),
        )) + header_line_bytes(h));
    }
}

/// Serialize a response to wire bytes: the status line, each header as
/// `Name: Value`, a blank line, then the body if present.
pub fn encode_response(r: &Response) -> (v: Vec<u8>)
    ensures
        v@ == encode_response_bytes(r.status_code as int, r.headers@, body_view(r)),
{
    let mut out = str_bytes("HTTP/1.1 ");
    let code = u64_to_dec(r.status_code as u64);
    push_all(&mut out, code.as_slice());
    let nl = crlf_vec();
    push_all(&mut out, nl.as_slice());
    let ghost m = r.headers@;
    let ghost prefix = "HTTP/1.1 ".spec_bytes() + dec_digits(r.status_code as int) + crlf();
    proof {
        assert(out@ =~= prefix);
        assert(encode_headers_bytes(m.take(0)) =~= Seq::<u8>::empty());
        assert(out@ =~= prefix + encode_headers_bytes(m.take(0)));
    }
    let n = r.headers.len();
    let mut i: usize = 0;
    while i < n
        invariant
            0 <= i <= n,
            n == m.len(),
            m == r.headers@,
            prefix == "HTTP/1.1 ".spec_bytes() + dec_digits(r.status_code as int) + crlf(),
            out@ == prefix + encode_headers_bytes(m.take(i as int)),
        decreases n - i,
    {
        let entry = r.headers.entry_at(i);
        push_all(&mut out, entry.0.as_slice());
        let cs = crate::bytes::colon_sp_vec();
        push_all(&mut out, cs.as_slice());
        push_all(&mut out, entry.1.as_slice());
        let nl2 = crlf_vec();
        push_all(&mut out, nl2.as_slice());
        proof {
            lemma_encode_headers_push(m.take(i as int), m[i as int]);
            assert(m.take(i + 1) =~= m.take(i as int).push(m[i as int]));
            assert(out@ =~= prefix + encode_headers_bytes(m.take(i + 1)));
        }
        i += 1;
    }
    proof {
        assert(m.take(m.len() as int) =~= m);
    }
    let nl3 = crlf_vec();
    push_all(&mut out, nl3.as_slice());
    match &r.body {
        Some(b) => {
            push_all(&mut out, b.as_slice());
            proof {
                assert(out@ =~= encode_response_bytes(
                    r.status_code as int,
                    r.headers@,
                    body_view(r),
                ));
            }
        },
        None => {
            proof {
                assert(out@ =~= encode_response_bytes(
                    r.status_code as int,
                    r.headers@,
                    body_view(r),
                ));
            }
        },
    }
    out
}

/// The header block and body that a wire tail denotes: header lines up to
/// the first blank line, then the body, empty meaning none.
pub open spec fn decode_headers_bytes(s: Seq<u8>) -> Option<
    (Seq<(Seq<u8>, Seq<u8>)>, Option<Seq<u8>>),
>
    decreases s.len(),
{
    if s.len() >= 2 && s.take(2) == crlf() {
        let b = s.skip(2);
        Some((Seq::empty(), if b.len() == 0 { None } else { Some(b) }))
    } else {
        match split_at_first(s, crlf()) {
            None => None,
            Some(p) => {
                if p.1.len() < s.len() {
                    match split_at_first(p.0, colon_sp()) {
                        None => None,
                        Some(kv) => match decode_headers_bytes(p.1) {
                            None => None,
                            Some(rest) => Some((seq![kv] + rest.0, rest.1)),
                        },
                    }
                } else {
                    None
                }
            },
        }
    }
}

/// The response a sequence of wire bytes denotes, when it is parseable:
/// the status code after the protocol token, then headers and body.
pub open spec fn decode_response_bytes(s: Seq<u8>) -> Option<
    (int, Seq<(Seq<u8>, Seq<u8>)>, Option<Seq<u8>>),
> {
    let hp = "HTTP/1.1 ".spec_bytes();
    if hp.len() <= s.len() && s.take(hp.len() as int) == hp {
        let rest = s.skip(hp.len() as int);
        match split_at_first(rest, crlf()) {
            None => None,
            Some(p) => {
                if is_digits(p.0) && dec_value(p.0) <= u16::MAX {
                    match decode_headers_bytes(p.1) {
                        None => None,
                        Some(hb) => Some((dec_value(p.0), hb.0, hb.1)),
                    }
                } else {
                    None
                }
            },
        }
    } else {
        None
    }
}

/// A header name that can survive the wire: no line-break bytes and no
/// colon, so its line parses back at the right spot.
pub open spec fn wire_safe_name(k: Seq<u8>) -> bool {
    forall|i: int| 0 <= i < k.len() ==> (#[trigger] k[i]) != 13 && k[i] != 10 && k[i] != 58
}

/// A header value that can survive the wire: no line-break bytes.
pub open spec fn wire_safe_value(v: Seq<u8>) -> bool {
    forall|i: int| 0 <= i < v.len() ==> (#[trigger] v[i]) != 13 && v[i] != 10
}

/// Every header entry of `m` survives the wire.
pub open spec fn wire_safe_table(m: Seq<(Seq<u8>, Seq<u8>)>) -> bool {
    forall|i: int| 0 <= i < m.len() ==> wire_safe_name(#[trigger] m[i].0) && wire_safe_value(
        m[i].1,
    )
}

/// The body bytes a response contributes to the wire: nothing for `None`.
pub open spec fn body_seq(body: Option<Seq<u8>>) -> Seq<u8> {
    match body {
        Some(b) => b,
        None => Seq::empty(),
    }
}

/// A response that the wire format can carry faithfully: a representable
/// status code, header names without line breaks or colons, header values
/// without line breaks, and no empty `Some` body (the wire cannot tell it
/// from no body at all).
pub open spec fn encodable(code: int, m: Seq<(Seq<u8>, Seq<u8>)>, body: Option<Seq<u8>>) -> bool {
    &&& 0 <= code <= u16::MAX
    &&& wire_safe_table(m)
    &&& match body {
        Some(b) => b.len() > 0,
        None => true,
    }
}

/// Decoding undoes encoding on a header block followed by the blank line
/// and the body.
#[verifier::rlimit(100)]
#[verifier::spinoff_prover]
proof fn lemma_decode_headers_round_trip(m: Seq<(Seq<u8>, Seq<u8>)>, body: Option<Seq<u8>>)
    requires
        wire_safe_table(m),
        match body {
            Some(b) => b.len() > 0,
            None => true,
        },
    ensures
        decode_headers_bytes(encode_headers_bytes(m) + crlf() + body_seq(body)) == Some(
            (m, body),
        ),
    decreases m.len(),
{
    let bs = body_seq(body);
    let s = encode_headers_bytes(m) + crlf() + bs;
    if m.len() == 0 {
        assert(s =~= crlf() + bs);
        assert(s.len() >= 2);
        assert(s.take(2) =~= crlf());
        assert(s.skip(2) =~= bs);
        assert(m =~= Seq::<(Seq<u8>, Seq<u8>)>::empty());
    } else {
        let k = m[0].0;
        let v = m[0].1;
        let line = header_line_bytes(m[0]);
        let rest_enc = encode_headers_bytes(m.drop_first());
        let t = rest_enc + crlf() + bs;
        assert(encode_headers_bytes(m) == line + rest_enc);
        assert(s =~= line + t);
        assert(line =~= k + colon_sp() + v + crlf());
        let q: int = k.len() as int + 2 + v.len() as int;
        // the first line break sits right after the value
        assert forall|j: int| 0 <= j < q implies s[j] != 13 by {
            if j < k.len() {
                assert(s[j] == k[j]);
            } else if j == k.len() {
                assert(s[j] == 58);
            } else if j == k.len() + 1 {
                assert(s[j] == 32);
            } else {
                assert(s[j] == v[j - k.len() - 2]);
            }
        }
        assert(s[q] == 13 && s[q + 1] == 10);
        assert(match_at(s, crlf(), q));
        assert forall|j: int| 0 <= j < q implies !match_at(s, crlf(), j) by {
            if match_at(s, crlf(), j) {
                assert(s[j + 0] == crlf()[0]);
            }
        }
        lemma_find_first_is(s, crlf(), q);
        // the decoder therefore splits off exactly this line
        assert(!(s.len() >= 2 && s.take(2) == crlf())) by {
            if s.len() >= 2 && s.take(2) == crlf() {
                assert(s.take(2)[0] == 13);
                assert(s.take(2)[0] == s[0]);
            }
        }
        let lc = s.take(q);
        assert(lc =~= k + colon_sp() + v);
        assert(s.skip(q + 2) =~= t);
        assert(t.len() < s.len());
        // the line splits at its separator into name and value
        assert forall|j: int| 0 <= j < k.len() implies !match_at(lc, colon_sp(), j) by {
            if match_at(lc, colon_sp(), j) {
                assert(lc[j + 0] == colon_sp()[0]);
                assert(lc[j] == k[j]);
            }
        }
        assert(lc[k.len() as int] == 58 && lc[k.len() as int + 1] == 32);
        assert(match_at(lc, colon_sp(), k.len() as int));
        lemma_find_first_is(lc, colon_sp(), k.len() as int);
        assert(lc.take(k.len() as int) =~= k);
        assert(lc.skip(k.len() as int + 2) =~= v);
        // the rest of the block round-trips by induction
        let d = m.drop_first();
        assert(forall|i: int| 0 <= i < d.len() ==> #[trigger] d[i] == m[i + 1]);
        assert forall|i: int| 0 <= i < d.len() implies wire_safe_name(#[trigger] d[i].0)
            && wire_safe_value(d[i].1) by {
            assert(d[i] == m[i + 1]);
            assert(wire_safe_name(m[i + 1].0) && wire_safe_value(m[i + 1].1));
        }
        assert(wire_safe_table(d));
        lemma_decode_headers_round_trip(d, body);
        assert(decode_headers_bytes(t) == Some((m.drop_first(), body)));
        assert((k, v) == m[0]);
        assert(seq![(k, v)] + m.drop_first() =~= m);
    }
}

/// Encoding a response and decoding the bytes again yields the same status
/// code, the same header entries in the same order, and the same body.
pub proof fn lemma_response_round_trip(code: int, m: Seq<(Seq<u8>, Seq<u8>)>, body: Option<
    Seq<u8>,
>)
    requires
        encodable(code, m, body),
    ensures
        decode_response_bytes(encode_response_bytes(code, m, body)) == Some((code, m, body)),
{
    let hp = "HTTP/1.1 ".spec_bytes();
    let digits = dec_digits(code);
    let hblock = encode_headers_bytes(m);
    let bs = body_seq(body);
    let s = encode_response_bytes(code, m, body);
    lemma_dec_digits_value(code);
    assert(s.len() >= hp.len());
    assert(s.take(hp.len() as int) =~= hp);
    let rest = s.skip(hp.len() as int);
    let t = hblock + crlf() + bs;
    assert(rest =~= digits + crlf() + t);
    let q: int = digits.len() as int;
    assert forall|j: int| 0 <= j < q implies rest[j] != 13 by {
        assert(rest[j] == digits[j]);
        assert(48 <= digits[j] <= 57);
    }
    assert(rest[q] == 13 && rest[q + 1] == 10);
    assert(match_at(rest, crlf(), q));
    assert forall|j: int| 0 <= j < q implies !match_at(rest, crlf(), j) by {
        if match_at(rest, crlf(), j) {
            assert(rest[j + 0] == crlf()[0]);
        }
    }
    lemma_find_first_is(rest, crlf(), q);
    assert(rest.take(q) =~= digits);
    assert(rest.skip(q + 2) =~= t);
    lemma_decode_headers_round_trip(m, body);
    assert(decode_headers_bytes(t) == Some((m, body)));
}

/// Parse a wire header block: lines of `Name: Value` up to the first blank
/// line, the rest being the body. The entries come back in wire order,
/// duplicates included.
fn decode_headers_exec(s: &[u8]) -> (r: Option<(Vec<Header>, Option<Vec<u8>>)>)
    ensures
        match r {
            Some(p) => decode_headers_bytes(s@) == Some(
                (
                    p.0@.map_values(|h: Header| h@),
                    match p.1 {
                        Some(ref b) => Some(b@),
                        None => None,
                    },
                ),
            ),
            None => decode_headers_bytes(s@) is None,
        },
    decreases s.len(),
{
    let nl = crlf_vec();
    if starts_with(s, nl.as_slice()) {
        let b = subvec(s, 2, s.len());
        proof {
            assert(s@.subrange(2, s@.len() as int) =~= s@.skip(2));
        }
        let body: Option<Vec<u8>> = if b.len() == 0 {
            None
        } else {
            Some(b)
        };
        let hs: Vec<Header> = Vec::new();
        proof {
            assert(hs@.map_values(|h: Header| h@) =~= Seq::<(Seq<u8>, Seq<u8>)>::empty());
        }
        Some((hs, body))
    } else {
        match split_at_first_exec(s, nl.as_slice()) {
            None => None,
            Some(p) => {
                proof {
                    lemma_find_from_props(s@, crlf(), 0);
                }
                let cs = crate::bytes::colon_sp_vec();
                match split_at_first_exec(p.0.as_slice(), cs.as_slice()) {
                    None => None,
                    Some(kv) => {
                        match decode_headers_exec(p.1.as_slice()) {
                            None => None,
                            Some(rest) => {
                                let mut hs = rest.0;
                                hs.insert(0, Header { name: kv.0, value: kv.1 });
                                proof {
                                    assert(hs@.map_values(|h: Header| h@) =~= seq![
                                        (kv.0@, kv.1@),
                                    ] + rest.0@.map_values(|h: Header| h@));
                                }
                                Some((hs, rest.1))
                            },
                        }
                    },
                }
            },
        }
    }
}

/// Parse wire bytes back into a response. The header table carries the
/// entries in wire order; it is well formed whenever their names are
/// pairwise distinct, as the encoder guarantees.
pub fn decode_response(s: &[u8]) -> (r: Option<Response>)
    ensures
        match r {
            Some(resp) => decode_response_bytes(s@) == Some(
                (resp.status_code as int, resp.headers@, body_view(&resp)),
            ),
            None => decode_response_bytes(s@) is None,
        },
{
    let hp = str_bytes("HTTP/1.1 ");
    if !starts_with(s, hp.as_slice()) {
        return None;
    }
    let rest = subvec(s, hp.len(), s.len());
    proof {
        assert(s@.subrange(hp@.len() as int, s@.len() as int) =~= s@.skip(hp@.len() as int));
    }
    let nl = crlf_vec();
    match split_at_first_exec(rest.as_slice(), nl.as_slice()) {
        None => None,
        Some(p) => {
            match parse_dec_usize(p.0.as_slice()) {
                None => None,
                Some(code) => {
                    if code > u16::MAX as usize {
                        return None;
                    }
                    match decode_headers_exec(p.1.as_slice()) {
                        None => None,
                        Some(hb) => Some(
                            Response {
                                status_code: code as u16,
                                headers: Headers { entries: hb.0 },
                                body: hb.1,
                            },
                        ),
                    }
                },
            }
        },
    }
}

} // verus!
