//! Decomposition of a `multipart/form-data` body into its form entries.

use vstd::prelude::*;
use vstd::string::StringSliceAdditionalSpecFns;

use crate::bytes::colon_sp;
use crate::bytes::colon_sp_vec;
use crate::bytes::crlf;
use crate::bytes::crlf_vec;
use crate::bytes::crlfcrlf;
use crate::bytes::crlfcrlf_vec;
use crate::bytes::push_all;
use crate::bytes::split_at_first;
use crate::bytes::split_at_first_exec;
use crate::bytes::split_on;
use crate::bytes::split_on_exec;
use crate::bytes::starts_with;
use crate::bytes::str_bytes;
use crate::bytes::subvec;
use crate::bytes::trim_quotes;
use crate::bytes::trim_quotes_exec;
use crate::bytes::trim_ws;
use crate::bytes::trim_ws_exec;

verus! {

/// One decoded multipart field: its name, an optional file name, and the raw
/// content bytes. Entries are kept in a sequence, in order of appearance, so
/// that two entries sharing a name or file name are both preserved.
#[derive(Debug)]
pub struct FormEntry {
    pub name: Vec<u8>,
    pub filename: Option<Vec<u8>>,
    pub data: Vec<u8>,
}

impl View for FormEntry {
    type V = (Seq<u8>, Option<Seq<u8>>, Seq<u8>);

    open spec fn view(&self) -> (Seq<u8>, Option<Seq<u8>>, Seq<u8>) {
        (
            self.name@,
            match self.filename {
                Some(ref f) => Some(f@),
                None => None,
            },
            self.data@,
        )
    }
}

/// The delimiter that separates multipart segments: `--` then the boundary.
pub open spec fn delimiter_of(boundary: Seq<u8>) -> Seq<u8> {
    seq![45u8, 45u8] + boundary
}

/// The value of the first `Content-Disposition` header among `lines`.
pub open spec fn first_disposition(lines: Seq<Seq<u8>>) -> Option<Seq<u8>>
    decreases lines.len(),
{
    if lines.len() == 0 {
        None
    } else {
        match split_at_first(lines[0], colon_sp()) {
            Some(p) => if p.0 == "Content-Disposition".spec_bytes() {
                Some(p.1)
            } else {
                first_disposition(lines.drop_first())
            },
            None => first_disposition(lines.drop_first()),
        }
    }
}

/// The value of the first `;`-separated parameter of `params` that begins
/// with `prefix`, trimmed of surrounding whitespace and quotes.
pub open spec fn param_value(params: Seq<Seq<u8>>, prefix: Seq<u8>) -> Option<Seq<u8>>
    decreases params.len(),
{
    if params.len() == 0 {
        None
    } else {
        let p = trim_ws(params[0]);
        if prefix.len() <= p.len() && p.take(prefix.len() as int) == prefix {
            Some(trim_quotes(p.skip(prefix.len() as int)))
        } else {
            param_value(params.drop_first(), prefix)
        }
    }
}

/// Segment content with a single trailing line break removed, if present.
pub open spec fn trim_trailing_crlf(s: Seq<u8>) -> Seq<u8> {
    if s.len() >= 2 && s[s.len() - 2] == 13 && s[s.len() - 1] == 10 {
        s.take(s.len() - 2)
    } else {
        s
    }
}

/// The form entry described by one segment: its head is split off at the
/// first blank line, the first `Content-Disposition` header supplies the
/// `name` and optional `filename` parameters, and the content keeps every
/// byte up to the delimiter's line break. Segments without a blank line or
/// without a `name` parameter yield nothing.
pub open spec fn segment_entry(seg: Seq<u8>) -> Option<(Seq<u8>, Option<Seq<u8>>, Seq<u8>)> {
    match split_at_first(seg, crlfcrlf()) {
        None => None,
        Some(hp) => match first_disposition(split_on(hp.0, crlf())) {
            None => None,
            Some(cd) => {
                let params = split_on(cd, seq![59u8]);
                match param_value(params, "name=".spec_bytes()) {
                    None => None,
                    Some(nm) => Some(
                        (
                            nm,
                            param_value(params, "filename=".spec_bytes()),
                            trim_trailing_crlf(hp.1),
                        ),
                    ),
                }
            },
        },
    }
}

/// The entries of a sequence of segments, in order of appearance.
pub open spec fn entries_of_segments(segs: Seq<Seq<u8>>) -> Seq<
    (Seq<u8>, Option<Seq<u8>>, Seq<u8>),
>
    decreases segs.len(),
{
    if segs.len() == 0 {
        Seq::empty()
    } else {
        let rest = entries_of_segments(segs.drop_last());
        match segment_entry(segs.last()) {
            Some(e) => rest.push(e),
            None => rest,
        }
    }
}

/// The form entries of a multipart body: the body is split at every
/// occurrence of the delimiter and each segment contributes its entry.
pub open spec fn multipart_entries(body: Seq<u8>, boundary: Seq<u8>) -> Seq<
    (Seq<u8>, Option<Seq<u8>>, Seq<u8>),
> {
    entries_of_segments(split_on(body, delimiter_of(boundary)))
}

/// `part` never contains the delimiter, not even as a run flowing into the
/// delimiter that follows it on the wire.
pub open spec fn delimiter_free(part: Seq<u8>, delim: Seq<u8>) -> bool {
    forall|j: int| 0 <= j < part.len() ==> !crate::bytes::match_at(part + delim, delim, j)
}

/// The closing piece of a multipart body: the `--` of the final delimiter
/// and its line break.
pub open spec fn closing_piece() -> Seq<u8> {
    seq![45u8, 45u8, 13u8, 10u8]
}

/// The wire tail of a sequence of parts: each part followed by the
/// delimiter, the last delimiter closed off by `--` and a line break.
pub open spec fn joined_parts(parts: Seq<Seq<u8>>, delim: Seq<u8>) -> Seq<u8>
    decreases parts.len(),
{
    if parts.len() == 0 {
        closing_piece()
    } else {
        parts[0] + delim + joined_parts(parts.drop_first(), delim)
    }
}

/// Splitting takes off a delimiter-free piece in front of a delimiter.
proof fn lemma_split_on_prepend(a: Seq<u8>, delim: Seq<u8>, b: Seq<u8>)
    requires
        delim.len() >= 1,
        forall|j: int| 0 <= j < a.len() ==> !crate::bytes::match_at(a + delim + b, delim, j),
    ensures
        split_on(a + delim + b, delim) == seq![a] + split_on(b, delim),
{
    let s = a + delim + b;
    assert(crate::bytes::match_at(s, delim, a.len() as int)) by {
        assert(forall|x: int|
            0 <= x < delim.len() ==> s[a.len() + x] == #[trigger] delim[x]);
    }
    crate::bytes::lemma_find_first_is(s, delim, a.len() as int);
    assert(s.take(a.len() as int) =~= a);
    assert(s.skip(a.len() as int + delim.len() as int) =~= b);
    assert(split_on(s, delim) == seq![s.take(a.len() as int)] + split_on(
        s.skip(a.len() as int + delim.len() as int),
        delim,
    ));
}

/// The delimiter of a line-break-free boundary does not occur inside the
/// closing piece.
proof fn lemma_closing_piece_whole(delim: Seq<u8>)
    requires
        delim.len() >= 3,
        delim[0] == 45,
        delim[1] == 45,
        delim[2] != 13,
    ensures
        split_on(closing_piece(), delim) == seq![closing_piece()],
{
    let s = closing_piece();
    assert forall|j: int| 0 <= j implies !crate::bytes::match_at(s, delim, j) by {
        if crate::bytes::match_at(s, delim, j) {
            assert(j + delim.len() <= 4);
            if j == 0 {
                assert(s[2] == delim[2]);
            } else {
                assert(s[j + 1] == delim[1]);
            }
        }
    }
    crate::bytes::lemma_find_first_none(s, delim);
}

/// Splitting the joined tail recovers every part, in order, and the
/// closing piece.
proof fn lemma_joined_parts_split(parts: Seq<Seq<u8>>, delim: Seq<u8>)
    requires
        delim.len() >= 3,
        delim[0] == 45,
        delim[1] == 45,
        delim[2] != 13,
        forall|i: int| 0 <= i < parts.len() ==> delimiter_free(#[trigger] parts[i], delim),
    ensures
        split_on(joined_parts(parts, delim), delim) == parts + seq![closing_piece()],
    decreases parts.len(),
{
    if parts.len() == 0 {
        lemma_closing_piece_whole(delim);
        assert(seq![closing_piece()] =~= parts + seq![closing_piece()]);
    } else {
        let p0 = parts[0];
        let rest = joined_parts(parts.drop_first(), delim);
        assert(delimiter_free(p0, delim));
        assert forall|j: int| 0 <= j < p0.len() implies !crate::bytes::match_at(
            p0 + delim + rest,
            delim,
            j,
        ) by {
            if crate::bytes::match_at(p0 + delim + rest, delim, j) {
                assert(forall|x: int|
                    0 <= x < delim.len() ==> (p0 + delim + rest)[j + x] == #[trigger] (p0
                        + delim)[j + x]);
                assert(crate::bytes::match_at(p0 + delim, delim, j));
            }
        }
        lemma_split_on_prepend(p0, delim, rest);
        assert(forall|i: int|
            0 <= i < parts.drop_first().len() ==> #[trigger] parts.drop_first()[i] == parts[i
                + 1]);
        lemma_joined_parts_split(parts.drop_first(), delim);
        assert(seq![p0] + (parts.drop_first() + seq![closing_piece()]) =~= parts + seq![
            closing_piece(),
        ]);
    }
}

/// A segment that contributes no entry changes nothing when put in front.
proof fn lemma_entries_prepend_none(seg: Seq<u8>, segs: Seq<Seq<u8>>)
    requires
        segment_entry(seg) is None,
    ensures
        entries_of_segments(seq![seg] + segs) == entries_of_segments(segs),
    decreases segs.len(),
{
    let u = seq![seg] + segs;
    if segs.len() == 0 {
        assert(u.drop_last() =~= Seq::<Seq<u8>>::empty());
        assert(u.last() == seg);
        assert(entries_of_segments(u) == entries_of_segments(u.drop_last()));
        assert(entries_of_segments(u.drop_last()) =~= Seq::<
            (Seq<u8>, Option<Seq<u8>>, Seq<u8>),
        >::empty());
        assert(entries_of_segments(segs) =~= Seq::<
            (Seq<u8>, Option<Seq<u8>>, Seq<u8>),
        >::empty());
    } else {
        assert(u.drop_last() =~= seq![seg] + segs.drop_last());
        assert(u.last() == segs.last());
        lemma_entries_prepend_none(seg, segs.drop_last());
        assert(entries_of_segments(u.drop_last()) == entries_of_segments(segs.drop_last()));
        assert(entries_of_segments(u) == (match segment_entry(u.last()) {
            Some(e) => entries_of_segments(u.drop_last()).push(e),
            None => entries_of_segments(u.drop_last()),
        }));
        assert(entries_of_segments(segs) == (match segment_entry(segs.last()) {
            Some(e) => entries_of_segments(segs.drop_last()).push(e),
            None => entries_of_segments(segs.drop_last()),
        }));
    }
}

/// When every segment contributes an entry, the decoded sequence is exactly
/// one entry per segment, in segment order.
proof fn lemma_entries_all_some(segs: Seq<Seq<u8>>)
    requires
        forall|i: int| 0 <= i < segs.len() ==> segment_entry(#[trigger] segs[i]) is Some,
    ensures
        entries_of_segments(segs) == Seq::new(
            segs.len(),
            |i: int| segment_entry(segs[i])->Some_0,
        ),
    decreases segs.len(),
{
    if segs.len() == 0 {
        assert(entries_of_segments(segs) =~= Seq::new(
            segs.len(),
            |i: int| segment_entry(segs[i])->Some_0,
        ));
    } else {
        let d = segs.drop_last();
        assert(forall|i: int| 0 <= i < d.len() ==> #[trigger] d[i] == segs[i]);
        lemma_entries_all_some(d);
        assert(segment_entry(segs.last()) is Some);
        assert(entries_of_segments(segs) =~= Seq::new(
            segs.len(),
            |i: int| segment_entry(segs[i])->Some_0,
        ));
    }
}

/// Decomposing a body assembled from `k` parts yields exactly those parts'
/// entries, in order of appearance — parts that share a field name
/// included, each with its own bytes. The parts must not contain the
/// delimiter, and the boundary must be free of line breaks; nothing else
/// about one part can disturb another.
pub proof fn lemma_multipart_parts_decode(parts: Seq<Seq<u8>>, boundary: Seq<u8>)
    requires
        boundary.len() >= 1,
        boundary[0] != 13,
        forall|i: int| 0 <= i < parts.len() ==> delimiter_free(
            #[trigger] parts[i],
            delimiter_of(boundary),
        ),
    ensures
        ({
            let body = delimiter_of(boundary) + joined_parts(parts, delimiter_of(boundary));
            &&& multipart_entries(body, boundary) == entries_of_segments(parts)
            &&& (forall|i: int|
                0 <= i < parts.len() ==> segment_entry(#[trigger] parts[i]) is Some)
                ==> multipart_entries(body, boundary) == Seq::new(
                parts.len(),
                |i: int| segment_entry(parts[i])->Some_0,
            )
        }),
{
    let delim = delimiter_of(boundary);
    let tail = joined_parts(parts, delim);
    let body = delim + tail;
    assert(delim.len() >= 3 && delim[0] == 45 && delim[1] == 45 && delim[2] != 13);
    assert(Seq::<u8>::empty() + delim + tail =~= body);
    assert forall|j: int|
        0 <= j < Seq::<u8>::empty().len() implies !crate::bytes::match_at(
        Seq::<u8>::empty() + delim + tail,
        delim,
        j,
    ) by {}
    lemma_split_on_prepend(Seq::empty(), delim, tail);
    lemma_joined_parts_split(parts, delim);
    assert(split_on(body, delim) == seq![Seq::<u8>::empty()] + (parts + seq![
        closing_piece(),
    ]));
    // neither the empty opening segment nor the closing piece has a blank
    // line, so neither contributes an entry
    assert(segment_entry(Seq::<u8>::empty()) is None) by {
        crate::bytes::lemma_find_from_props(Seq::<u8>::empty(), crlfcrlf(), 0);
    }
    assert(segment_entry(closing_piece()) is None) by {
        assert forall|j: int| 0 <= j implies !crate::bytes::match_at(
            closing_piece(),
            crlfcrlf(),
            j,
        ) by {
            if crate::bytes::match_at(closing_piece(), crlfcrlf(), j) {
                assert(closing_piece()[j] == crlfcrlf()[0]);
            }
        }
        crate::bytes::lemma_find_first_none(closing_piece(), crlfcrlf());
    }
    let with_close = parts + seq![closing_piece()];
    assert(entries_of_segments(with_close) == entries_of_segments(parts)) by {
        assert(with_close.drop_last() =~= parts);
        assert(with_close.last() == closing_piece());
    }
    lemma_entries_prepend_none(Seq::empty(), with_close);
    assert(seq![Seq::<u8>::empty()] + with_close =~= split_on(body, delim));
    if forall|i: int| 0 <= i < parts.len() ==> segment_entry(#[trigger] parts[i]) is Some {
        lemma_entries_all_some(parts);
    }
}

/// Exec mirror of `first_disposition`.
fn first_disposition_exec(lines: &[Vec<u8>]) -> (r: Option<Vec<u8>>)
    ensures
        match r {
            Some(v) => first_disposition(lines@.map_values(|l: Vec<u8>| l@)) == Some(v@),
            None => first_disposition(lines@.map_values(|l: Vec<u8>| l@)) is None,
        },
    decreases lines.len(),
{
    if lines.len() == 0 {
        return None;
    }
    let sep = colon_sp_vec();
    let ghost lns = lines@.map_values(|l: Vec<u8>| l@);
    let rest = &lines[1..lines.len()];
    proof {
        assert(lines@.subrange(1, lines@.len() as int).map_values(|l: Vec<u8>| l@) =~= lns
            .drop_first());
    }
    match split_at_first_exec(lines[0].as_slice(), sep.as_slice()) {
        Some(p) => {
            let cd = str_bytes("Content-Disposition");
            if crate::bytes::bytes_eq(p.0.as_slice(), cd.as_slice()) {
                Some(p.1)
            } else {
                first_disposition_exec(rest)
            }
        },
        None => first_disposition_exec(rest),
    }
}

/// Exec mirror of `param_value`.
fn param_value_exec(params: &[Vec<u8>], prefix: &[u8]) -> (r: Option<Vec<u8>>)
    ensures
        match r {
            Some(v) => param_value(params@.map_values(|l: Vec<u8>| l@), prefix@) == Some(v@),
            None => param_value(params@.map_values(|l: Vec<u8>| l@), prefix@) is None,
        },
    decreases params.len(),
{
    if params.len() == 0 {
        return None;
    }
    let ghost ps = params@.map_values(|l: Vec<u8>| l@);
    let rest = &params[1..params.len()];
    proof {
        assert(params@.subrange(1, params@.len() as int).map_values(|l: Vec<u8>| l@) =~= ps
            .drop_first());
    }
    let p = trim_ws_exec(params[0].as_slice());
    if starts_with(p.as_slice(), prefix) {
        let tail = subvec(p.as_slice(), prefix.len(), p.len());
        proof {
            assert(p@.subrange(prefix@.len() as int, p@.len() as int) =~= p@.skip(
                prefix@.len() as int,
            ));
        }
        Some(trim_quotes_exec(tail.as_slice()))
    } else {
        param_value_exec(rest, prefix)
    }
}

/// Exec mirror of `segment_entry`.
fn segment_entry_exec(seg: &[u8]) -> (r: Option<FormEntry>)
    ensures
        match r {
            Some(e) => segment_entry(seg@) == Some(e@),
            None => segment_entry(seg@) is None,
        },
{
    let blank = crlfcrlf_vec();
    match split_at_first_exec(seg, blank.as_slice()) {
        None => None,
        Some(hp) => {
            let nl = crlf_vec();
            let lines = split_on_exec(hp.0.as_slice(), nl.as_slice());
            match first_disposition_exec(lines.as_slice()) {
                None => None,
                Some(cd) => {
                    let mut semi: Vec<u8> = Vec::new();
                    semi.push(59);
                    proof {
                        assert(semi@ =~= seq![59u8]);
                    }
                    let params = split_on_exec(cd.as_slice(), semi.as_slice());
                    let name_pre = str_bytes("name=");
                    match param_value_exec(params.as_slice(), name_pre.as_slice()) {
                        None => None,
                        Some(nm) => {
                            let file_pre = str_bytes("filename=");
                            let filename = param_value_exec(
                                params.as_slice(),
                                file_pre.as_slice(),
                            );
                            let content = hp.1;
                            let n = content.len();
                            let data: Vec<u8> = if n >= 2 && content[n - 2] == 13 && content[n
                                - 1] == 10 {
                                let d = subvec(content.as_slice(), 0, n - 2);
                                proof {
                                    assert(content@.subrange(0, n - 2) =~= content@.take(
                                        n - 2,
                                    ));
                                }
                                d
                            } else {
                                content
                            };
                            Some(FormEntry { name: nm, filename, data })
                        },
                    }
                },
            }
        },
    }
}

/// Decompose a multipart body along `boundary` into its form entries, in
/// order of appearance in the body.
pub fn decode_multipart(body: &[u8], boundary: &[u8]) -> (r: Vec<FormEntry>)
    ensures
        r@.map_values(|e: FormEntry| e@) == multipart_entries(body@, boundary@),
{
    let mut delim: Vec<u8> = Vec::new();
    delim.push(45);
    delim.push(45);
    push_all(&mut delim, boundary);
    proof {
        assert(delim@ =~= delimiter_of(boundary@));
    }
    let segs = split_on_exec(body, delim.as_slice());
    let ghost sgs = segs@.map_values(|l: Vec<u8>| l@);
    let mut r: Vec<FormEntry> = Vec::new();
    let mut i: usize = 0;
    proof {
        assert(r@.map_values(|e: FormEntry| e@) =~= entries_of_segments(sgs.take(0)));
    }
    while i < segs.len()
        invariant
            0 <= i <= segs.len(),
            sgs == segs@.map_values(|l: Vec<u8>| l@),
            sgs == split_on(body@, delimiter_of(boundary@)),
            r@.map_values(|e: FormEntry| e@) == entries_of_segments(sgs.take(i as int)),
        decreases segs.len() - i,
    {
        let e = segment_entry_exec(segs[i].as_slice());
        proof {
            assert(sgs.take(i + 1).drop_last() =~= sgs.take(i as int));
            assert(sgs.take(i + 1).last() == sgs[i as int]);
        }
        match e {
            Some(entry) => {
                r.push(entry);
                proof {
                    assert(r@.map_values(|e2: FormEntry| e2@) =~= entries_of_segments(
                        sgs.take(i + 1),
                    ));
                }
            },
            None => {
                proof {
                    assert(r@.map_values(|e2: FormEntry| e2@) =~= entries_of_segments(
                        sgs.take(i + 1),
                    ));
                }
            },
        }
        i += 1;
    }
    proof {
        assert(sgs.take(sgs.len() as int) =~= sgs);
    }
    r
}

} // verus!
