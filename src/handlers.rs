use vstd::prelude::*;
use crate::text::{find, find_exec, has_prefix, push_all, slice_of, starts_with, decimal, decimal_exec, to_vec};
use crate::auth::is_text;
use crate::crypto::{hex_encode, hex_lower, md5_digest, md5_of, md5_fed, md5_feed, md5_finish, md5_start, json_string_field, json_string_field_of};
use crate::config::utf8;

verus! {

pub const STATUS_OK: u16 = 200;
pub const STATUS_NO_CONTENT: u16 = 204;
pub const STATUS_PARTIAL_CONTENT: u16 = 206;
pub const STATUS_BAD_REQUEST: u16 = 400;
pub const STATUS_FORBIDDEN: u16 = 403;
pub const STATUS_NOT_FOUND: u16 = 404;
pub const STATUS_CONFLICT: u16 = 409;
pub const STATUS_INTERNAL_ERROR: u16 = 500;
pub const STATUS_NOT_IMPLEMENTED: u16 = 501;

/// A status code with a body of bytes.
pub struct Reply {
    pub status: u16,
    pub body: Vec<u8>,
}

/// The value of a string of ASCII digits.
pub open spec fn digits_value(d: Seq<u8>) -> nat
    decreases d.len(),
{
    if d.len() == 0 {
        0
    } else {
        digits_value(d.drop_last()) * 10 + (d.last() - 48) as nat
    }
}

/// Every byte is an ASCII digit.
pub open spec fn all_digits(d: Seq<u8>) -> bool {
    forall|i: int| 0 <= i < d.len() ==> 48u8 <= #[trigger] d[i] && d[i] <= 57u8
}

/// An unsigned decimal as `u64::from_str` reads it: an optional `+`, then at
/// least one digit, and a value that fits.
pub open spec fn parse_u64_spec(s: Seq<u8>) -> Option<u64> {
    let d = if s.len() > 0 && s[0] == 43u8 { s.drop_first() } else { s };
    if d.len() == 0 || !all_digits(d) || digits_value(d) > u64::MAX {
        None
    } else {
        Some(digits_value(d) as u64)
    }
}

proof fn lemma_digits_grow(d: Seq<u8>, k: int)
    requires
        0 <= k <= d.len(),
        all_digits(d),
    ensures
        digits_value(d) >= digits_value(d.subrange(0, k)),
    decreases d.len() - k,
{
    if k < d.len() {
        lemma_digits_grow(d, k + 1);
        let a = d.subrange(0, k + 1);
        assert(a.drop_last() =~= d.subrange(0, k));
        let v = digits_value(d.subrange(0, k));
        assert(digits_value(a) == v * 10 + (a.last() - 48) as nat);
        assert(v * 10 + (a.last() - 48) as nat >= v) by (nonlinear_arith);
    } else {
        assert(d.subrange(0, k) =~= d);
    }
}

/// Reads an unsigned decimal number.
pub fn parse_u64(s: &[u8]) -> (r: Option<u64>)
    ensures
        r == parse_u64_spec(s@),
{
    let start: usize = if s.len() > 0 && s[0] == 43u8 { 1 } else { 0 };
    let ghost d = if s@.len() > 0 && s@[0] == 43u8 { s@.drop_first() } else { s@ };
    assert(d =~= s@.subrange(start as int, s@.len() as int));
    if start == s.len() {
        return None;
    }
    let mut acc: u64 = 0;
    let mut i: usize = start;
    assert(d.subrange(0, 0) =~= Seq::<u8>::empty());
    while i < s.len()
        invariant
            start <= i <= s@.len(),
            d =~= s@.subrange(start as int, s@.len() as int),
            d == (if s@.len() > 0 && s@[0] == 43u8 { s@.drop_first() } else { s@ }),
            all_digits(d.subrange(0, i - start)),
            acc as nat == digits_value(d.subrange(0, i - start)),
        decreases s.len() - i,
    {
        let c = s[i];
        let ghost k = i - start;
        assert(d.subrange(0, k + 1).drop_last() =~= d.subrange(0, k as int));
        assert(d[k as int] == c);
        if c < 48u8 || c > 57u8 {
            assert(!all_digits(d)) by {
                assert(!(48u8 <= d[k as int] && d[k as int] <= 57u8));
            }
            assert(parse_u64_spec(s@) is None);
            return None;
        }
        assert(d.subrange(0, k + 1).last() == c);
        let dig: u64 = (c - 48u8) as u64;
        if acc > (u64::MAX - dig) / 10 {
            proof {
                let v = acc as int;
                assert(v * 10 + dig > u64::MAX) by (nonlinear_arith)
                    requires v > (u64::MAX - dig) / 10, 0 <= dig <= 9;
                assert(all_digits(d.subrange(0, k + 1)));
                assert(digits_value(d.subrange(0, k + 1)) == v * 10 + dig);
                if all_digits(d) {
                    lemma_digits_grow(d, k + 1);
                }
                assert(parse_u64_spec(s@) is None);
            }
            return None;
        }
        proof {
            let v = acc as int;
            assert(v * 10 + dig <= u64::MAX) by (nonlinear_arith)
                requires v <= (u64::MAX - dig) / 10, 0 <= dig <= 9;
        }
        acc = acc * 10 + dig;
        i = i + 1;
        assert(all_digits(d.subrange(0, i - start)));
    }
    assert(d.subrange(0, i - start) =~= d);
    Some(acc)
}

/// The inclusive byte range a `Range: bytes=start-end` header asks of an
/// object of `total` bytes: both ends decimal numbers with
/// `start <= end < total`. Any other header, an empty or non-numeric end
/// included, gives `None`: the whole object is served.
pub open spec fn range_of(header: Option<Seq<u8>>, total: u64) -> Option<(u64, u64)> {
    match header {
        None => None,
        Some(h) => {
            let unit = utf8("bytes="@);
            if !is_text(h) || !starts_with(h, unit) {
                None
            } else {
                let r = h.subrange(unit.len() as int, h.len() as int);
                match find(r, seq![0x2du8]) {
                    None => None,
                    Some(i) => match parse_u64_spec(r.subrange(0, i)) {
                        None => None,
                        Some(start) => {
                            match parse_u64_spec(r.subrange(i + 1, r.len() as int)) {
                                None => None,
                                Some(end) => if start <= end && end < total {
                                    Some((start, end))
                                } else {
                                    None
                                },
                            }
                        },
                    },
                }
            }
        },
    }
}

/// Resolves a `Range` header against an object size.
pub fn resolve_range(header: Option<&[u8]>, total: u64) -> (r: Option<(u64, u64)>)
    ensures
        r == range_of(match header { Some(h) => Some(h@), None => None }, total),
{
    let h = match header {
        Some(h) => h,
        None => { return None; },
    };
    let unit = "bytes=".as_bytes_vec();
    if !crate::auth::is_text_value(h) || !has_prefix(h, unit.as_slice()) {
        return None;
    }
    let r = slice_of(h, unit.len(), h.len());
    let dash: Vec<u8> = vec![0x2du8];
    assert(dash@ =~= seq![0x2du8]);
    let i = match find_exec(r.as_slice(), dash.as_slice()) {
        Some(i) => i,
        None => { return None; },
    };
    let n = r.len();
    assert(i < n);
    let start_s = slice_of(r.as_slice(), 0, i);
    let end_s = slice_of(r.as_slice(), i + 1, n);
    let start = match parse_u64(start_s.as_slice()) {
        Some(v) => v,
        None => { return None; },
    };
    let end = match parse_u64(end_s.as_slice()) {
        Some(e) => e,
        None => { return None; },
    };
    if start <= end && end < total {
        Some((start, end))
    } else {
        None
    }
}

/// How a `GetObject` request is answered.
pub enum GetPlan {
    /// `404`: no such object.
    NotFound,
    /// `206`: bytes `start..=end` of an object of `total` bytes.
    Partial { start: u64, end: u64, total: u64 },
    /// `200`: the whole object, with its length where known.
    Full { content_length: Option<u64> },
}

/// Plans the answer to `GetObject` from whether the object's file exists, its
/// size where it could be read, and the `Range` header. An unsatisfiable range
/// gets the whole object.
pub fn get_object(is_file: bool, size: Option<u64>, range: Option<&[u8]>) -> (r: GetPlan)
    ensures
        !is_file ==> r is NotFound,
        is_file ==> match range_of(match range { Some(h) => Some(h@), None => None }, match size { Some(n) => n, None => 0 }) {
            Some((s, e)) => r == GetPlan::Partial { start: s, end: e, total: match size { Some(n) => n, None => 0 } },
            None => r == GetPlan::Full { content_length: size },
        },
{
    if !is_file {
        return GetPlan::NotFound;
    }
    let total: u64 = match size {
        Some(n) => n,
        None => 0,
    };
    match resolve_range(range, total) {
        Some((start, end)) => GetPlan::Partial { start, end, total },
        None => GetPlan::Full { content_length: size },
    }
}

/// `bytes start-end/total`.
pub open spec fn content_range_spec(start: u64, end: u64, total: u64) -> Seq<u8> {
    utf8("bytes "@) + decimal(start as nat) + seq![0x2du8] + decimal(end as nat) + seq![0x2fu8] + decimal(total as nat)
}

/// The `Content-Range` value of a partial answer.
pub fn content_range(start: u64, end: u64, total: u64) -> (r: Vec<u8>)
    ensures
        r@ == content_range_spec(start, end, total),
{
    let mut out = "bytes ".as_bytes_vec();
    push_all(&mut out, decimal_exec(start).as_slice());
    out.push(0x2du8);
    push_all(&mut out, decimal_exec(end).as_slice());
    out.push(0x2fu8);
    push_all(&mut out, decimal_exec(total).as_slice());
    out
}

/// The number of bytes in `start..=end`.
pub fn range_length(start: u64, end: u64) -> (r: u64)
    requires
        start <= end,
        end - start < u64::MAX,
    ensures
        r == end - start + 1,
{
    (end - start) + 1
}

/// `"` + the lower-case hex of a digest + `"`.
pub open spec fn quoted_hex(digest: Seq<u8>) -> Seq<u8> {
    seq![0x22u8] + hex_lower(digest) + seq![0x22u8]
}

/// The ETag for a digest: its quoted lower-case hex.
pub fn quoted_etag(digest: &[u8]) -> (r: Vec<u8>)
    ensures
        r@ == quoted_hex(digest@),
{
    let mut out: Vec<u8> = vec![0x22u8];
    push_all(&mut out, hex_encode(digest).as_slice());
    out.push(0x22u8);
    assert(out@ =~= quoted_hex(digest@));
    out
}

/// The ETag of an object's bytes: the quoted hex MD5.
pub fn etag_of(data: &[u8]) -> (r: Vec<u8>)
    ensures
        r@ == quoted_hex(md5_of(data@)),
{
    quoted_etag(md5_digest(data).as_slice())
}

/// The sidecar document `{"content_type":"application/octet-stream","etag":"\"<hex>\""}`.
pub open spec fn meta_document_spec(digest: Seq<u8>) -> Seq<u8> {
    utf8("{\"content_type\":\"application/octet-stream\",\"etag\":\"\\\""@) + hex_lower(digest) + utf8("\\\"\"}"@)
}

/// The metadata sidecar written beside an object with this MD5 digest.
pub fn meta_document(digest: &[u8]) -> (r: Vec<u8>)
    ensures
        r@ == meta_document_spec(digest@),
{
    let mut out = "{\"content_type\":\"application/octet-stream\",\"etag\":\"\\\"".as_bytes_vec();
    push_all(&mut out, hex_encode(digest).as_slice());
    push_all(&mut out, "\\\"\"}".as_bytes_vec().as_slice());
    out
}

/// `s` without its leading slashes.
pub open spec fn strip_slashes(s: Seq<u8>) -> Seq<u8>
    decreases s.len(),
{
    if s.len() > 0 && s[0] == 0x2fu8 {
        strip_slashes(s.drop_first())
    } else {
        s
    }
}

/// The (bucket, key) that `x-amz-copy-source: [/]bucket/key` names; without a
/// slash the whole value is a key in the destination bucket.
pub open spec fn copy_source_spec(src: Seq<u8>, dst_bucket: Seq<u8>) -> (Seq<u8>, Seq<u8>) {
    let t = strip_slashes(src);
    match find(t, seq![0x2fu8]) {
        Some(i) => (t.subrange(0, i), t.subrange(i + 1, t.len() as int)),
        None => (dst_bucket, t),
    }
}

/// Reads the source of a copy.
pub fn copy_source(src: &[u8], dst_bucket: &[u8]) -> (r: (Vec<u8>, Vec<u8>))
    ensures
        (r.0@, r.1@) == copy_source_spec(src@, dst_bucket@),
{
    let mut lo: usize = 0;
    assert(src@.subrange(0, src@.len() as int) =~= src@);
    while lo < src.len() && src[lo] == 0x2fu8
        invariant
            lo <= src@.len(),
            strip_slashes(src@) == strip_slashes(src@.subrange(lo as int, src@.len() as int)),
        decreases src.len() - lo,
    {
        assert(src@.subrange(lo as int, src@.len() as int).drop_first() =~= src@.subrange(lo + 1, src@.len() as int));
        lo = lo + 1;
    }
    let t = slice_of(src, lo, src.len());
    let slash: Vec<u8> = vec![0x2fu8];
    assert(slash@ =~= seq![0x2fu8]);
    match find_exec(t.as_slice(), slash.as_slice()) {
        Some(i) => {
            let n = t.len();
            assert(i < n);
            (slice_of(t.as_slice(), 0, i), slice_of(t.as_slice(), i + 1, n))
        },
        None => (to_vec(dst_bucket), t),
    }
}

/// `HeadBucket`: `200` when the bucket directory exists, else `404`.
pub fn head_bucket(is_dir: bool) -> (r: u16)
    ensures
        r == if is_dir { STATUS_OK } else { STATUS_NOT_FOUND },
{
    if is_dir { STATUS_OK } else { STATUS_NOT_FOUND }
}

/// `CreateBucket` before any effect: `409 BucketAlreadyOwnedByYou` when the
/// bucket exists; `None` when its directory is to be created.
pub fn create_bucket(exists: bool) -> (r: Option<Reply>)
    ensures
        exists <==> r is Some,
        r matches Some(rep) ==> rep.status == STATUS_CONFLICT && rep.body@ == utf8("BucketAlreadyOwnedByYou"@),
{
    if exists {
        Some(Reply { status: STATUS_CONFLICT, body: "BucketAlreadyOwnedByYou".as_bytes_vec() })
    } else {
        None
    }
}

/// `CreateBucket` after creating the directory: `200`, or `500` with the error.
pub fn create_bucket_done(created: Result<(), Vec<u8>>) -> (r: Reply)
    ensures
        match created {
            Ok(()) => r.status == STATUS_OK && r.body@.len() == 0,
            Err(e) => r.status == STATUS_INTERNAL_ERROR && r.body@ == e@,
        },
{
    match created {
        Ok(()) => Reply { status: STATUS_OK, body: Vec::new() },
        Err(e) => Reply { status: STATUS_INTERNAL_ERROR, body: e },
    }
}

/// `DeleteBucket`: `204` when the (empty) directory was removed; `409` when it
/// was not, because it holds objects or does not exist.
pub fn delete_bucket(removed: bool) -> (r: u16)
    ensures
        r == if removed { STATUS_NO_CONTENT } else { STATUS_CONFLICT },
{
    if removed { STATUS_NO_CONTENT } else { STATUS_CONFLICT }
}

/// `DeleteObject` is idempotent: `204` whether or not the object existed.
pub fn delete_object() -> (r: u16)
    ensures
        r == STATUS_NO_CONTENT,
{
    STATUS_NO_CONTENT
}

/// `HeadObject`: `200` with the length where it is known, else `404`.
pub fn head_object(is_file: bool, size: Option<u64>) -> (r: (u16, Option<u64>))
    ensures
        r == if is_file { (STATUS_OK, size) } else { (STATUS_NOT_FOUND, None::<u64>) },
{
    if is_file { (STATUS_OK, size) } else { (STATUS_NOT_FOUND, None) }
}

/// POST on a bucket is not implemented.
pub fn bucket_post() -> (r: Reply)
    ensures
        r.status == STATUS_NOT_IMPLEMENTED,
        r.body@ == utf8("NotImplemented"@),
{
    Reply { status: STATUS_NOT_IMPLEMENTED, body: "NotImplemented".as_bytes_vec() }
}

/// POST on an object is not implemented.
pub fn object_post() -> (r: Reply)
    ensures
        r.status == STATUS_NOT_IMPLEMENTED,
        r.body@ == utf8("NotImplemented"@),
{
    Reply { status: STATUS_NOT_IMPLEMENTED, body: "NotImplemented".as_bytes_vec() }
}

/// The answer to a copy whose source file is missing: `404 NoSuchKey`.
pub fn copy_missing_source() -> (r: Reply)
    ensures
        r.status == STATUS_NOT_FOUND,
        r.body@ == utf8("NoSuchKey"@),
{
    Reply { status: STATUS_NOT_FOUND, body: "NoSuchKey".as_bytes_vec() }
}

/// `<CopyObjectResult><LastModified>..</LastModified><ETag>..</ETag></CopyObjectResult>`.
pub open spec fn copy_result_spec(last_modified: Seq<u8>, etag: Seq<u8>) -> Seq<u8> {
    utf8("<CopyObjectResult><LastModified>"@) + last_modified + utf8("</LastModified><ETag>"@) + etag
        + utf8("</ETag></CopyObjectResult>"@)
}

/// The body of a successful copy, with the ETag of the copied bytes.
pub fn copy_object_result(last_modified: &[u8], copied: &[u8]) -> (r: Vec<u8>)
    ensures
        r@ == copy_result_spec(last_modified@, quoted_hex(md5_of(copied@))),
{
    let mut out = "<CopyObjectResult><LastModified>".as_bytes_vec();
    push_all(&mut out, last_modified);
    push_all(&mut out, "</LastModified><ETag>".as_bytes_vec().as_slice());
    push_all(&mut out, etag_of(copied).as_slice());
    push_all(&mut out, "</ETag></CopyObjectResult>".as_bytes_vec().as_slice());
    out
}

/// The `GetBucketLocation` document for a region.
pub open spec fn location_spec(region: Seq<u8>) -> Seq<u8> {
    utf8("<LocationConstraint xmlns=\"http://s3.amazonaws.com/doc/2006-03-01/\">"@) + region
        + utf8("</LocationConstraint>"@)
}

/// The `GetBucketLocation` answer for the configured region.
pub fn location_constraint(region: &[u8]) -> (r: Vec<u8>)
    ensures
        r@ == location_spec(region@),
{
    let mut out = "<LocationConstraint xmlns=\"http://s3.amazonaws.com/doc/2006-03-01/\">".as_bytes_vec();
    push_all(&mut out, region);
    push_all(&mut out, "</LocationConstraint>".as_bytes_vec().as_slice());
    out
}

/// What happened while an upload body was being received.
pub enum PutEvent {
    /// This chunk was written to the temporary file.
    ChunkStored(Vec<u8>),
    /// Writing a chunk failed.
    WriteFailed,
    /// Reading the request body failed.
    BodyFailed,
    /// The body ended.
    BodyEnded,
}

/// What to do next with an upload.
pub enum PutAction {
    /// Read the next chunk.
    Continue,
    /// Rename the temporary file over the object, write `sidecar` beside it
    /// and answer `200` with `etag`.
    Commit { etag: Vec<u8>, sidecar: Vec<u8> },
    /// Remove the temporary file and answer with this status.
    Discard(u16),
}

/// An upload in progress: a rolling MD5 over the chunks stored so far.
pub struct UploadSink {
    digest: md5::Context,
}

impl UploadSink {
    /// The bytes of the body stored so far.
    pub closed spec fn received(&self) -> Seq<u8> {
        md5_fed(self.digest)
    }

    /// An upload that has stored nothing yet.
    pub fn new() -> (r: UploadSink)
        ensures
            r.received() == Seq::<u8>::empty(),
    {
        UploadSink { digest: md5_start() }
    }
}

/// One step of an upload. Stored chunks are hashed and reading goes on; the end
/// of the body commits, with the ETag (quoted hex MD5 of every stored byte) and
/// the sidecar for that digest; a failed write (`500`) or a failed body read
/// (`400`) discards without committing.
pub fn put_step(sink: &mut UploadSink, event: PutEvent) -> (r: PutAction)
    ensures
        match event {
            PutEvent::ChunkStored(c) => final(sink).received() == old(sink).received() + c@
                && r is Continue,
            PutEvent::WriteFailed => final(sink).received() == old(sink).received()
                && r == PutAction::Discard(STATUS_INTERNAL_ERROR),
            PutEvent::BodyFailed => final(sink).received() == old(sink).received()
                && r == PutAction::Discard(STATUS_BAD_REQUEST),
            PutEvent::BodyEnded => final(sink).received() == old(sink).received() && match r {
                PutAction::Commit { etag, sidecar } => etag@ == quoted_hex(md5_of(old(sink).received()))
                    && sidecar@ == meta_document_spec(md5_of(old(sink).received())),
                _ => false,
            },
        },
{
    match event {
        PutEvent::ChunkStored(c) => {
            md5_feed(&mut sink.digest, c.as_slice());
            PutAction::Continue
        },
        PutEvent::WriteFailed => PutAction::Discard(STATUS_INTERNAL_ERROR),
        PutEvent::BodyFailed => PutAction::Discard(STATUS_BAD_REQUEST),
        PutEvent::BodyEnded => {
            let d = md5_finish(&sink.digest);
            PutAction::Commit { etag: quoted_etag(d.as_slice()), sidecar: meta_document(d.as_slice()) }
        },
    }
}

/// The ETag recorded in an object's metadata sidecar: its `etag` string member.
pub fn sidecar_etag(doc: &[u8]) -> (r: Option<Vec<u8>>)
    ensures
        match r {
            Some(v) => json_string_field_of(doc@, "etag"@) == Some(v@),
            None => json_string_field_of(doc@, "etag"@) is None,
        },
{
    json_string_field(doc, "etag")
}

} // verus!
