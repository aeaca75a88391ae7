use vstd::prelude::*;
use crate::text::{
    bytes_eq, has_prefix, join, lex_lt, lower, lower_exec, push_all, slice_of, split, split_exec,
    starts_with, trim, trim_exec, views, is_ws, bytes_lt, join_exec, find, find_exec,
};
use crate::crypto::{
    form_pairs, form_pairs_of, hex_encode, hex_lower, hmac_sha256, hmac_sha256_of, pair_views,
    percent_encode_byte, percent_triplet, sha256, sha256_of,
};
use crate::config::{GatewayConfig, utf8, utf8_bytes};

verus! {

/// Why a request was refused authentication.
#[derive(Clone, Copy, Debug, PartialEq, Eq, Structural)]
pub enum AuthError {
    MissingAuthorization,
    InvalidAuthorization,
    InvalidAccessKeyId,
    MissingHost,
    SignatureDoesNotMatch,
}

/// The parts of an HTTP request that authentication reads. Header names are
/// lower case, as an HTTP library hands them out.
pub struct RequestParts {
    pub method: Vec<u8>,
    pub path: Vec<u8>,
    pub query: Option<Vec<u8>>,
    pub headers: Vec<(Vec<u8>, Vec<u8>)>,
}

/// Header list as byte strings.
pub open spec fn header_views(h: Seq<(Vec<u8>, Vec<u8>)>) -> Seq<(Seq<u8>, Seq<u8>)> {
    h.map_values(|p: (Vec<u8>, Vec<u8>)| (p.0@, p.1@))
}

/// The value of the first header called `name`.
pub open spec fn lookup(hs: Seq<(Seq<u8>, Seq<u8>)>, name: Seq<u8>) -> Option<Seq<u8>>
    decreases hs.len(),
{
    if hs.len() == 0 {
        None
    } else if hs[0].0 == name {
        Some(hs[0].1)
    } else {
        lookup(hs.drop_first(), name)
    }
}

/// A header value that reads as text: visible ASCII, spaces and tabs.
pub open spec fn is_text(v: Seq<u8>) -> bool {
    forall|i: int| 0 <= i < v.len() ==> (v[i] == 9u8 || (32u8 <= v[i] && v[i] < 127u8))
}

/// The value of header `name` where it reads as text.
pub open spec fn header_text(hs: Seq<(Seq<u8>, Seq<u8>)>, name: Seq<u8>) -> Option<Seq<u8>> {
    match lookup(hs, name) {
        Some(v) => if is_text(v) { Some(v) } else { None },
        None => None,
    }
}

/// Each run of whitespace replaced by one space.
pub open spec fn collapse(s: Seq<u8>) -> Seq<u8>
    decreases s.len(),
{
    if s.len() == 0 {
        Seq::empty()
    } else {
        let p = collapse(s.drop_last());
        if is_ws(s.last()) {
            if s.len() >= 2 && is_ws(s[s.len() - 2]) {
                p
            } else {
                p.push(0x20u8)
            }
        } else {
            p.push(s.last())
        }
    }
}

/// A header value as it enters the canonical request: whitespace runs
/// collapsed and the ends trimmed; empty where the value is not text.
pub open spec fn canonical_value(v: Seq<u8>) -> Seq<u8> {
    if is_text(v) {
        trim(collapse(v))
    } else {
        Seq::empty()
    }
}

/// The value of the first header called `name`.
pub fn find_header(headers: &Vec<(Vec<u8>, Vec<u8>)>, name: &[u8]) -> (r: Option<Vec<u8>>)
    ensures
        match r {
            Some(v) => lookup(header_views(headers@), name@) == Some(v@),
            None => lookup(header_views(headers@), name@) is None,
        },
{
    let ghost hs = header_views(headers@);
    let mut i: usize = 0;
    assert(hs.subrange(0, hs.len() as int) =~= hs);
    while i < headers.len()
        invariant
            i <= headers@.len(),
            hs == header_views(headers@),
            lookup(hs, name@) == lookup(hs.subrange(i as int, hs.len() as int), name@),
        decreases headers.len() - i,
    {
        assert(hs.subrange(i as int, hs.len() as int).drop_first() =~= hs.subrange(i + 1, hs.len() as int));
        if bytes_eq(headers[i].0.as_slice(), name) {
            return Some(crate::text::to_vec(headers[i].1.as_slice()));
        }
        i = i + 1;
    }
    None
}

/// Whether a header value reads as text.
pub fn is_text_value(v: &[u8]) -> (r: bool)
    ensures
        r == is_text(v@),
{
    let mut i: usize = 0;
    while i < v.len()
        invariant
            i <= v@.len(),
            forall|j: int| 0 <= j < i ==> (v@[j] == 9u8 || (32u8 <= v@[j] && v@[j] < 127u8)),
        decreases v.len() - i,
    {
        if !(v[i] == 9u8 || (32u8 <= v[i] && v[i] < 127u8)) {
            return false;
        }
        i = i + 1;
    }
    true
}

/// The value of header `name` where it reads as text.
pub fn find_header_text(headers: &Vec<(Vec<u8>, Vec<u8>)>, name: &[u8]) -> (r: Option<Vec<u8>>)
    ensures
        match r {
            Some(v) => header_text(header_views(headers@), name@) == Some(v@),
            None => header_text(header_views(headers@), name@) is None,
        },
{
    match find_header(headers, name) {
        Some(v) => if is_text_value(v.as_slice()) { Some(v) } else { None },
        None => None,
    }
}

/// Collapses whitespace runs in a header value and trims it.
pub fn collapse_ws(val: &[u8]) -> (r: Vec<u8>)
    ensures
        r@ == canonical_value(val@),
{
    if !is_text_value(val) {
        return Vec::new();
    }
    let mut out: Vec<u8> = Vec::new();
    let mut last_space = false;
    let mut i: usize = 0;
    while i < val.len()
        invariant
            i <= val@.len(),
            out@ == collapse(val@.subrange(0, i as int)),
            last_space == (i > 0 && is_ws(val@[i - 1])),
        decreases val.len() - i,
    {
        let ch = val[i];
        let ghost next = val@.subrange(0, i + 1);
        assert(next.drop_last() =~= val@.subrange(0, i as int));
        if ch == 0x20u8 || (0x09u8 <= ch && ch <= 0x0du8) {
            if !last_space {
                out.push(0x20u8);
            }
            last_space = true;
        } else {
            out.push(ch);
            last_space = false;
        }
        i = i + 1;
    }
    assert(val@.subrange(0, i as int) =~= val@);
    trim_exec(out.as_slice())
}

/// What a request claims about its signature.
pub struct ContextModel {
    pub access_key: Seq<u8>,
    pub date: Seq<u8>,
    pub region: Option<Seq<u8>>,
    pub service: Option<Seq<u8>>,
    pub signed_headers: Seq<u8>,
    pub signature: Seq<u8>,
    pub amz_date: Option<Seq<u8>>,
}

/// The parsed signature context of one request: access key, date, region,
/// service, signed-header list and signature.
pub struct SignatureContext {
    pub access_key: Vec<u8>,
    pub date: Vec<u8>,
    pub region: Option<Vec<u8>>,
    pub service: Option<Vec<u8>>,
    pub signed_headers: Vec<u8>,
    pub signature: Vec<u8>,
    pub amz_date: Option<Vec<u8>>,
}

/// An optional byte vector as an optional byte string.
pub open spec fn opt_view(o: Option<Vec<u8>>) -> Option<Seq<u8>> {
    match o {
        Some(v) => Some(v@),
        None => None,
    }
}

impl View for SignatureContext {
    type V = ContextModel;

    open spec fn view(&self) -> ContextModel {
        ContextModel {
            access_key: self.access_key@,
            date: self.date@,
            region: opt_view(self.region),
            service: opt_view(self.service),
            signed_headers: self.signed_headers@,
            signature: self.signature@,
            amz_date: opt_view(self.amz_date),
        }
    }
}

/// The context named by a credential `<access>/<date>/<region>/<service>/aws4_request`;
/// a missing region or service is left open.
pub open spec fn credential_model(
    cred: Seq<u8>,
    signed_headers: Seq<u8>,
    signature: Seq<u8>,
    amz_date: Option<Seq<u8>>,
) -> ContextModel {
    let parts = split(cred, 0x2fu8);
    ContextModel {
        access_key: parts[0],
        date: if parts.len() > 1 { parts[1] } else { Seq::empty() },
        region: if parts.len() > 2 { Some(parts[2]) } else { None },
        service: if parts.len() > 3 { Some(parts[3]) } else { None },
        signed_headers,
        signature,
        amz_date,
    }
}

/// The credential has a non-empty scope after its date.
pub open spec fn has_scope(cred: Seq<u8>) -> bool {
    let parts = split(cred, 0x2fu8);
    parts.len() > 3 || (parts.len() == 3 && parts[2].len() > 0)
}

/// The value of the last trimmed part that starts with `key`, without `key`.
pub open spec fn last_field(parts: Seq<Seq<u8>>, key: Seq<u8>) -> Option<Seq<u8>>
    decreases parts.len(),
{
    if parts.len() == 0 {
        None
    } else {
        let p = trim(parts.last());
        if starts_with(p, key) {
            Some(p.subrange(key.len() as int, p.len() as int))
        } else {
            last_field(parts.drop_last(), key)
        }
    }
}

/// The value, or the empty string where there is none.
pub open spec fn or_empty(o: Option<Seq<u8>>) -> Seq<u8> {
    match o {
        Some(v) => v,
        None => Seq::empty(),
    }
}

/// An `Authorization` header `AWS4-HMAC-SHA256 Credential=..., SignedHeaders=..., Signature=...`
/// read as a context; `None` unless access key, signed headers, signature and scope are all there.
pub open spec fn authz_model(a: Seq<u8>) -> Option<ContextModel> {
    let scheme = utf8("AWS4-HMAC-SHA256 "@);
    if !starts_with(a, scheme) {
        None
    } else {
        let parts = split(a.subrange(scheme.len() as int, a.len() as int), 0x2cu8);
        let cred = or_empty(last_field(parts, utf8("Credential="@)));
        let sh = or_empty(last_field(parts, utf8("SignedHeaders="@)));
        let sig = or_empty(last_field(parts, utf8("Signature="@)));
        let m = credential_model(cred, sh, sig, None);
        if m.access_key.len() == 0 || sh.len() == 0 || sig.len() == 0 || !has_scope(cred) {
            None
        } else {
            Some(m)
        }
    }
}

/// The value of the last pair called `key`.
pub open spec fn last_pair(pairs: Seq<(Seq<u8>, Seq<u8>)>, key: Seq<u8>) -> Option<Seq<u8>>
    decreases pairs.len(),
{
    if pairs.len() == 0 {
        None
    } else if pairs.last().0 == key {
        Some(pairs.last().1)
    } else {
        last_pair(pairs.drop_last(), key)
    }
}

/// The context that presigned query parameters give; `X-Amz-SignedHeaders`
/// defaults to `host`.
pub open spec fn presigned_model(query: Seq<u8>) -> ContextModel {
    let qp = form_pairs_of(query);
    let cred = or_empty(last_pair(qp, utf8("X-Amz-Credential"@)));
    let sig = or_empty(last_pair(qp, utf8("X-Amz-Signature"@)));
    let sh = match last_pair(qp, utf8("X-Amz-SignedHeaders"@)) {
        Some(v) => v,
        None => utf8("host"@),
    };
    credential_model(cred, sh, sig, last_pair(qp, utf8("X-Amz-Date"@)))
}

fn last_field_exec(parts: &Vec<Vec<u8>>, key: &[u8]) -> (r: Option<Vec<u8>>)
    ensures
        opt_view(r) == last_field(views(parts@), key@),
{
    let ghost ps = views(parts@);
    let mut found: Option<Vec<u8>> = None;
    let mut i: usize = 0;
    assert(ps.subrange(0, 0) =~= Seq::<Seq<u8>>::empty());
    while i < parts.len()
        invariant
            i <= parts@.len(),
            ps == views(parts@),
            opt_view(found) == last_field(ps.subrange(0, i as int), key@),
        decreases parts.len() - i,
    {
        assert(ps.subrange(0, i + 1).drop_last() =~= ps.subrange(0, i as int));
        let p = trim_exec(parts[i].as_slice());
        if has_prefix(p.as_slice(), key) {
            found = Some(slice_of(p.as_slice(), key.len(), p.len()));
        }
        i = i + 1;
    }
    assert(ps.subrange(0, i as int) =~= ps);
    found
}

fn unwrap_or_empty(o: Option<Vec<u8>>) -> (r: Vec<u8>)
    ensures
        r@ == or_empty(opt_view(o)),
{
    match o {
        Some(v) => v,
        None => Vec::new(),
    }
}

fn has_scope_exec(parts: &Vec<Vec<u8>>) -> (r: bool)
    ensures
        r == (parts@.len() > 3 || (parts@.len() == 3 && parts@[2]@.len() > 0)),
{
    parts.len() > 3 || (parts.len() == 3 && parts[2].len() > 0)
}

fn credential_context(
    cred: &[u8],
    signed_headers: Vec<u8>,
    signature: Vec<u8>,
    amz_date: Option<Vec<u8>>,
) -> (r: SignatureContext)
    ensures
        r@ == credential_model(cred@, signed_headers@, signature@, opt_view(amz_date)),
{
    let parts = split_exec(cred, 0x2fu8);
    proof {
        assert(split(cred@, 0x2fu8).len() > 0) by { lemma_split_nonempty(cred@, 0x2fu8); }
    }
    let access_key = crate::text::to_vec(parts[0].as_slice());
    let date = if parts.len() > 1 { crate::text::to_vec(parts[1].as_slice()) } else { Vec::new() };
    let region = if parts.len() > 2 { Some(crate::text::to_vec(parts[2].as_slice())) } else { None };
    let service = if parts.len() > 3 { Some(crate::text::to_vec(parts[3].as_slice())) } else { None };
    SignatureContext { access_key, date, region, service, signed_headers, signature, amz_date }
}

/// Splitting always yields at least one piece.
pub proof fn lemma_split_nonempty(s: Seq<u8>, sep: u8)
    ensures
        split(s, sep).len() > 0,
    decreases s.len(),
{
    if s.len() > 0 {
        lemma_split_nonempty(s.drop_last(), sep);
    }
}

/// Reads an `Authorization` header of the AWS4-HMAC-SHA256 scheme.
pub fn parse_authz(authz: &[u8]) -> (r: Option<SignatureContext>)
    ensures
        match r {
            Some(c) => authz_model(authz@) == Some(c@),
            None => authz_model(authz@) is None,
        },
{
    let scheme = "AWS4-HMAC-SHA256 ".as_bytes_vec();
    if !has_prefix(authz, scheme.as_slice()) {
        return None;
    }
    let rest = slice_of(authz, scheme.len(), authz.len());
    let parts = split_exec(rest.as_slice(), 0x2cu8);
    let cred = unwrap_or_empty(last_field_exec(&parts, "Credential=".as_bytes_vec().as_slice()));
    let sh = unwrap_or_empty(last_field_exec(&parts, "SignedHeaders=".as_bytes_vec().as_slice()));
    let sig = unwrap_or_empty(last_field_exec(&parts, "Signature=".as_bytes_vec().as_slice()));
    let cred_parts = split_exec(cred.as_slice(), 0x2fu8);
    let scoped = has_scope_exec(&cred_parts);
    let sh_empty = sh.len() == 0;
    let sig_empty = sig.len() == 0;
    let ctx = credential_context(cred.as_slice(), sh, sig, None);
    if ctx.access_key.len() == 0 || sh_empty || sig_empty || !scoped {
        None
    } else {
        Some(ctx)
    }
}

fn last_pair_exec(pairs: &Vec<(Vec<u8>, Vec<u8>)>, key: &[u8]) -> (r: Option<Vec<u8>>)
    ensures
        opt_view(r) == last_pair(pair_views(pairs@), key@),
{
    let ghost ps = pair_views(pairs@);
    let mut found: Option<Vec<u8>> = None;
    let mut i: usize = 0;
    assert(ps.subrange(0, 0) =~= Seq::<(Seq<u8>, Seq<u8>)>::empty());
    while i < pairs.len()
        invariant
            i <= pairs@.len(),
            ps == pair_views(pairs@),
            opt_view(found) == last_pair(ps.subrange(0, i as int), key@),
        decreases pairs.len() - i,
    {
        assert(ps.subrange(0, i + 1).drop_last() =~= ps.subrange(0, i as int));
        if bytes_eq(pairs[i].0.as_slice(), key) {
            found = Some(crate::text::to_vec(pairs[i].1.as_slice()));
        }
        i = i + 1;
    }
    assert(ps.subrange(0, i as int) =~= ps);
    found
}

/// Reads the signature context from presigned query parameters.
pub fn parse_presigned(query: &[u8]) -> (r: SignatureContext)
    ensures
        r@ == presigned_model(query@),
{
    let qp = form_pairs(query);
    let cred = unwrap_or_empty(last_pair_exec(&qp, "X-Amz-Credential".as_bytes_vec().as_slice()));
    let sig = unwrap_or_empty(last_pair_exec(&qp, "X-Amz-Signature".as_bytes_vec().as_slice()));
    let sh = match last_pair_exec(&qp, "X-Amz-SignedHeaders".as_bytes_vec().as_slice()) {
        Some(v) => v,
        None => "host".as_bytes_vec(),
    };
    let amz = last_pair_exec(&qp, "X-Amz-Date".as_bytes_vec().as_slice());
    credential_context(cred.as_slice(), sh, sig, amz)
}

/// Where `x` goes in the ascending sequence `ks`: before the first larger name.
pub open spec fn name_pos(ks: Seq<Seq<u8>>, x: Seq<u8>) -> int
    decreases ks.len(),
{
    if ks.len() == 0 || lex_lt(x, ks[0]) {
        0
    } else {
        1 + name_pos(ks.drop_first(), x)
    }
}

/// `ks` with `x` added in order, unless it is there already.
pub open spec fn insert_name(ks: Seq<Seq<u8>>, x: Seq<u8>) -> Seq<Seq<u8>> {
    if ks.contains(x) {
        ks
    } else {
        ks.insert(name_pos(ks, x), x)
    }
}

/// The signed header names (trimmed, lower case) that the request carries,
/// in ascending order and each once.
pub open spec fn signed_keys(hs: Seq<(Seq<u8>, Seq<u8>)>, names: Seq<Seq<u8>>) -> Seq<Seq<u8>>
    decreases names.len(),
{
    if names.len() == 0 {
        Seq::empty()
    } else {
        let ks = signed_keys(hs, names.drop_last());
        let n = lower(trim(names.last()));
        if lookup(hs, n) is Some {
            insert_name(ks, n)
        } else {
            ks
        }
    }
}

/// `name:value\n` for each key, in the order given.
pub open spec fn canonical_headers(hs: Seq<(Seq<u8>, Seq<u8>)>, keys: Seq<Seq<u8>>) -> Seq<u8>
    decreases keys.len(),
{
    if keys.len() == 0 {
        Seq::empty()
    } else {
        canonical_headers(hs, keys.drop_last()) + keys.last() + seq![0x3au8] + canonical_value(
            or_empty(lookup(hs, keys.last())),
        ) + seq![0x0au8]
    }
}

fn name_pos_exec(ks: &Vec<Vec<u8>>, x: &[u8]) -> (r: usize)
    ensures
        r as int == name_pos(views(ks@), x@),
        r <= ks@.len(),
{
    let ghost vs = views(ks@);
    let mut i: usize = 0;
    assert(vs.subrange(0, vs.len() as int) =~= vs);
    while i < ks.len()
        invariant
            i <= ks@.len(),
            vs == views(ks@),
            name_pos(vs, x@) == i + name_pos(vs.subrange(i as int, vs.len() as int), x@),
        decreases ks.len() - i,
    {
        let ghost rest = vs.subrange(i as int, vs.len() as int);
        assert(rest.drop_first() =~= vs.subrange(i + 1, vs.len() as int));
        if bytes_lt(x, ks[i].as_slice()) {
            return i;
        }
        i = i + 1;
    }
    i
}

fn contains_name(ks: &Vec<Vec<u8>>, x: &[u8]) -> (r: bool)
    ensures
        r == views(ks@).contains(x@),
{
    let mut i: usize = 0;
    while i < ks.len()
        invariant
            i <= ks@.len(),
            forall|j: int| 0 <= j < i ==> views(ks@)[j] != x@,
        decreases ks.len() - i,
    {
        if bytes_eq(ks[i].as_slice(), x) {
            assert(views(ks@)[i as int] == x@);
            return true;
        }
        i = i + 1;
    }
    false
}

/// The canonical header block and the `;`-joined list of signed header names.
pub fn signed_headers_list(headers: &Vec<(Vec<u8>, Vec<u8>)>, signed: &[u8]) -> (r: (Vec<u8>, Vec<u8>))
    ensures
        r.0@ == canonical_headers(header_views(headers@), signed_keys(header_views(headers@), split(signed@, 0x3bu8))),
        r.1@ == join(signed_keys(header_views(headers@), split(signed@, 0x3bu8)), seq![0x3bu8]),
{
    let ghost hs = header_views(headers@);
    let names = split_exec(signed, 0x3bu8);
    let ghost ns = views(names@);
    let mut keys: Vec<Vec<u8>> = Vec::new();
    let mut i: usize = 0;
    assert(ns.subrange(0, 0) =~= Seq::<Seq<u8>>::empty());
    while i < names.len()
        invariant
            i <= names@.len(),
            hs == header_views(headers@),
            ns == views(names@),
            views(keys@) == signed_keys(hs, ns.subrange(0, i as int)),
        decreases names.len() - i,
    {
        assert(ns.subrange(0, i + 1).drop_last() =~= ns.subrange(0, i as int));
        let t = trim_exec(names[i].as_slice());
        let lname = lower_exec(t.as_slice());
        if find_header(headers, lname.as_slice()).is_some() {
            if !contains_name(&keys, lname.as_slice()) {
                let pos = name_pos_exec(&keys, lname.as_slice());
                let ghost before = views(keys@);
                keys.insert(pos, lname);
                assert(views(keys@) =~= before.insert(pos as int, lower(trim(ns[i as int]))));
            }
        }
        i = i + 1;
    }
    assert(ns.subrange(0, i as int) =~= ns);
    let ghost ks = views(keys@);
    let mut canonical: Vec<u8> = Vec::new();
    let mut j: usize = 0;
    assert(ks.subrange(0, 0) =~= Seq::<Seq<u8>>::empty());
    while j < keys.len()
        invariant
            j <= keys@.len(),
            hs == header_views(headers@),
            ks == views(keys@),
            canonical@ == canonical_headers(hs, ks.subrange(0, j as int)),
        decreases keys.len() - j,
    {
        assert(ks.subrange(0, j + 1).drop_last() =~= ks.subrange(0, j as int));
        push_all(&mut canonical, keys[j].as_slice());
        canonical.push(0x3au8);
        let v = unwrap_or_empty(find_header(headers, keys[j].as_slice()));
        let cv = collapse_ws(v.as_slice());
        push_all(&mut canonical, cv.as_slice());
        canonical.push(0x0au8);
        assert(canonical@ =~= canonical_headers(hs, ks.subrange(0, j as int)) + ks[j as int] + seq![0x3au8]
            + canonical_value(or_empty(lookup(hs, ks[j as int]))) + seq![0x0au8]);
        j = j + 1;
    }
    assert(ks.subrange(0, j as int) =~= ks);
    let sep: Vec<u8> = vec![0x3bu8];
    let list = join_exec(&keys, sep.as_slice());
    assert(sep@ =~= seq![0x3bu8]);
    (canonical, list)
}

/// RFC 3986 unreserved bytes: letters, digits, `-`, `.`, `_`, `~`.
pub open spec fn is_unreserved(b: u8) -> bool {
    (0x30u8 <= b && b <= 0x39u8) || (0x41u8 <= b && b <= 0x5au8) || (0x61u8 <= b && b <= 0x7au8)
        || b == 0x2du8 || b == 0x2eu8 || b == 0x5fu8 || b == 0x7eu8
}

/// Percent-encoding of every byte outside the unreserved set.
pub open spec fn pct(s: Seq<u8>) -> Seq<u8>
    decreases s.len(),
{
    if s.len() == 0 {
        Seq::empty()
    } else {
        pct(s.drop_last()) + if is_unreserved(s.last()) {
            seq![s.last()]
        } else {
            percent_triplet(s.last())
        }
    }
}

/// A query part split at its first `=`; a part without one has an empty value.
pub open spec fn query_pair(part: Seq<u8>) -> (Seq<u8>, Seq<u8>) {
    match find(part, seq![0x3du8]) {
        Some(i) => (part.subrange(0, i), part.subrange(i + 1, part.len() as int)),
        None => (part, Seq::empty()),
    }
}

/// Pairs ordered by name, then by value.
pub open spec fn pair_lt(a: (Seq<u8>, Seq<u8>), b: (Seq<u8>, Seq<u8>)) -> bool {
    lex_lt(a.0, b.0) || (a.0 == b.0 && lex_lt(a.1, b.1))
}

/// Where `x` goes in `ps`: before the first larger pair.
pub open spec fn pair_pos(ps: Seq<(Seq<u8>, Seq<u8>)>, x: (Seq<u8>, Seq<u8>)) -> int
    decreases ps.len(),
{
    if ps.len() == 0 || pair_lt(x, ps[0]) {
        0
    } else {
        1 + pair_pos(ps.drop_first(), x)
    }
}

/// The non-empty query parts as pairs, sorted by name and then value.
pub open spec fn sorted_query_pairs(parts: Seq<Seq<u8>>) -> Seq<(Seq<u8>, Seq<u8>)>
    decreases parts.len(),
{
    if parts.len() == 0 {
        Seq::empty()
    } else {
        let ps = sorted_query_pairs(parts.drop_last());
        if parts.last().len() == 0 {
            ps
        } else {
            let x = query_pair(parts.last());
            ps.insert(pair_pos(ps, x), x)
        }
    }
}

/// `name=value`, both sides percent-encoded.
pub open spec fn render_pair(p: (Seq<u8>, Seq<u8>)) -> Seq<u8> {
    pct(p.0) + seq![0x3du8] + pct(p.1)
}

/// `name=value` with both sides percent-encoded, joined by `&`.
pub open spec fn render_pairs(ps: Seq<(Seq<u8>, Seq<u8>)>) -> Seq<u8> {
    join(ps.map_values(|p: (Seq<u8>, Seq<u8>)| render_pair(p)), seq![0x26u8])
}

/// The canonical query string of an optional raw query.
pub open spec fn canonical_query_of(query: Option<Seq<u8>>) -> Seq<u8> {
    match query {
        Some(q) => render_pairs(sorted_query_pairs(split(q, 0x26u8))),
        None => Seq::empty(),
    }
}

fn pct_exec(s: &[u8]) -> (r: Vec<u8>)
    ensures
        r@ == pct(s@),
{
    let mut out: Vec<u8> = Vec::new();
    let mut i: usize = 0;
    while i < s.len()
        invariant
            i <= s@.len(),
            out@ == pct(s@.subrange(0, i as int)),
        decreases s.len() - i,
    {
        assert(s@.subrange(0, i + 1).drop_last() =~= s@.subrange(0, i as int));
        let b = s[i];
        if (0x30u8 <= b && b <= 0x39u8) || (0x41u8 <= b && b <= 0x5au8) || (0x61u8 <= b && b <= 0x7au8)
            || b == 0x2du8 || b == 0x2eu8 || b == 0x5fu8 || b == 0x7eu8 {
            out.push(b);
            assert(out@ =~= pct(s@.subrange(0, i as int)) + seq![b]);
        } else {
            let t = percent_encode_byte(b);
            push_all(&mut out, t.as_slice());
        }
        i = i + 1;
    }
    assert(s@.subrange(0, i as int) =~= s@);
    out
}

fn query_pair_exec(part: &[u8]) -> (r: (Vec<u8>, Vec<u8>))
    ensures
        (r.0@, r.1@) == query_pair(part@),
{
    let eq: Vec<u8> = vec![0x3du8];
    assert(eq@ =~= seq![0x3du8]);
    match find_exec(part, eq.as_slice()) {
        Some(i) => {
            assert(crate::text::occurs_at(part@, seq![0x3du8], i as int));
            let n = part.len();
            assert(i < n);
            (slice_of(part, 0, i), slice_of(part, i + 1, n))
        },
        None => (crate::text::to_vec(part), Vec::new()),
    }
}

fn pair_lt_exec(a: &(Vec<u8>, Vec<u8>), b: &(Vec<u8>, Vec<u8>)) -> (r: bool)
    ensures
        r == pair_lt((a.0@, a.1@), (b.0@, b.1@)),
{
    bytes_lt(a.0.as_slice(), b.0.as_slice()) || (bytes_eq(a.0.as_slice(), b.0.as_slice()) && bytes_lt(a.1.as_slice(), b.1.as_slice()))
}

fn pair_pos_exec(ps: &Vec<(Vec<u8>, Vec<u8>)>, x: &(Vec<u8>, Vec<u8>)) -> (r: usize)
    ensures
        r as int == pair_pos(pair_views(ps@), (x.0@, x.1@)),
        r <= ps@.len(),
{
    let ghost vs = pair_views(ps@);
    let mut i: usize = 0;
    assert(vs.subrange(0, vs.len() as int) =~= vs);
    while i < ps.len()
        invariant
            i <= ps@.len(),
            vs == pair_views(ps@),
            pair_pos(vs, (x.0@, x.1@)) == i + pair_pos(vs.subrange(i as int, vs.len() as int), (x.0@, x.1@)),
        decreases ps.len() - i,
    {
        assert(vs.subrange(i as int, vs.len() as int).drop_first() =~= vs.subrange(i + 1, vs.len() as int));
        if pair_lt_exec(x, &ps[i]) {
            return i;
        }
        i = i + 1;
    }
    i
}

/// The canonical query string: pairs sorted by name then value, each side
/// percent-encoded, joined with `&`.
pub fn canonical_query(query: Option<&[u8]>) -> (r: Vec<u8>)
    ensures
        r@ == canonical_query_of(match query { Some(q) => Some(q@), None => None }),
{
    let q = match query {
        Some(q) => q,
        None => { return Vec::new(); },
    };
    let parts = split_exec(q, 0x26u8);
    let ghost ns = views(parts@);
    let mut ps: Vec<(Vec<u8>, Vec<u8>)> = Vec::new();
    let mut i: usize = 0;
    assert(ns.subrange(0, 0) =~= Seq::<Seq<u8>>::empty());
    assert(pair_views(ps@) =~= Seq::<(Seq<u8>, Seq<u8>)>::empty());
    while i < parts.len()
        invariant
            i <= parts@.len(),
            ns == views(parts@),
            pair_views(ps@) == sorted_query_pairs(ns.subrange(0, i as int)),
        decreases parts.len() - i,
    {
        assert(ns.subrange(0, i + 1).drop_last() =~= ns.subrange(0, i as int));
        if parts[i].len() > 0 {
            let x = query_pair_exec(parts[i].as_slice());
            let pos = pair_pos_exec(&ps, &x);
            let ghost before = pair_views(ps@);
            let ghost xv = (x.0@, x.1@);
            ps.insert(pos, x);
            assert(pair_views(ps@) =~= before.insert(pos as int, xv));
        }
        i = i + 1;
    }
    assert(ns.subrange(0, i as int) =~= ns);
    let mut rendered: Vec<Vec<u8>> = Vec::new();
    let mut j: usize = 0;
    while j < ps.len()
        invariant
            j <= ps@.len(),
            views(rendered@) == pair_views(ps@).subrange(0, j as int).map_values(|p: (Seq<u8>, Seq<u8>)| render_pair(p)),
        decreases ps.len() - j,
    {
        let mut item = pct_exec(ps[j].0.as_slice());
        item.push(0x3du8);
        let v = pct_exec(ps[j].1.as_slice());
        push_all(&mut item, v.as_slice());
        let ghost before = views(rendered@);
        assert(item@ == render_pair(pair_views(ps@)[j as int]));
        rendered.push(item);
        assert(views(rendered@) =~= before.push(render_pair(pair_views(ps@)[j as int])));
        assert(views(rendered@) =~= pair_views(ps@).subrange(0, j + 1).map_values(|p: (Seq<u8>, Seq<u8>)| render_pair(p)));
        j = j + 1;
    }
    assert(pair_views(ps@).subrange(0, j as int) =~= pair_views(ps@));
    let sep: Vec<u8> = vec![0x26u8];
    assert(sep@ =~= seq![0x26u8]);
    join_exec(&rendered, sep.as_slice())
}

/// `HMAC(HMAC(HMAC(HMAC("AWS4" + secret, date), region), service), "aws4_request")`.
pub open spec fn signing_key(secret: Seq<u8>, date: Seq<u8>, region: Seq<u8>, service: Seq<u8>) -> Seq<u8> {
    let k_date = hmac_sha256_of(utf8("AWS4"@) + secret, date);
    let k_region = hmac_sha256_of(k_date, region);
    let k_service = hmac_sha256_of(k_region, service);
    hmac_sha256_of(k_service, utf8("aws4_request"@))
}

/// Derives the SigV4 signing key for one day, region and service.
pub fn derive_signing_key(secret: &[u8], date: &[u8], region: &[u8], service: &[u8]) -> (r: Vec<u8>)
    ensures
        r@ == signing_key(secret@, date@, region@, service@),
        r@.len() == 32,
{
    let mut k: Vec<u8> = "AWS4".as_bytes_vec();
    push_all(&mut k, secret);
    let k_date = hmac_sha256(k.as_slice(), date);
    let k_region = hmac_sha256(k_date.as_slice(), region);
    let k_service = hmac_sha256(k_region.as_slice(), service);
    hmac_sha256(k_service.as_slice(), "aws4_request".as_bytes_vec().as_slice())
}

/// The request carries its signature in the query (`X-Amz-Signature=`).
pub open spec fn is_presigned(query: Option<Seq<u8>>) -> bool {
    match query {
        Some(q) => find(q, utf8("X-Amz-Signature="@)) is Some,
        None => false,
    }
}

/// The signature context of a request, from the query when it is presigned,
/// else from its `Authorization` header.
pub open spec fn request_context(query: Option<Seq<u8>>, hs: Seq<(Seq<u8>, Seq<u8>)>) -> Result<ContextModel, AuthError> {
    if is_presigned(query) {
        Ok(presigned_model(query.unwrap()))
    } else {
        match header_text(hs, utf8("authorization"@)) {
            None => Err(AuthError::MissingAuthorization),
            Some(a) => match authz_model(a) {
                None => Err(AuthError::InvalidAuthorization),
                Some(m) => Ok(m),
            },
        }
    }
}

/// `x-amz-content-sha256`, or `UNSIGNED-PAYLOAD` where it is absent.
pub open spec fn payload_hash(hs: Seq<(Seq<u8>, Seq<u8>)>) -> Seq<u8> {
    match header_text(hs, utf8("x-amz-content-sha256"@)) {
        Some(v) => v,
        None => utf8("UNSIGNED-PAYLOAD"@),
    }
}

/// The path as it is; `/` when it is empty.
pub open spec fn canonical_path(path: Seq<u8>) -> Seq<u8> {
    if path.len() == 0 {
        seq![0x2fu8]
    } else {
        path
    }
}

/// Method, path, query, headers, signed names and payload hash, one per line.
pub open spec fn canonical_request(
    method: Seq<u8>,
    path: Seq<u8>,
    query: Option<Seq<u8>>,
    hs: Seq<(Seq<u8>, Seq<u8>)>,
    ctx: ContextModel,
) -> Seq<u8> {
    let keys = signed_keys(hs, split(ctx.signed_headers, 0x3bu8));
    let nl = seq![0x0au8];
    method + nl + canonical_path(path) + nl + canonical_query_of(query) + nl + canonical_headers(hs, keys) + nl
        + join(keys, seq![0x3bu8]) + nl + payload_hash(hs)
}

/// `x-amz-date`, else the presigned `X-Amz-Date`, else the credential date.
pub open spec fn amz_date(hs: Seq<(Seq<u8>, Seq<u8>)>, ctx: ContextModel) -> Seq<u8> {
    match header_text(hs, utf8("x-amz-date"@)) {
        Some(v) => v,
        None => match ctx.amz_date {
            Some(d) => d,
            None => ctx.date,
        },
    }
}

/// The credential's region, else the configured one.
pub open spec fn scope_region(ctx: ContextModel, default_region: Seq<u8>) -> Seq<u8> {
    match ctx.region {
        Some(r) => r,
        None => default_region,
    }
}

/// The credential's service, else `s3`.
pub open spec fn scope_service(ctx: ContextModel) -> Seq<u8> {
    match ctx.service {
        Some(s) => s,
        None => utf8("s3"@),
    }
}

/// `AWS4-HMAC-SHA256\n<amz-date>\n<date>/<region>/<service>/aws4_request\n<hex sha256 of creq>`.
pub open spec fn string_to_sign(amz: Seq<u8>, date: Seq<u8>, region: Seq<u8>, service: Seq<u8>, creq: Seq<u8>) -> Seq<u8> {
    utf8("AWS4-HMAC-SHA256\n"@) + amz + seq![0x0au8] + date + seq![0x2fu8] + region + seq![0x2fu8] + service
        + utf8("/aws4_request\n"@) + hex_lower(sha256_of(creq))
}

/// The signature a request with this context must carry.
pub open spec fn expected_signature(
    secret: Seq<u8>,
    default_region: Seq<u8>,
    method: Seq<u8>,
    path: Seq<u8>,
    query: Option<Seq<u8>>,
    hs: Seq<(Seq<u8>, Seq<u8>)>,
    ctx: ContextModel,
) -> Seq<u8> {
    let region = scope_region(ctx, default_region);
    let service = scope_service(ctx);
    let creq = canonical_request(method, path, query, hs, ctx);
    let sts = string_to_sign(amz_date(hs, ctx), ctx.date, region, service, creq);
    hex_lower(hmac_sha256_of(signing_key(secret, ctx.date, region, service), sts))
}

/// The verdict of SigV4 verification on a request.
pub open spec fn sigv4_outcome(
    access_key: Seq<u8>,
    secret: Seq<u8>,
    default_region: Seq<u8>,
    method: Seq<u8>,
    path: Seq<u8>,
    query: Option<Seq<u8>>,
    hs: Seq<(Seq<u8>, Seq<u8>)>,
) -> Result<(), AuthError> {
    match request_context(query, hs) {
        Err(e) => Err(e),
        Ok(ctx) => if ctx.access_key != access_key {
            Err(AuthError::InvalidAccessKeyId)
        } else if lookup(hs, utf8("host"@)) is None {
            Err(AuthError::MissingHost)
        } else if expected_signature(secret, default_region, method, path, query, hs, ctx) != ctx.signature {
            Err(AuthError::SignatureDoesNotMatch)
        } else {
            Ok(())
        },
    }
}

/// The verdict for a request under a configuration.
pub open spec fn verify_outcome(cfg: GatewayConfig, req: RequestParts) -> Result<(), AuthError> {
    sigv4_outcome(
        utf8(cfg.access_key@),
        utf8(cfg.secret_key@),
        utf8(cfg.region@),
        req.method@,
        req.path@,
        opt_view(req.query),
        header_views(req.headers@),
    )
}

fn request_context_exec(req: &RequestParts) -> (r: Result<SignatureContext, AuthError>)
    ensures
        match r {
            Ok(c) => request_context(opt_view(req.query), header_views(req.headers@)) == Ok::<ContextModel, AuthError>(c@),
            Err(e) => request_context(opt_view(req.query), header_views(req.headers@)) == Err::<ContextModel, AuthError>(e),
        },
{
    if let Some(q) = &req.query {
        if find_exec(q.as_slice(), "X-Amz-Signature=".as_bytes_vec().as_slice()).is_some() {
            return Ok(parse_presigned(q.as_slice()));
        }
    }
    match find_header_text(&req.headers, "authorization".as_bytes_vec().as_slice()) {
        None => Err(AuthError::MissingAuthorization),
        Some(a) => match parse_authz(a.as_slice()) {
            None => Err(AuthError::InvalidAuthorization),
            Some(c) => Ok(c),
        },
    }
}

/// Verifies the AWS SigV4 signature of a request against the configured
/// credentials, from the `Authorization` header or presigned query parameters.
pub fn verify_sigv4(cfg: &GatewayConfig, req: &RequestParts) -> (r: Result<(), AuthError>)
    ensures
        r == verify_outcome(*cfg, *req),
{
    let ghost hs = header_views(req.headers@);
    let ctx = match request_context_exec(req) {
        Ok(c) => c,
        Err(e) => { return Err(e); },
    };
    let access_key = utf8_bytes(&cfg.access_key);
    if !bytes_eq(ctx.access_key.as_slice(), access_key.as_slice()) {
        return Err(AuthError::InvalidAccessKeyId);
    }
    if find_header(&req.headers, "host".as_bytes_vec().as_slice()).is_none() {
        return Err(AuthError::MissingHost);
    }
    let payload = match find_header_text(&req.headers, "x-amz-content-sha256".as_bytes_vec().as_slice()) {
        Some(v) => v,
        None => "UNSIGNED-PAYLOAD".as_bytes_vec(),
    };
    let nl: u8 = 0x0au8;
    let mut creq: Vec<u8> = crate::text::to_vec(req.method.as_slice());
    creq.push(nl);
    push_all(&mut creq, canonical_uri(req.path.as_slice()).as_slice());
    creq.push(nl);
    let cq = match &req.query {
        Some(q) => canonical_query(Some(q.as_slice())),
        None => canonical_query(None),
    };
    push_all(&mut creq, cq.as_slice());
    creq.push(nl);
    let (can_headers, signed_list) = signed_headers_list(&req.headers, ctx.signed_headers.as_slice());
    push_all(&mut creq, can_headers.as_slice());
    creq.push(nl);
    push_all(&mut creq, signed_list.as_slice());
    creq.push(nl);
    push_all(&mut creq, payload.as_slice());
    let ghost keys = signed_keys(hs, split(ctx@.signed_headers, 0x3bu8));
    assert(creq@ =~= canonical_request(req.method@, req.path@, opt_view(req.query), hs, ctx@));

    let amz = match find_header_text(&req.headers, "x-amz-date".as_bytes_vec().as_slice()) {
        Some(v) => v,
        None => match &ctx.amz_date {
            Some(d) => crate::text::to_vec(d.as_slice()),
            None => crate::text::to_vec(ctx.date.as_slice()),
        },
    };
    let region = match &ctx.region {
        Some(r) => crate::text::to_vec(r.as_slice()),
        None => utf8_bytes(&cfg.region),
    };
    let service = match &ctx.service {
        Some(s) => crate::text::to_vec(s.as_slice()),
        None => "s3".as_bytes_vec(),
    };
    let cr_hash = hex_sha256(creq.as_slice());
    let mut sts: Vec<u8> = "AWS4-HMAC-SHA256\n".as_bytes_vec();
    push_all(&mut sts, amz.as_slice());
    sts.push(nl);
    push_all(&mut sts, ctx.date.as_slice());
    sts.push(0x2fu8);
    push_all(&mut sts, region.as_slice());
    sts.push(0x2fu8);
    push_all(&mut sts, service.as_slice());
    push_all(&mut sts, "/aws4_request\n".as_bytes_vec().as_slice());
    push_all(&mut sts, cr_hash.as_slice());
    assert(sts@ =~= string_to_sign(amz_date(hs, ctx@), ctx@.date, region@, service@,
        canonical_request(req.method@, req.path@, opt_view(req.query), hs, ctx@)));
    let secret = utf8_bytes(&cfg.secret_key);
    let k = derive_signing_key(secret.as_slice(), ctx.date.as_slice(), region.as_slice(), service.as_slice());
    let sig = hmac_sha256(k.as_slice(), sts.as_slice());
    let calc = hex_encode(sig.as_slice());
    if !bytes_eq(calc.as_slice(), ctx.signature.as_slice()) {
        return Err(AuthError::SignatureDoesNotMatch);
    }
    Ok(())
}

/// Paths that are served without authentication: health, readiness, metrics.
pub open spec fn is_open_path(path: Seq<u8>) -> bool {
    path == utf8("/healthz"@) || path == utf8("/readyz"@) || path == utf8("/metrics"@)
}

/// Builds authenticating middleware around inner services.
#[derive(Clone)]
pub struct SigV4Layer {
    cfg: GatewayConfig,
}

impl SigV4Layer {
    pub closed spec fn config(&self) -> GatewayConfig {
        self.cfg
    }

    /// A layer that checks requests against these settings.
    pub fn new(cfg: GatewayConfig) -> (r: SigV4Layer)
        ensures
            r.config() == cfg,
    {
        SigV4Layer { cfg }
    }

    /// Wraps `inner` so that each request is authenticated before it reaches it.
    pub fn layer<S>(&self, inner: S) -> (r: SigV4Middleware<S>)
        ensures
            r.inner() == inner,
            r.config() == self.config(),
    {
        SigV4Middleware { inner, cfg: self.cfg.clone_settings() }
    }
}

/// An inner service behind SigV4 authentication. A request that fails
/// authentication is answered `403 Forbidden` and never reaches the inner service.
#[derive(Clone)]
pub struct SigV4Middleware<S> {
    inner: S,
    cfg: GatewayConfig,
}

impl<S> SigV4Middleware<S> {
    pub closed spec fn inner(&self) -> S {
        self.inner
    }

    pub closed spec fn config(&self) -> GatewayConfig {
        self.cfg
    }

    /// The wrapped service, for a request that `intercept` let through.
    pub fn inner_mut(&mut self) -> (r: &mut S)
        ensures
            *r == old(self).inner(),
            final(self).config() == old(self).config(),
            final(self).inner() == *final(r),
    {
        &mut self.inner
    }

    /// Whether a request may go on to the inner service (`Ok`) or must be
    /// short-circuited with `403` (`Err`). Open paths, and every path where
    /// authentication is switched off, go on unchecked.
    pub fn intercept(&self, req: &RequestParts) -> (r: Result<(), AuthError>)
        ensures
            r == if is_open_path(req.path@) || self.config().auth_disabled {
                Ok(())
            } else {
                verify_outcome(self.config(), *req)
            },
    {
        let p = req.path.as_slice();
        if bytes_eq(p, "/healthz".as_bytes_vec().as_slice()) || bytes_eq(p, "/readyz".as_bytes_vec().as_slice())
            || bytes_eq(p, "/metrics".as_bytes_vec().as_slice()) {
            return Ok(());
        }
        if self.cfg.auth_disabled {
            return Ok(());
        }
        verify_sigv4(&self.cfg, req)
    }
}

/// The request path as it is, `/` when empty; no normalisation.
pub fn canonical_uri(path: &[u8]) -> (r: Vec<u8>)
    ensures
        r@ == canonical_path(path@),
{
    if path.len() == 0 {
        let r: Vec<u8> = vec![0x2fu8];
        assert(r@ =~= seq![0x2fu8]);
        r
    } else {
        crate::text::to_vec(path)
    }
}

/// The lower-case hex SHA-256 of a byte string.
pub fn hex_sha256(input: &[u8]) -> (r: Vec<u8>)
    ensures
        r@ == hex_lower(sha256_of(input@)),
{
    hex_encode(sha256(input).as_slice())
}

/// Verification is deterministic: the same request under the same credentials
/// and region always gets the same verdict.
pub proof fn lemma_verification_deterministic(
    c1: GatewayConfig,
    c2: GatewayConfig,
    r1: RequestParts,
    r2: RequestParts,
)
    requires
        c1.access_key@ == c2.access_key@,
        c1.secret_key@ == c2.secret_key@,
        c1.region@ == c2.region@,
        r1.method@ == r2.method@,
        r1.path@ == r2.path@,
        opt_view(r1.query) == opt_view(r2.query),
        header_views(r1.headers@) == header_views(r2.headers@),
    ensures
        verify_outcome(c1, r1) == verify_outcome(c2, r2),
{
}

/// Names in strictly ascending order, hence each once.
pub open spec fn names_ascending(ks: Seq<Seq<u8>>) -> bool {
    forall|i: int, j: int| 0 <= i < j < ks.len() ==> lex_lt(#[trigger] ks[i], #[trigger] ks[j])
}

proof fn lemma_name_pos_props(ks: Seq<Seq<u8>>, x: Seq<u8>)
    ensures
        0 <= name_pos(ks, x) <= ks.len(),
        forall|i: int| 0 <= i < name_pos(ks, x) ==> !lex_lt(x, #[trigger] ks[i]),
        name_pos(ks, x) < ks.len() ==> lex_lt(x, ks[name_pos(ks, x)]),
    decreases ks.len(),
{
    if ks.len() > 0 && !lex_lt(x, ks[0]) {
        lemma_name_pos_props(ks.drop_first(), x);
        assert forall|i: int| 0 <= i < name_pos(ks, x) implies !lex_lt(x, #[trigger] ks[i]) by {
            if i > 0 {
                assert(ks[i] == ks.drop_first()[i - 1]);
            }
        }
    }
}

proof fn lemma_insert_name_ascending(ks: Seq<Seq<u8>>, x: Seq<u8>)
    requires
        names_ascending(ks),
    ensures
        names_ascending(insert_name(ks, x)),
        insert_name(ks, x).to_set() == ks.to_set().insert(x),
{
    if ks.contains(x) {
        assert(ks.to_set().insert(x) =~= ks.to_set());
        return;
    }
    let p = name_pos(ks, x);
    lemma_name_pos_props(ks, x);
    let n = ks.insert(p, x);
    assert forall|i: int, j: int| 0 <= i < j < n.len() implies lex_lt(#[trigger] n[i], #[trigger] n[j]) by {
        if j < p {
            assert(n[i] == ks[i] && n[j] == ks[j]);
        } else if j == p {
            assert(n[i] == ks[i]);
            crate::text::lemma_lex_total(ks[i], x);
            assert(ks[i] != x);
        } else if i == p {
            assert(n[j] == ks[j - 1]);
            if j - 1 > p {
                crate::text::lemma_lex_transitive(x, ks[p], ks[j - 1]);
            }
        } else if i < p {
            assert(n[i] == ks[i] && n[j] == ks[j - 1]);
        } else {
            assert(n[i] == ks[i - 1] && n[j] == ks[j - 1]);
        }
    }
    assert(n.to_set() =~= ks.to_set().insert(x)) by {
        assert forall|y: Seq<u8>| n.to_set().contains(y) <==> ks.to_set().insert(x).contains(y) by {
            if n.contains(y) {
                let k = choose|k: int| 0 <= k < n.len() && n[k] == y;
                if k < p {
                    assert(ks[k] == y);
                } else if k > p {
                    assert(ks[k - 1] == y);
                }
            }
            if ks.contains(y) {
                let k = choose|k: int| 0 <= k < ks.len() && ks[k] == y;
                if k < p {
                    assert(n[k] == y);
                } else {
                    assert(n[k + 1] == y);
                }
            }
            if y == x {
                assert(n[p] == x);
            }
        }
    }
}

/// The signed names are strictly ascending, and they are exactly the trimmed,
/// lower-cased names of the list that the request carries as headers.
pub proof fn lemma_signed_keys_sorted(hs: Seq<(Seq<u8>, Seq<u8>)>, names: Seq<Seq<u8>>)
    ensures
        names_ascending(signed_keys(hs, names)),
        forall|n: Seq<u8>| signed_keys(hs, names).to_set().contains(n) <==> (lookup(hs, n) is Some
            && exists|i: int| 0 <= i < names.len() && n == lower(trim(#[trigger] names[i]))),
    decreases names.len(),
{
    if names.len() == 0 {
        assert(signed_keys(hs, names).to_set() =~= Set::empty());
    } else {
        let init = names.drop_last();
        lemma_signed_keys_sorted(hs, init);
        let ks = signed_keys(hs, init);
        let x = lower(trim(names.last()));
        if lookup(hs, x) is Some {
            lemma_insert_name_ascending(ks, x);
        }
        assert forall|n: Seq<u8>| signed_keys(hs, names).to_set().contains(n) <==> (lookup(hs, n) is Some
            && exists|i: int| 0 <= i < names.len() && n == lower(trim(#[trigger] names[i]))) by {
            if lookup(hs, n) is Some && exists|i: int| 0 <= i < names.len() && n == lower(trim(#[trigger] names[i])) {
                let i = choose|i: int| 0 <= i < names.len() && n == lower(trim(#[trigger] names[i]));
                if i < names.len() - 1 {
                    assert(init[i] == names[i]);
                }
            }
            if ks.to_set().contains(n) {
                let i = choose|i: int| 0 <= i < init.len() && n == lower(trim(#[trigger] init[i]));
                assert(names[i] == init[i]);
            }
        }
    }
}

/// The non-empty query parts as pairs, in their order in the query.
pub open spec fn query_pairs(parts: Seq<Seq<u8>>) -> Seq<(Seq<u8>, Seq<u8>)>
    decreases parts.len(),
{
    if parts.len() == 0 {
        Seq::empty()
    } else if parts.last().len() == 0 {
        query_pairs(parts.drop_last())
    } else {
        query_pairs(parts.drop_last()).push(query_pair(parts.last()))
    }
}

/// Pairs in ascending order of name, then value.
pub open spec fn pairs_ascending(ps: Seq<(Seq<u8>, Seq<u8>)>) -> bool {
    forall|i: int, j: int| 0 <= i < j < ps.len() ==> !pair_lt(#[trigger] ps[j], #[trigger] ps[i])
}

proof fn lemma_pair_lt_transitive(a: (Seq<u8>, Seq<u8>), b: (Seq<u8>, Seq<u8>), c: (Seq<u8>, Seq<u8>))
    requires
        pair_lt(a, b),
        pair_lt(b, c),
    ensures
        pair_lt(a, c),
{
    if lex_lt(a.0, b.0) && lex_lt(b.0, c.0) {
        crate::text::lemma_lex_transitive(a.0, b.0, c.0);
    } else if a.0 == b.0 && b.0 == c.0 {
        crate::text::lemma_lex_transitive(a.1, b.1, c.1);
    }
}

proof fn lemma_pair_lt_irreflexive(a: (Seq<u8>, Seq<u8>))
    ensures
        !pair_lt(a, a),
{
    crate::text::lemma_lex_irreflexive(a.0);
    crate::text::lemma_lex_irreflexive(a.1);
}

proof fn lemma_pair_pos_props(ps: Seq<(Seq<u8>, Seq<u8>)>, x: (Seq<u8>, Seq<u8>))
    ensures
        0 <= pair_pos(ps, x) <= ps.len(),
        forall|i: int| 0 <= i < pair_pos(ps, x) ==> !pair_lt(x, #[trigger] ps[i]),
        pair_pos(ps, x) < ps.len() ==> pair_lt(x, ps[pair_pos(ps, x)]),
    decreases ps.len(),
{
    if ps.len() > 0 && !pair_lt(x, ps[0]) {
        lemma_pair_pos_props(ps.drop_first(), x);
        assert forall|i: int| 0 <= i < pair_pos(ps, x) implies !pair_lt(x, #[trigger] ps[i]) by {
            if i > 0 {
                assert(ps[i] == ps.drop_first()[i - 1]);
            }
        }
    }
}

proof fn lemma_insert_pair(ps: Seq<(Seq<u8>, Seq<u8>)>, x: (Seq<u8>, Seq<u8>))
    requires
        pairs_ascending(ps),
    ensures
        pairs_ascending(ps.insert(pair_pos(ps, x), x)),
        ps.insert(pair_pos(ps, x), x).to_multiset() == ps.to_multiset().insert(x),
{
    let p = pair_pos(ps, x);
    lemma_pair_pos_props(ps, x);
    let n = ps.insert(p, x);
    assert forall|i: int, j: int| 0 <= i < j < n.len() implies !pair_lt(#[trigger] n[j], #[trigger] n[i]) by {
        if j < p {
            assert(n[i] == ps[i] && n[j] == ps[j]);
        } else if j == p {
            assert(n[i] == ps[i]);
        } else if i == p {
            assert(n[j] == ps[j - 1]);
            if pair_lt(ps[j - 1], x) {
                lemma_pair_lt_transitive(ps[j - 1], x, ps[p]);
                if j - 1 == p {
                    lemma_pair_lt_irreflexive(ps[p]);
                } else {
                    assert(!pair_lt(ps[j - 1], ps[p]));
                }
            }
        } else if i < p {
            assert(n[i] == ps[i] && n[j] == ps[j - 1]);
        } else {
            assert(n[i] == ps[i - 1] && n[j] == ps[j - 1]);
        }
    }
    n.to_multiset_ensures();
    assert(n.remove(p) =~= ps);
    assert(n[p] == x);
    assert(n.to_multiset().count(x) > 0) by {
        assert(n.contains(x));
    }
    assert(n.to_multiset() =~= ps.to_multiset().insert(x));
}

/// The canonical query orders the pairs: ascending by name then value, and a
/// rearrangement of the query's non-empty parts.
pub proof fn lemma_query_pairs_sorted(parts: Seq<Seq<u8>>)
    ensures
        pairs_ascending(sorted_query_pairs(parts)),
        sorted_query_pairs(parts).to_multiset() == query_pairs(parts).to_multiset(),
    decreases parts.len(),
{
    if parts.len() == 0 {
        assert(sorted_query_pairs(parts).to_multiset() =~= query_pairs(parts).to_multiset());
    } else {
        lemma_query_pairs_sorted(parts.drop_last());
        let ps = sorted_query_pairs(parts.drop_last());
        if parts.last().len() > 0 {
            let x = query_pair(parts.last());
            lemma_insert_pair(ps, x);
            query_pairs(parts.drop_last()).to_multiset_ensures();
        }
    }
}

} // verus!
