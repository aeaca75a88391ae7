use vstd::prelude::*;

verus! {

/// The SHA-256 digest of a byte string.
pub uninterp spec fn sha256_of(data: Seq<u8>) -> Seq<u8>;

/// The HMAC-SHA256 tag of `data` under `key`.
pub uninterp spec fn hmac_sha256_of(key: Seq<u8>, data: Seq<u8>) -> Seq<u8>;

/// The MD5 digest of a byte string.
pub uninterp spec fn md5_of(data: Seq<u8>) -> Seq<u8>;

/// The bytes fed so far into an incremental MD5 computation.
pub uninterp spec fn md5_fed(c: md5::Context) -> Seq<u8>;

/// The string member `field` of a JSON object document, as UTF-8 bytes.
pub uninterp spec fn json_string_field_of(doc: Seq<u8>, field: Seq<char>) -> Option<Seq<u8>>;

/// The pairs that `application/x-www-form-urlencoded` decoding reads from a query.
pub uninterp spec fn form_pairs_of(query: Seq<u8>) -> Seq<(Seq<u8>, Seq<u8>)>;

/// The lower-case hexadecimal digit for a value below 16.
pub open spec fn hex_digit_lower(n: u8) -> u8 {
    if n < 10 {
        (48 + n) as u8
    } else {
        (87 + n) as u8
    }
}

/// The upper-case hexadecimal digit for a value below 16.
pub open spec fn hex_digit_upper(n: u8) -> u8 {
    if n < 10 {
        (48 + n) as u8
    } else {
        (55 + n) as u8
    }
}

/// Two lower-case hexadecimal digits per byte.
pub open spec fn hex_lower(b: Seq<u8>) -> Seq<u8>
    decreases b.len(),
{
    if b.len() == 0 {
        Seq::empty()
    } else {
        hex_lower(b.drop_last()) + seq![hex_digit_lower(b.last() / 16), hex_digit_lower(b.last() % 16)]
    }
}

/// `%` followed by two upper-case hexadecimal digits.
pub open spec fn percent_triplet(b: u8) -> Seq<u8> {
    seq![0x25u8, hex_digit_upper(b / 16), hex_digit_upper(b % 16)]
}

/// Pairs of byte vectors as pairs of byte strings.
pub open spec fn pair_views(v: Seq<(Vec<u8>, Vec<u8>)>) -> Seq<(Seq<u8>, Seq<u8>)> {
    v.map_values(|p: (Vec<u8>, Vec<u8>)| (p.0@, p.1@))
}

/// Relies on `sha2::Sha256::digest`: the SHA-256 digest of `data`, 32 bytes long.
#[verifier::external_body]
pub(crate) fn sha256(data: &[u8]) -> (r: Vec<u8>)
    ensures
        r@ == sha256_of(data@),
        r@.len() == 32,
{
    <sha2::Sha256 as sha2::Digest>::digest(data).to_vec()
}

/// Relies on `hmac::Hmac<Sha256>`: `new_from_slice` accepts a key of any length
/// (longer keys are hashed first), and `finalize` gives the 32-byte tag.
#[verifier::external_body]
pub(crate) fn hmac_sha256(key: &[u8], data: &[u8]) -> (r: Vec<u8>)
    ensures
        r@ == hmac_sha256_of(key@, data@),
        r@.len() == 32,
{
    let mut mac = <hmac::Hmac<sha2::Sha256> as hmac::Mac>::new_from_slice(key).unwrap();
    hmac::Mac::update(&mut mac, data);
    hmac::Mac::finalize(mac).into_bytes().to_vec()
}

/// Relies on `md5::compute`: the 16-byte MD5 digest of `data`.
#[verifier::external_body]
pub(crate) fn md5_digest(data: &[u8]) -> (r: Vec<u8>)
    ensures
        r@ == md5_of(data@),
        r@.len() == 16,
{
    md5::compute(data).0.to_vec()
}

/// Relies on `hex::encode`: each byte becomes two lower-case hexadecimal digits.
#[verifier::external_body]
pub(crate) fn hex_encode(data: &[u8]) -> (r: Vec<u8>)
    ensures
        r@ == hex_lower(data@),
{
    hex::encode(data).into_bytes()
}

/// Relies on `percent_encoding::percent_encode_byte`: `%` and the byte's value
/// in two upper-case hexadecimal digits.
#[verifier::external_body]
pub(crate) fn percent_encode_byte(b: u8) -> (r: Vec<u8>)
    ensures
        r@ == percent_triplet(b),
{
    percent_encoding::percent_encode_byte(b).as_bytes().to_vec()
}

/// Relies on `form_urlencoded::parse`: the decoded name/value pairs of a query,
/// in order of appearance.
#[verifier::external_body]
pub(crate) fn form_pairs(query: &[u8]) -> (r: Vec<(Vec<u8>, Vec<u8>)>)
    ensures
        pair_views(r@) == form_pairs_of(query@),
{
    form_urlencoded::parse(query).map(|(k, v)| (k.into_owned().into_bytes(), v.into_owned().into_bytes())).collect()
}

#[verifier::external_type_specification]
#[verifier::external_body]
pub struct ExMd5Context(md5::Context);

/// Relies on `md5::Context::new`: a computation that has been fed nothing.
#[verifier::external_body]
pub(crate) fn md5_start() -> (r: md5::Context)
    ensures
        md5_fed(r) == Seq::<u8>::empty(),
{
    md5::Context::new()
}

/// Relies on `md5::Context::consume`: the chunk is appended to what was fed.
#[verifier::external_body]
pub(crate) fn md5_feed(c: &mut md5::Context, chunk: &[u8])
    ensures
        md5_fed(*final(c)) == md5_fed(*old(c)) + chunk@,
{
    c.consume(chunk)
}

/// Relies on `md5::Context::compute` (on a copy of the context): the 16-byte
/// MD5 digest of everything fed, the same as `md5::compute` on those bytes.
#[verifier::external_body]
pub(crate) fn md5_finish(c: &md5::Context) -> (r: Vec<u8>)
    ensures
        r@ == md5_of(md5_fed(*c)),
        r@.len() == 16,
{
    c.clone().compute().0.to_vec()
}

/// Relies on `serde_json::from_slice` into a `serde_json::Value`, then
/// `Value::get(field)` and `Value::as_str`: the member `field` of a JSON object
/// when the document parses and that member is a string; `None` otherwise.
#[verifier::external_body]
pub(crate) fn json_string_field(doc: &[u8], field: &str) -> (r: Option<Vec<u8>>)
    ensures
        match r {
            Some(v) => json_string_field_of(doc@, field@) == Some(v@),
            None => json_string_field_of(doc@, field@) is None,
        },
{
    let v = serde_json::from_slice::<serde_json::Value>(doc).ok()?;
    v.get(field)?.as_str().map(|s| s.as_bytes().to_vec())
}

} // verus!
