use threefs_gateway::auth::{
    canonical_query, canonical_uri, collapse_ws, derive_signing_key, hex_sha256, parse_authz,
    parse_presigned, signed_headers_list, verify_sigv4, AuthError, RequestParts, SigV4Layer,
};
use threefs_gateway::config::GatewayConfig;

const SECRET: &str = "wJalrXUtnFEMI/K7MDENG+bPxRfiCYEXAMPLEKEY";
const VANILLA_SIG: &str = "5fa00fa31553b73ebf1942676e86291e8372ff2a2260956d9b8aae1d763fbf31";
const EMPTY_SHA: &str = "e3b0c44298fc1c149afbf4c8996fb92427ae41e4649b934ca495991b7852b855";

fn config(auth_disabled: bool) -> GatewayConfig {
    GatewayConfig {
        cluster_id: "c1".to_string(),
        mountpoint: "/mnt/c1".to_string(),
        hf3fs_binary: "/bin/false".to_string(),
        token_file: None,
        mgmtd_addresses: None,
        bind_addr: ":9000".to_string(),
        region: "us-east-1".to_string(),
        data_root: "/mnt/c1/buckets".to_string(),
        access_key: "AKIDEXAMPLE".to_string(),
        secret_key: SECRET.to_string(),
        use_usrbio: false,
        auth_disabled,
    }
}

fn header(n: &str, v: &str) -> (Vec<u8>, Vec<u8>) {
    (n.as_bytes().to_vec(), v.as_bytes().to_vec())
}

fn vanilla(signature: &str, host: &str) -> RequestParts {
    let authz = format!(
        "AWS4-HMAC-SHA256 Credential=AKIDEXAMPLE/20150830/us-east-1/service/aws4_request, SignedHeaders=host;x-amz-date, Signature={}",
        signature
    );
    RequestParts {
        method: b"GET".to_vec(),
        path: b"/".to_vec(),
        query: None,
        headers: vec![
            header("host", host),
            header("x-amz-date", "20150830T123600Z"),
            header("x-amz-content-sha256", EMPTY_SHA),
            header("authorization", &authz),
        ],
    }
}

#[test]
fn signing_key_matches_published_example() {
    let k = derive_signing_key(SECRET.as_bytes(), b"20120215", b"us-east-1", b"iam");
    assert_eq!(hex::encode(k), "f4780e2d9f65fa895f9c67b32ce1baf0b0d8a43505a000a1a9e090d414db404d");
}

#[test]
fn hex_sha256_of_empty_input() {
    assert_eq!(hex_sha256(b""), EMPTY_SHA.as_bytes().to_vec());
}

#[test]
fn vanilla_request_verifies() {
    assert_eq!(verify_sigv4(&config(false), &vanilla(VANILLA_SIG, "example.amazonaws.com")), Ok(()));
}

#[test]
fn verification_is_repeatable() {
    let cfg = config(false);
    let a = verify_sigv4(&cfg, &vanilla(VANILLA_SIG, "example.amazonaws.com"));
    let b = verify_sigv4(&cfg, &vanilla(VANILLA_SIG, "example.amazonaws.com"));
    assert_eq!(a, b);
}

#[test]
fn mutated_signed_header_is_rejected() {
    let r = verify_sigv4(&config(false), &vanilla(VANILLA_SIG, "other.amazonaws.com"));
    assert_eq!(r, Err(AuthError::SignatureDoesNotMatch));
}

#[test]
fn missing_authorization_is_reported() {
    let mut req = vanilla(VANILLA_SIG, "example.amazonaws.com");
    req.headers.pop();
    assert_eq!(verify_sigv4(&config(false), &req), Err(AuthError::MissingAuthorization));
}

#[test]
fn malformed_authorization_is_reported() {
    let mut req = vanilla(VANILLA_SIG, "example.amazonaws.com");
    req.headers[3] = header("authorization", "Basic abc");
    assert_eq!(verify_sigv4(&config(false), &req), Err(AuthError::InvalidAuthorization));
}

#[test]
fn wrong_access_key_is_reported() {
    let mut cfg = config(false);
    cfg.access_key = "SOMEONEELSE".to_string();
    let r = verify_sigv4(&cfg, &vanilla(VANILLA_SIG, "example.amazonaws.com"));
    assert_eq!(r, Err(AuthError::InvalidAccessKeyId));
}

#[test]
fn missing_host_is_reported() {
    let mut req = vanilla(VANILLA_SIG, "example.amazonaws.com");
    req.headers.remove(0);
    assert_eq!(verify_sigv4(&config(false), &req), Err(AuthError::MissingHost));
}

#[test]
fn middleware_short_circuits_unsigned_requests() {
    let layer = SigV4Layer::new(config(false));
    let mw = layer.layer(0u8);
    let mut req = vanilla(VANILLA_SIG, "example.amazonaws.com");
    req.headers.pop();
    assert_eq!(mw.intercept(&req), Err(AuthError::MissingAuthorization));
    req.path = b"/healthz".to_vec();
    assert_eq!(mw.intercept(&req), Ok(()));
}

#[test]
fn middleware_lets_everything_through_when_disabled() {
    let mw = SigV4Layer::new(config(true)).layer(());
    let req = RequestParts { method: b"GET".to_vec(), path: b"/b".to_vec(), query: None, headers: vec![] };
    assert_eq!(mw.intercept(&req), Ok(()));
}

#[test]
fn authorization_header_fields_are_read() {
    let c = parse_authz(
        b"AWS4-HMAC-SHA256 Credential=AK/20250101/eu-west-1/s3/aws4_request, SignedHeaders=host;x-amz-date, Signature=abc",
    )
    .unwrap();
    assert_eq!(c.access_key, b"AK".to_vec());
    assert_eq!(c.date, b"20250101".to_vec());
    assert_eq!(c.region, Some(b"eu-west-1".to_vec()));
    assert_eq!(c.service, Some(b"s3".to_vec()));
    assert_eq!(c.signed_headers, b"host;x-amz-date".to_vec());
    assert_eq!(c.signature, b"abc".to_vec());
    assert!(parse_authz(b"AWS4-HMAC-SHA256 Credential=AK/20250101, SignedHeaders=host, Signature=abc").is_none());
}

#[test]
fn presigned_parameters_are_decoded() {
    let c = parse_presigned(
        b"X-Amz-Credential=AK%2F20250101%2Fus-east-1%2Fs3%2Faws4_request&X-Amz-Date=20250101T000000Z&X-Amz-Signature=ff",
    );
    assert_eq!(c.access_key, b"AK".to_vec());
    assert_eq!(c.date, b"20250101".to_vec());
    assert_eq!(c.signed_headers, b"host".to_vec());
    assert_eq!(c.signature, b"ff".to_vec());
    assert_eq!(c.amz_date, Some(b"20250101T000000Z".to_vec()));
}

#[test]
fn canonical_query_sorts_and_encodes() {
    assert_eq!(canonical_query(Some(b"b=2&a=x y&&a=1&c")), b"a=1&a=x%20y&b=2&c=".to_vec());
    assert_eq!(canonical_query(None), Vec::<u8>::new());
}

#[test]
fn canonical_uri_defaults_to_root() {
    assert_eq!(canonical_uri(b""), b"/".to_vec());
    assert_eq!(canonical_uri(b"/a//b"), b"/a//b".to_vec());
}

#[test]
fn header_values_are_collapsed() {
    assert_eq!(collapse_ws(b"  a   b\tc  "), b"a b c".to_vec());
    assert_eq!(collapse_ws(b"a\x01b"), Vec::<u8>::new());
}

#[test]
fn signed_headers_are_sorted_and_present_only() {
    let headers = vec![header("x-amz-date", "d"), header("host", " h  1 ")];
    let (canonical, list) = signed_headers_list(&headers, b"X-Amz-Date; host;missing;host");
    assert_eq!(canonical, b"host:h 1\nx-amz-date:d\n".to_vec());
    assert_eq!(list, b"host;x-amz-date".to_vec());
}
