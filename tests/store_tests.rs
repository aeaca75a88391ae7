use threefs_gateway::config::GatewayConfig;
use threefs_gateway::handlers::{
    bucket_post, content_range, copy_object_result, copy_source, create_bucket, create_bucket_done,
    delete_bucket, delete_object, etag_of, get_object, head_bucket, head_object, location_constraint,
    meta_document, object_post, parse_u64, put_step, quoted_etag, range_length, resolve_range, sidecar_etag, GetPlan,
    PutAction, PutEvent, UploadSink,
};
use threefs_gateway::listing::{list_objects_v2, location_answer};
use threefs_gateway::models::{list_buckets, ListV2Query};
use threefs_gateway::mount::{mount_poll, mount_start, MountAction};
use threefs_gateway::storage::{bucket_dir, object_paths};
use threefs_gateway::mount::launcher_toml;

fn cfg() -> GatewayConfig {
    GatewayConfig {
        cluster_id: "c1".to_string(),
        mountpoint: "/var/lib/3fs/mnt/c1".to_string(),
        hf3fs_binary: "/opt/3fs/bin/hf3fs_fuse_main".to_string(),
        token_file: Some("/etc/token".to_string()),
        mgmtd_addresses: Some("RDMA://10.0.0.1:8000, ,,RDMA://10.0.0.2:8000 ".to_string()),
        bind_addr: ":9000".to_string(),
        region: "us-east-1".to_string(),
        data_root: "/var/lib/3fs/mnt/c1/buckets".to_string(),
        access_key: "AK".to_string(),
        secret_key: "SK".to_string(),
        use_usrbio: false,
        auth_disabled: false,
    }
}

fn query(prefix: Option<&str>, delimiter: Option<&str>, token: Option<&str>, max_keys: Option<i32>) -> ListV2Query {
    ListV2Query {
        list_type: Some(2),
        prefix: prefix.map(|p| p.as_bytes().to_vec()),
        delimiter: delimiter.map(|d| d.as_bytes().to_vec()),
        start_after: None,
        continuation_token: token.map(|t| t.as_bytes().to_vec()),
        max_keys,
        location: None,
    }
}

fn entries(keys: &[&str]) -> Vec<(Vec<u8>, u64)> {
    keys.iter().map(|k| (k.as_bytes().to_vec(), 1)).collect()
}

fn keys_of(r: &threefs_gateway::models::ListObjectsV2Result) -> Vec<Vec<u8>> {
    r.contents.iter().map(|o| o.key.clone()).collect()
}

#[test]
fn listing_folds_keys_into_common_prefixes() {
    let es = entries(&["readme.txt", "photos/2022/c.jpg", "photos/2021/b.jpg", "photos/2021/a.jpg"]);
    let r = list_objects_v2(b"b", &query(Some("photos/"), Some("/"), None, None), &es, b"now");
    assert!(r.contents.is_empty());
    let cps: Vec<Vec<u8>> = r.common_prefixes.unwrap().iter().map(|c| c.prefix.clone()).collect();
    assert_eq!(cps, vec![b"photos/2021/".to_vec(), b"photos/2022/".to_vec()]);
    assert!(!r.is_truncated);
    assert_eq!(r.key_count, 0);
}

#[test]
fn listing_skips_sidecars_and_sorts() {
    let es = entries(&["b", "a.meta.json", "a", "c"]);
    let r = list_objects_v2(b"bk", &query(None, None, None, None), &es, b"now");
    assert_eq!(keys_of(&r), vec![b"a".to_vec(), b"b".to_vec(), b"c".to_vec()]);
    assert_eq!(r.max_keys, 1000);
    assert_eq!(r.contents[0].storage_class, b"STANDARD".to_vec());
    assert_eq!(r.contents[0].last_modified, b"now".to_vec());
}

#[test]
fn pagination_resumes_after_token() {
    let es = entries(&["k5", "k3", "k1", "k4", "k2"]);
    let first = list_objects_v2(b"b", &query(Some("k"), None, None, Some(2)), &es, b"t");
    assert_eq!(keys_of(&first), vec![b"k1".to_vec(), b"k2".to_vec()]);
    assert!(first.is_truncated);
    assert_eq!(first.next_continuation_token, Some(b"k2".to_vec()));
    let second = list_objects_v2(b"b", &query(Some("k"), None, Some("k2"), Some(2)), &es, b"t");
    assert_eq!(keys_of(&second), vec![b"k3".to_vec(), b"k4".to_vec()]);
    let third = list_objects_v2(b"b", &query(Some("k"), None, Some("k4"), Some(2)), &es, b"t");
    assert_eq!(keys_of(&third), vec![b"k5".to_vec()]);
    assert!(!third.is_truncated);
    assert_eq!(third.next_continuation_token, None);
}

#[test]
fn max_keys_is_capped() {
    let r = list_objects_v2(b"b", &query(None, None, None, Some(5000)), &entries(&["a"]), b"t");
    assert_eq!(r.max_keys, 1000);
}

#[test]
fn range_reads_the_requested_bytes() {
    match get_object(true, Some(100), Some(b"bytes=10-19")) {
        GetPlan::Partial { start, end, total } => {
            assert_eq!((start, end, total), (10, 19, 100));
            assert_eq!(content_range(start, end, total), b"bytes 10-19/100".to_vec());
            assert_eq!(range_length(start, end), 10);
        }
        _ => panic!("expected a partial answer"),
    }
}

#[test]
fn open_ended_and_bad_ranges() {
    assert_eq!(resolve_range(Some(b"bytes=90-99"), 100), Some((90, 99)));
    assert_eq!(resolve_range(Some(b"bytes=90-"), 100), None);
    assert_eq!(resolve_range(Some(b"bytes=10-x"), 100), None);
    assert!(matches!(get_object(true, Some(100), Some(b"bytes=10-x")), GetPlan::Full { content_length: Some(100) }));
    assert_eq!(resolve_range(Some(b"bytes=10-500"), 100), None);
    assert_eq!(resolve_range(Some(b"bytes=20-10"), 100), None);
    assert_eq!(resolve_range(Some(b"items=1-2"), 100), None);
    assert_eq!(resolve_range(Some(b"bytes=0-0"), 0), None);
    assert!(matches!(get_object(true, Some(100), Some(b"bytes=x-1")), GetPlan::Full { content_length: Some(100) }));
    assert!(matches!(get_object(false, Some(100), None), GetPlan::NotFound));
}

#[test]
fn decimal_parsing_follows_std() {
    assert_eq!(parse_u64(b"+42"), Some(42));
    assert_eq!(parse_u64(b"18446744073709551615"), Some(u64::MAX));
    assert_eq!(parse_u64(b"18446744073709551616"), None);
    assert_eq!(parse_u64(b""), None);
    assert_eq!(parse_u64(b"+"), None);
    assert_eq!(parse_u64(b"-1"), None);
}

#[test]
fn etag_is_quoted_hex_md5() {
    assert_eq!(etag_of(b"hello"), b"\"5d41402abc4b2a76b9719d911017c592\"".to_vec());
    assert_eq!(quoted_etag(&[0xab, 0x01]), b"\"ab01\"".to_vec());
    assert_eq!(
        meta_document(&[0xab]),
        b"{\"content_type\":\"application/octet-stream\",\"etag\":\"\\\"ab\\\"\"}".to_vec()
    );
}

#[test]
fn delete_of_missing_object_is_no_content() {
    assert_eq!(delete_object(), 204);
}

#[test]
fn bucket_lifecycle_statuses() {
    assert!(create_bucket(false).is_none());
    assert_eq!(create_bucket_done(Ok(())).status, 200);
    let second = create_bucket(true).unwrap();
    assert_eq!(second.status, 409);
    assert_eq!(second.body, b"BucketAlreadyOwnedByYou".to_vec());
    assert_eq!(delete_bucket(false), 409);
    assert_eq!(delete_bucket(true), 204);
    assert_eq!(create_bucket_done(Err(b"disk".to_vec())).status, 500);
    assert_eq!(head_bucket(true), 200);
    assert_eq!(head_bucket(false), 404);
}

#[test]
fn head_object_and_posts() {
    assert_eq!(head_object(true, Some(3)), (200, Some(3)));
    assert_eq!(head_object(false, Some(3)), (404, None));
    assert_eq!(bucket_post().status, 501);
    assert_eq!(object_post().body, b"NotImplemented".to_vec());
}

#[test]
fn copy_source_forms() {
    assert_eq!(copy_source(b"/src/a/b.txt", b"dst"), (b"src".to_vec(), b"a/b.txt".to_vec()));
    assert_eq!(copy_source(b"key", b"dst"), (b"dst".to_vec(), b"key".to_vec()));
    let body = copy_object_result(b"T", b"hello");
    assert_eq!(
        body,
        b"<CopyObjectResult><LastModified>T</LastModified><ETag>\"5d41402abc4b2a76b9719d911017c592\"</ETag></CopyObjectResult>".to_vec()
    );
}

#[test]
fn paths_follow_the_layout() {
    let c = cfg();
    assert_eq!(bucket_dir(&c, b"photos"), b"/var/lib/3fs/mnt/c1/buckets/photos".to_vec());
    let (data, meta) = object_paths(&c, b"photos", b"2021/a.jpg");
    assert_eq!(data, b"/var/lib/3fs/mnt/c1/buckets/photos/2021/a.jpg".to_vec());
    assert_eq!(meta, b"/var/lib/3fs/mnt/c1/buckets/photos/2021/a.jpg.meta.json".to_vec());
}

#[test]
fn launcher_file_lists_addresses() {
    let t = String::from_utf8(launcher_toml(&cfg())).unwrap();
    assert_eq!(
        t,
        "cluster_id = \"c1\"\nmountpoint = \"/var/lib/3fs/mnt/c1\"\ntoken_file = \"/etc/token\"\n[mgmtd_client]\nmgmtd_server_addresses = [\"RDMA://10.0.0.1:8000\", \"\", \"RDMA://10.0.0.2:8000\"]\n"
    );
}

#[test]
fn location_and_bucket_list() {
    assert_eq!(
        location_constraint(b"eu-west-1"),
        b"<LocationConstraint xmlns=\"http://s3.amazonaws.com/doc/2006-03-01/\">eu-west-1</LocationConstraint>".to_vec()
    );
    let l = list_buckets(vec![b"a".to_vec(), b"b".to_vec()], b"T");
    assert_eq!(l.buckets.bucket.len(), 2);
    assert_eq!(l.buckets.bucket[1].name, b"b".to_vec());
    assert_eq!(l.owner.id, b"gateway".to_vec());
}

#[test]
fn mount_decisions() {
    assert_eq!(mount_start(true, true), MountAction::Ready);
    assert_eq!(mount_start(false, false), MountAction::Skip);
    assert_eq!(mount_start(false, true), MountAction::Spawn);
    assert_eq!(mount_poll(0, false), MountAction::Wait);
    assert_eq!(mount_poll(59, false), MountAction::GiveUp);
    assert_eq!(mount_poll(59, true), MountAction::Ready);
}

#[test]
fn upload_sink_commits_or_discards() {
    let mut sink = UploadSink::new();
    assert!(matches!(put_step(&mut sink, PutEvent::ChunkStored(b"hel".to_vec())), PutAction::Continue));
    assert!(matches!(put_step(&mut sink, PutEvent::ChunkStored(b"lo".to_vec())), PutAction::Continue));
    match put_step(&mut sink, PutEvent::BodyEnded) {
        PutAction::Commit { etag, sidecar } => {
            assert_eq!(etag, b"\"5d41402abc4b2a76b9719d911017c592\"".to_vec());
            assert_eq!(
                sidecar,
                b"{\"content_type\":\"application/octet-stream\",\"etag\":\"\\\"5d41402abc4b2a76b9719d911017c592\\\"\"}".to_vec()
            );
            assert_eq!(sidecar_etag(&sidecar), Some(etag));
        }
        _ => panic!("expected a commit"),
    }
    let mut other = UploadSink::new();
    assert!(matches!(put_step(&mut other, PutEvent::WriteFailed), PutAction::Discard(500)));
    assert!(matches!(put_step(&mut other, PutEvent::BodyFailed), PutAction::Discard(400)));
}

#[test]
fn sidecar_without_etag_gives_none() {
    assert_eq!(sidecar_etag(b"{\"content_type\":\"x\"}"), None);
    assert_eq!(sidecar_etag(b"not json"), None);
}

#[test]
fn zero_max_keys_emits_nothing() {
    let r = list_objects_v2(b"b", &query(None, None, None, Some(0)), &entries(&["a", "b"]), b"t");
    assert!(r.contents.is_empty());
    assert_eq!(r.max_keys, 0);
    let r = list_objects_v2(b"b", &query(None, None, None, Some(-3)), &entries(&["a"]), b"t");
    assert!(r.contents.is_empty());
    assert_eq!(r.max_keys, 0);
}

#[test]
fn location_short_circuits_listing() {
    let mut q = query(Some("x"), None, None, None);
    assert!(location_answer(&cfg(), &q).is_none());
    q.location = Some(Vec::new());
    assert_eq!(
        location_answer(&cfg(), &q),
        Some(b"<LocationConstraint xmlns=\"http://s3.amazonaws.com/doc/2006-03-01/\">us-east-1</LocationConstraint>".to_vec())
    );
}
