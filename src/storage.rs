use vstd::prelude::*;
use crate::text::{push_all, to_vec};
use crate::config::{GatewayConfig, utf8, utf8_bytes};

verus! {

/// `base` joined with `seg` as `Path::join` does: an absolute `seg` replaces
/// `base`; otherwise a `/` goes between them unless `base` is empty or ends in one.
pub open spec fn join_path(base: Seq<u8>, seg: Seq<u8>) -> Seq<u8> {
    if seg.len() > 0 && seg[0] == 0x2fu8 {
        seg
    } else if base.len() == 0 || base.last() == 0x2fu8 {
        base + seg
    } else {
        base + seq![0x2fu8] + seg
    }
}

/// Joins a path segment onto a base path.
pub fn join_path_exec(base: &[u8], seg: &[u8]) -> (r: Vec<u8>)
    ensures
        r@ == join_path(base@, seg@),
{
    if seg.len() > 0 && seg[0] == 0x2fu8 {
        return to_vec(seg);
    }
    let mut out = to_vec(base);
    if !(base.len() == 0 || base[base.len() - 1] == 0x2fu8) {
        out.push(0x2fu8);
    }
    push_all(&mut out, seg);
    out
}

/// The directory of a bucket under the data root.
pub open spec fn bucket_dir_spec(data_root: Seq<u8>, bucket: Seq<u8>) -> Seq<u8> {
    join_path(data_root, bucket)
}

/// The directory that holds a bucket.
pub fn bucket_dir(cfg: &GatewayConfig, bucket: &[u8]) -> (r: Vec<u8>)
    ensures
        r@ == bucket_dir_spec(utf8(cfg.data_root@), bucket@),
{
    let root = utf8_bytes(&cfg.data_root);
    join_path_exec(root.as_slice(), bucket)
}

/// The data file of an object and its metadata sidecar (`<data>.meta.json`).
pub fn object_paths(cfg: &GatewayConfig, bucket: &[u8], key: &[u8]) -> (r: (Vec<u8>, Vec<u8>))
    ensures
        r.0@ == join_path(bucket_dir_spec(utf8(cfg.data_root@), bucket@), key@),
        r.1@ == r.0@ + utf8(".meta.json"@),
{
    let dir = bucket_dir(cfg, bucket);
    let data = join_path_exec(dir.as_slice(), key);
    let mut meta = to_vec(data.as_slice());
    push_all(&mut meta, ".meta.json".as_bytes_vec().as_slice());
    (data, meta)
}

} // verus!
