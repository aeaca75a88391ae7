use vstd::prelude::*;

verus! {

/// The owner shown in a bucket list.
pub struct Owner {
    pub id: Vec<u8>,
    pub display_name: Vec<u8>,
}

/// One bucket in a bucket list.
pub struct Bucket {
    pub name: Vec<u8>,
    pub creation_date: Vec<u8>,
}

pub struct Buckets {
    pub bucket: Vec<Bucket>,
}

/// The answer to `ListBuckets`.
pub struct ListBucketsResult {
    pub owner: Owner,
    pub buckets: Buckets,
}

/// One `Contents` entry of an object listing.
pub struct Object {
    pub key: Vec<u8>,
    pub last_modified: Vec<u8>,
    pub etag: Vec<u8>,
    pub size: u64,
    pub storage_class: Vec<u8>,
}

/// A key prefix that stands for all keys below it up to a delimiter.
pub struct CommonPrefix {
    pub prefix: Vec<u8>,
}

/// The answer to `ListObjectsV2`.
pub struct ListObjectsV2Result {
    pub name: Vec<u8>,
    pub prefix: Option<Vec<u8>>,
    pub delimiter: Option<Vec<u8>>,
    pub key_count: i32,
    pub max_keys: i32,
    pub is_truncated: bool,
    pub contents: Vec<Object>,
    pub common_prefixes: Option<Vec<CommonPrefix>>,
    pub next_continuation_token: Option<Vec<u8>>,
}

/// The parameters of a `ListObjectsV2` request.
pub struct ListV2Query {
    pub list_type: Option<u8>,
    pub prefix: Option<Vec<u8>>,
    pub delimiter: Option<Vec<u8>>,
    pub start_after: Option<Vec<u8>>,
    pub continuation_token: Option<Vec<u8>>,
    pub max_keys: Option<i32>,
    pub location: Option<Vec<u8>>,
}

/// The bucket list for the given bucket directory names, in the order given,
/// each with `creation_date`, owned by `gateway`.
pub fn list_buckets(names: Vec<Vec<u8>>, creation_date: &[u8]) -> (r: ListBucketsResult)
    ensures
        r.buckets.bucket@.len() == names@.len(),
        forall|i: int| 0 <= i < names@.len() ==> (#[trigger] r.buckets.bucket@[i]).name@ == names@[i]@
            && r.buckets.bucket@[i].creation_date@ == creation_date@,
        r.owner.id@ == crate::config::utf8("gateway"@),
        r.owner.display_name@ == crate::config::utf8("gateway"@),
{
    let mut out: Vec<Bucket> = Vec::new();
    let mut i: usize = 0;
    while i < names.len()
        invariant
            i <= names@.len(),
            out@.len() == i,
            forall|j: int| 0 <= j < i ==> (#[trigger] out@[j]).name@ == names@[j]@
                && out@[j].creation_date@ == creation_date@,
        decreases names.len() - i,
    {
        let b = Bucket { name: crate::text::to_vec(names[i].as_slice()), creation_date: crate::text::to_vec(creation_date) };
        let ghost before = out@;
        out.push(b);
        assert forall|j: int| 0 <= j < i + 1 implies (#[trigger] out@[j]).name@ == names@[j]@
            && out@[j].creation_date@ == creation_date@ by {
            if j < i {
                assert(out@[j] == before[j]);
            }
        }
        i = i + 1;
    }
    ListBucketsResult {
        owner: Owner { id: "gateway".as_bytes_vec(), display_name: "gateway".as_bytes_vec() },
        buckets: Buckets { bucket: out },
    }
}

} // verus!
