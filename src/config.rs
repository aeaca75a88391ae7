use vstd::prelude::*;

verus! {

/// Settings of one gateway process, fixed for its lifetime.
#[derive(Clone, Debug)]
pub struct GatewayConfig {
    pub cluster_id: String,
    pub mountpoint: String,
    pub hf3fs_binary: String,
    pub token_file: Option<String>,
    pub mgmtd_addresses: Option<String>,
    pub bind_addr: String,
    pub region: String,
    pub data_root: String,
    pub access_key: String,
    pub secret_key: String,
    pub use_usrbio: bool,
    pub auth_disabled: bool,
}

/// The UTF-8 bytes of a string.
pub open spec fn utf8(s: Seq<char>) -> Seq<u8> {
    vstd::utf8::encode_utf8(s)
}

/// The UTF-8 bytes of a string, as a vector.
pub fn utf8_bytes(s: &String) -> (r: Vec<u8>)
    ensures
        r@ == utf8(s@),
{
    s.as_str().as_bytes_vec()
}

fn clone_opt(o: &Option<String>) -> (r: Option<String>)
    ensures
        r == *o,
{
    match o {
        Some(s) => Some(s.clone()),
        None => None,
    }
}

impl GatewayConfig {
    /// A copy of these settings, field for field.
    pub fn clone_settings(&self) -> (r: GatewayConfig)
        ensures
            r == *self,
    {
        GatewayConfig {
            cluster_id: self.cluster_id.clone(),
            mountpoint: self.mountpoint.clone(),
            hf3fs_binary: self.hf3fs_binary.clone(),
            token_file: clone_opt(&self.token_file),
            mgmtd_addresses: clone_opt(&self.mgmtd_addresses),
            bind_addr: self.bind_addr.clone(),
            region: self.region.clone(),
            data_root: self.data_root.clone(),
            access_key: self.access_key.clone(),
            secret_key: self.secret_key.clone(),
            use_usrbio: self.use_usrbio,
            auth_disabled: self.auth_disabled,
        }
    }
}

} // verus!
