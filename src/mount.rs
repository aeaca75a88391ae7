use vstd::prelude::*;
use crate::text::{push_all, split, split_exec, trim, trim_exec, join, join_exec, views};
use crate::config::{GatewayConfig, utf8, utf8_bytes};

verus! {

/// How many times readiness is polled after the daemon was started.
pub const MOUNT_POLL_LIMIT: u32 = 60;

/// What to do next while bringing up the mount.
#[derive(Clone, Copy, Debug, PartialEq, Eq, Structural)]
pub enum MountAction {
    /// The mount is usable.
    Ready,
    /// No daemon binary: go on without mounting.
    Skip,
    /// Start the daemon, then poll.
    Spawn,
    /// Wait a second and poll again.
    Wait,
    /// The mount did not become ready in time.
    GiveUp,
}

/// The first decision: a ready mount needs nothing; without the daemon binary
/// there is nothing to start.
pub fn mount_start(ready: bool, binary_exists: bool) -> (r: MountAction)
    ensures
        r == if ready {
            MountAction::Ready
        } else if !binary_exists {
            MountAction::Skip
        } else {
            MountAction::Spawn
        },
{
    if ready {
        MountAction::Ready
    } else if !binary_exists {
        MountAction::Skip
    } else {
        MountAction::Spawn
    }
}

/// After the daemon was started, poll number `attempt` (from 0) saw `ready`.
pub fn mount_poll(attempt: u32, ready: bool) -> (r: MountAction)
    ensures
        r == if ready {
            MountAction::Ready
        } else if attempt + 1 >= MOUNT_POLL_LIMIT {
            MountAction::GiveUp
        } else {
            MountAction::Wait
        },
{
    if ready {
        MountAction::Ready
    } else if attempt >= MOUNT_POLL_LIMIT - 1 {
        MountAction::GiveUp
    } else {
        MountAction::Wait
    }
}

/// `"` + the address trimmed + `"`.
pub open spec fn quoted_address(a: Seq<u8>) -> Seq<u8> {
    seq![0x22u8] + trim(a) + seq![0x22u8]
}

/// The non-empty comma-separated addresses, each trimmed and quoted.
pub open spec fn address_items(parts: Seq<Seq<u8>>) -> Seq<Seq<u8>>
    decreases parts.len(),
{
    if parts.len() == 0 {
        Seq::empty()
    } else {
        let init = address_items(parts.drop_last());
        if parts.last().len() == 0 {
            init
        } else {
            init.push(quoted_address(parts.last()))
        }
    }
}

/// The UTF-8 bytes of an optional string; empty where absent.
pub open spec fn opt_string(o: Option<String>) -> Seq<u8> {
    match o {
        Some(s) => utf8(s@),
        None => Seq::empty(),
    }
}

/// The launcher file for the filesystem daemon.
pub open spec fn launcher_toml_spec(cfg: GatewayConfig) -> Seq<u8> {
    let q = seq![0x22u8];
    utf8("cluster_id = \""@) + utf8(cfg.cluster_id@) + q + utf8("\nmountpoint = \""@) + utf8(cfg.mountpoint@) + q
        + utf8("\ntoken_file = \""@) + opt_string(cfg.token_file) + q
        + utf8("\n[mgmtd_client]\nmgmtd_server_addresses = ["@)
        + join(address_items(split(opt_string(cfg.mgmtd_addresses), 0x2cu8)), utf8(", "@)) + utf8("]\n"@)
}

fn opt_string_bytes(o: &Option<String>) -> (r: Vec<u8>)
    ensures
        r@ == opt_string(*o),
{
    match o {
        Some(s) => utf8_bytes(s),
        None => Vec::new(),
    }
}

/// Renders the launcher configuration of the filesystem daemon: cluster,
/// mountpoint, token file and management addresses.
pub fn launcher_toml(cfg: &GatewayConfig) -> (r: Vec<u8>)
    ensures
        r@ == launcher_toml_spec(*cfg),
{
    let addrs = opt_string_bytes(&cfg.mgmtd_addresses);
    let parts = split_exec(addrs.as_slice(), 0x2cu8);
    let ghost ps = views(parts@);
    let mut items: Vec<Vec<u8>> = Vec::new();
    let mut i: usize = 0;
    assert(ps.subrange(0, 0) =~= Seq::<Seq<u8>>::empty());
    assert(views(items@) =~= Seq::<Seq<u8>>::empty());
    while i < parts.len()
        invariant
            i <= parts@.len(),
            ps == views(parts@),
            views(items@) == address_items(ps.subrange(0, i as int)),
        decreases parts.len() - i,
    {
        assert(ps.subrange(0, i + 1).drop_last() =~= ps.subrange(0, i as int));
        if parts[i].len() > 0 {
            let mut item: Vec<u8> = vec![0x22u8];
            push_all(&mut item, trim_exec(parts[i].as_slice()).as_slice());
            item.push(0x22u8);
            assert(item@ =~= quoted_address(ps[i as int]));
            let ghost before = views(items@);
            items.push(item);
            assert(views(items@) =~= before.push(quoted_address(ps[i as int])));
        }
        i = i + 1;
    }
    assert(ps.subrange(0, i as int) =~= ps);
    let list = join_exec(&items, ", ".as_bytes_vec().as_slice());
    let mut out = "cluster_id = \"".as_bytes_vec();
    push_all(&mut out, utf8_bytes(&cfg.cluster_id).as_slice());
    out.push(0x22u8);
    push_all(&mut out, "\nmountpoint = \"".as_bytes_vec().as_slice());
    push_all(&mut out, utf8_bytes(&cfg.mountpoint).as_slice());
    out.push(0x22u8);
    push_all(&mut out, "\ntoken_file = \"".as_bytes_vec().as_slice());
    push_all(&mut out, opt_string_bytes(&cfg.token_file).as_slice());
    out.push(0x22u8);
    push_all(&mut out, "\n[mgmtd_client]\nmgmtd_server_addresses = [".as_bytes_vec().as_slice());
    push_all(&mut out, list.as_slice());
    push_all(&mut out, "]\n".as_bytes_vec().as_slice());
    assert(out@ =~= launcher_toml_spec(*cfg));
    out
}

} // verus!
