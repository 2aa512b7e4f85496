//! Self-checks on site: why a service that is up says nothing, and when it
//! may leave by itself.
//!
//! The commonest failure on site is a service that runs perfectly and logs
//! not one request. From the server, "the firewall ate the inbound packets"
//! and "no client on the network yet" look the same. Nothing here guesses
//! which it is; it says so, and gives the checks in order of likelihood.

use vstd::prelude::*;

use crate::net::Platform;
use crate::parse::{push_dec, push_str, spec_dec};
use crate::text::string_from_chars;

verus! {

/// How long without a single packet before saying so, in seconds. Sixty
/// seconds is enough for a machine being installed to send its first
/// DISCOVER; shorter would raise false alarms on quiet networks.
pub const QUIET_FIRST_SECS: u64 = 60;

/// How often to say it again, in seconds: logs roll over, and a single
/// warning is gone by the time someone takes over.
pub const QUIET_REPEAT_SECS: u64 = 600;

pub open spec fn spec_quiet_hint(p: Platform) -> Seq<char> {
    if p == Platform::Windows {
        "按这个顺序查：\n  1. 防火墙。Windows 默认拦掉未放行程序的入站 UDP，这是现场第一大坑。\n     查：Get-NetFirewallPortFilter | ? LocalPort -eq 67\n     放行（需要管理员）：New-NetFirewallRule -DisplayName lessord -Direction Inbound -Protocol UDP -LocalPort 67 -Action Allow\n  2. 网卡选错了。--listen 给的地址必须是本机在目标网段上的地址。\n     查：Get-NetIPAddress -AddressFamily IPv4\n  3. 线不通或交换机做了端口隔离 —— 换台机器在同网段发个包试试。\n  4. 网段上确实还没有客户端在要地址。这也很正常。"@
    } else {
        "按这个顺序查：\n  1. 网卡绑错了。--iface / --listen 要对上目标网段。\n     查：ip -4 addr\n  2. 防火墙。查：nft list ruleset 或 iptables -L -n -v\n  3. 线不通或交换机做了端口隔离 —— 换台机器在同网段发个包试试。\n  4. 网段上确实还没有客户端在要地址。这也很正常。"@
    }
}

/// What to check when not one request has come, most likely first. The
/// first suspect differs by platform: on Windows the default firewall does
/// drop inbound UDP 67; elsewhere a wrongly bound interface or nftables is
/// more common.
pub fn quiet_hint(p: Platform) -> (r: &'static str)
    ensures
        r@ == spec_quiet_hint(p),
{
    if p == Platform::Windows {
        "按这个顺序查：\n  1. 防火墙。Windows 默认拦掉未放行程序的入站 UDP，这是现场第一大坑。\n     查：Get-NetFirewallPortFilter | ? LocalPort -eq 67\n     放行（需要管理员）：New-NetFirewallRule -DisplayName lessord -Direction Inbound -Protocol UDP -LocalPort 67 -Action Allow\n  2. 网卡选错了。--listen 给的地址必须是本机在目标网段上的地址。\n     查：Get-NetIPAddress -AddressFamily IPv4\n  3. 线不通或交换机做了端口隔离 —— 换台机器在同网段发个包试试。\n  4. 网段上确实还没有客户端在要地址。这也很正常。"
    } else {
        "按这个顺序查：\n  1. 网卡绑错了。--iface / --listen 要对上目标网段。\n     查：ip -4 addr\n  2. 防火墙。查：nft list ruleset 或 iptables -L -n -v\n  3. 线不通或交换机做了端口隔离 —— 换台机器在同网段发个包试试。\n  4. 网段上确实还没有客户端在要地址。这也很正常。"
    }
}

/// `a - b`, or 0 when `b` is later.
pub open spec fn since(a: u64, b: u64) -> u64 {
    if a >= b { (a - b) as u64 } else { 0 }
}

/// One sentence on what is arriving, for the interface: nothing to say once
/// a packet has come, or before the first minute is up; after that, how
/// long it has listened in vain.
pub open spec fn spec_quiet_note(packets: u64, now: u64, started_at: u64) -> Option<Seq<char>> {
    let secs = since(now, started_at);
    if packets > 0 || secs < QUIET_FIRST_SECS {
        None
    } else {
        Some("已监听 "@ + spec_dec(secs as nat)
            + " 秒，一个 DHCP 请求都没收到 —— 可能是防火墙拦掉了入站包，也可能网段上暂时没有客户端"@)
    }
}

pub fn quiet_note(packets: u64, now: u64, started_at: u64) -> (r: Option<String>)
    ensures
        crate::lease::opt_text(r) == spec_quiet_note(packets, now, started_at),
{
    if packets > 0 {
        return None;
    }
    let secs: u64 = if now >= started_at { now - started_at } else { 0 };
    if secs < QUIET_FIRST_SECS {
        return None;
    }
    let mut out: Vec<char> = Vec::new();
    push_str(&mut out, "已监听 ");
    push_dec(&mut out, secs);
    push_str(&mut out, " 秒，一个 DHCP 请求都没收到 —— 可能是防火墙拦掉了入站包，也可能网段上暂时没有客户端");
    Some(string_from_chars(out.as_slice()))
}

/// How long the service has been idle: since the last packet, or since it
/// started when none ever came. Counting from the last packet alone would
/// never end the case of "up and ignored", which is exactly the one that
/// should end by itself.
pub open spec fn spec_idle_secs(now: u64, last_packet_at: u64, started_at: u64) -> u64 {
    since(now, if last_packet_at == 0 { started_at } else { last_packet_at })
}

pub fn idle_secs(now: u64, last_packet_at: u64, started_at: u64) -> (r: u64)
    ensures
        r == spec_idle_secs(now, last_packet_at, started_at),
{
    let from = if last_packet_at == 0 { started_at } else { last_packet_at };
    if now >= from { now - from } else { 0 }
}

/// Whether an idle exit after `idle` seconds is due.
pub fn idle_exit_due(now: u64, last_packet_at: u64, started_at: u64, idle: u64) -> (r: bool)
    ensures
        r == (spec_idle_secs(now, last_packet_at, started_at) >= idle),
{
    idle_secs(now, last_packet_at, started_at) >= idle
}

/// A service that has received a packet never warns about silence again:
/// the path works, later quiet is the network's business.
pub fn keep_watching_quiet(packets: u64) -> (r: bool)
    ensures
        r == (packets == 0),
{
    packets == 0
}

} // verus!
