//! Registering as a system service.
//!
//! A resident deployment needs to start at boot and come back after a
//! crash; the system's service manager does both better than a home-made
//! daemon. Here the unit and the commands are planned; the caller writes
//! the file and runs them, and the service manager takes it from there.

use vstd::prelude::*;

use crate::config::texts;
use crate::net::{add_arg, add_step, add_str, has_any, contains_any, new_args, Platform, Step, StepKind, StepView, steps_view};
use crate::parse::{push_str, spec_trim, trim};
use crate::text::{chars_of, string_from_chars};

verus! {

/// The systemd unit. `Restart=on-failure` rather than `always`: a start that
/// fails on a bad configuration should stop where someone sees it; endless
/// restarts only fill the log while the problem stays.
pub open spec fn spec_systemd_unit(exe: Seq<char>, args: Seq<char>) -> Seq<char> {
    "[Unit]\nDescription=lessor DHCP 服务\nAfter=network-online.target\nWants=network-online.target\n\n[Service]\nType=simple\nExecStart="@
        + exe + " "@ + args
        + "\nRestart=on-failure\nRestartSec=5\n# 服务本身不需要 root：安装时给二进制设一次 capability 即可\n# （见 README 的「不需要特权」）\nAmbientCapabilities=CAP_NET_BIND_SERVICE\n\n[Install]\nWantedBy=multi-user.target\n"@
}

pub fn systemd_unit(exe: &str, args: &str) -> (r: String)
    ensures
        r@ == spec_systemd_unit(exe@, args@),
{
    let mut out: Vec<char> = Vec::new();
    push_str(&mut out, "[Unit]\nDescription=lessor DHCP 服务\nAfter=network-online.target\nWants=network-online.target\n\n[Service]\nType=simple\nExecStart=");
    push_str(&mut out, exe);
    push_str(&mut out, " ");
    push_str(&mut out, args);
    push_str(&mut out, "\nRestart=on-failure\nRestartSec=5\n# 服务本身不需要 root：安装时给二进制设一次 capability 即可\n# （见 README 的「不需要特权」）\nAmbientCapabilities=CAP_NET_BIND_SERVICE\n\n[Install]\nWantedBy=multi-user.target\n");
    string_from_chars(out.as_slice())
}

/// Where the systemd unit goes.
pub open spec fn unit_path() -> Seq<char> {
    "/etc/systemd/system/lessord.service"@
}

/// The words a service manager uses when it refuses for want of privilege,
/// in English and in Chinese (Windows' messages are localised).
pub open spec fn service_permission_needles() -> Seq<Seq<char>> {
    seq![
        "Access is denied"@,
        "OpenSCManager"@,
        "拒绝访问"@,
        "requires elevation"@,
        "需要提升"@,
        "Permission denied"@,
        "must be root"@,
        "Interactive authentication required"@,
    ]
}

/// Whether a command's output says it lacked privilege.
pub fn looks_like_permission_error(text: &str) -> (r: bool)
    ensures
        r == has_any(text@, service_permission_needles()),
{
    let needles: [&str; 8] = [
        "Access is denied",
        "OpenSCManager",
        "拒绝访问",
        "requires elevation",
        "需要提升",
        "Permission denied",
        "must be root",
        "Interactive authentication required",
    ];
    let r = contains_any(text, &needles);
    proof {
        assert(needles@.map_values(|n: &str| n@) =~= service_permission_needles());
    }
    r
}

pub open spec fn spec_privilege_hint(p: Platform) -> Seq<char> {
    if p == Platform::Windows {
        "注册系统服务需要管理员权限。\n请以管理员身份打开终端后重试。\n注意 lessord 本身跑起来不需要管理员 —— 只有注册服务这一步需要。"@
    } else {
        "注册系统服务需要 root 权限。\n请用 sudo 重试。\n注意 lessord 本身跑起来不需要 root —— 只有注册服务这一步需要。"@
    }
}

/// What registering a service needs, in each platform's own terms.
pub fn privilege_hint(p: Platform) -> (r: &'static str)
    ensures
        r@ == spec_privilege_hint(p),
{
    if p == Platform::Windows {
        "注册系统服务需要管理员权限。\n请以管理员身份打开终端后重试。\n注意 lessord 本身跑起来不需要管理员 —— 只有注册服务这一步需要。"
    } else {
        "注册系统服务需要 root 权限。\n请用 sudo 重试。\n注意 lessord 本身跑起来不需要 root —— 只有注册服务这一步需要。"
    }
}

/// The message for a failed system command: its own output (standard
/// error, or standard output when that is blank), trimmed; a refusal for
/// want of privilege is reported as such, since what helps then is another
/// identity, not another command.
pub open spec fn spec_command_failure(p: Platform, program: Seq<char>, stderr: Seq<char>, stdout: Seq<char>) -> Seq<char> {
    let msg = spec_trim(if spec_trim(stderr).len() == 0 { stdout } else { stderr });
    if has_any(msg, service_permission_needles()) {
        spec_privilege_hint(p)
    } else {
        program + " 执行失败："@ + msg
    }
}

pub fn command_failure(p: Platform, program: &str, stderr: &str, stdout: &str) -> (r: String)
    ensures
        r@ == spec_command_failure(p, program@, stderr@, stdout@),
{
    let e = chars_of(stderr);
    let et = trim(e.as_slice());
    let chosen = if et.len() == 0 { chars_of(stdout) } else { e };
    let msg_chars = trim(chosen.as_slice());
    let msg = string_from_chars(msg_chars.as_slice());
    if looks_like_permission_error(msg.as_str()) {
        return privilege_hint(p).to_owned();
    }
    let mut out: Vec<char> = Vec::new();
    push_str(&mut out, program);
    push_str(&mut out, " 执行失败：");
    push_str(&mut out, msg.as_str());
    string_from_chars(out.as_slice())
}

/// What registering the service takes on one platform: the unit file to
/// write, if any, and the commands to run.
#[derive(Debug)]
pub struct ServicePlan {
    pub unit_file: Option<(String, String)>,
    pub steps: Vec<Step>,
}

pub open spec fn step_of(program: Seq<char>, args: Seq<Seq<char>>, kind: StepKind) -> StepView {
    StepView { program, args, kind }
}

/// Arguments joined by single spaces.
pub open spec fn joined(args: Seq<Seq<char>>) -> Seq<char> {
    crate::config::join(args, " "@)
}

/// Registering: on Linux the unit file, then reload, enable and start; on
/// Windows `sc.exe create` with the quoted program and its arguments as one
/// `binPath=`, a best-effort restart policy (5 s, 10 s, then every 30 s),
/// then start. Other platforms are not supported.
pub open spec fn spec_install(p: Platform, exe: Seq<char>, args: Seq<Seq<char>>) -> Option<(Option<(Seq<char>, Seq<char>)>, Seq<StepView>)> {
    match p {
        Platform::Linux => Some((
            Some((unit_path(), spec_systemd_unit(exe, joined(args)))),
            seq![
                step_of("systemctl"@, seq!["daemon-reload"@], StepKind::Required),
                step_of("systemctl"@, seq!["enable"@, "lessord"@], StepKind::Required),
                step_of("systemctl"@, seq!["start"@, "lessord"@], StepKind::Required),
            ],
        )),
        Platform::Windows => Some((
            None,
            seq![
                step_of("sc.exe"@, seq!["create"@, "lessord"@, "binPath="@, "\""@ + exe + "\" "@ + joined(args), "start="@, "auto"@, "DisplayName="@, "lessor DHCP 服务"@], StepKind::Required),
                step_of("sc.exe"@, seq!["failure"@, "lessord"@, "reset="@, "86400"@, "actions="@, "restart/5000/restart/10000/restart/30000"@], StepKind::BestEffort),
                step_of("sc.exe"@, seq!["start"@, "lessord"@], StepKind::Required),
            ],
        )),
        _ => None,
    }
}

fn plan_step(program: &str, args: Vec<String>, kind: StepKind) -> (r: Step)
    ensures
        r@ == step_of(program@, texts(args@), kind),
{
    Step { program: program.to_owned(), args, kind }
}

/// The plan that registers the service, `exe` being this program and `args`
/// what it is to be started with.
pub fn install(p: Platform, exe: &str, args: &Vec<String>) -> (r: Result<ServicePlan, &'static str>)
    ensures
        match r {
            Ok(plan) => spec_install(p, exe@, texts(args@)) == Some((
                match plan.unit_file {
                    Some(f) => Some((f.0@, f.1@)),
                    None => None::<(Seq<char>, Seq<char>)>,
                },
                steps_view(plan.steps@),
            )),
            Err(e) => spec_install(p, exe@, texts(args@)) is None
                && e@ == "当前平台还不支持注册系统服务，请手工用进程管理器托管"@,
        },
{
    let mut joined_args: Vec<char> = Vec::new();
    crate::config::push_joined(&mut joined_args, args, " ");
    let joined_text = string_from_chars(joined_args.as_slice());
    match p {
        Platform::Linux => {
            let unit = systemd_unit(exe, joined_text.as_str());
            let mut steps: Vec<Step> = Vec::new();
            let mut a1 = new_args();
            add_str(&mut a1, "daemon-reload");
            add_step(&mut steps, plan_step("systemctl", a1, StepKind::Required));
            let mut a2 = new_args();
            add_str(&mut a2, "enable");
            add_str(&mut a2, "lessord");
            add_step(&mut steps, plan_step("systemctl", a2, StepKind::Required));
            let mut a3 = new_args();
            add_str(&mut a3, "start");
            add_str(&mut a3, "lessord");
            add_step(&mut steps, plan_step("systemctl", a3, StepKind::Required));
            proof {
                assert(texts(a1@) =~= seq!["daemon-reload"@]);
                assert(texts(a2@) =~= seq!["enable"@, "lessord"@]);
                assert(texts(a3@) =~= seq!["start"@, "lessord"@]);
                assert(steps_view(steps@) =~= seq![
                    step_of("systemctl"@, seq!["daemon-reload"@], StepKind::Required),
                    step_of("systemctl"@, seq!["enable"@, "lessord"@], StepKind::Required),
                    step_of("systemctl"@, seq!["start"@, "lessord"@], StepKind::Required),
                ]);
            }
            Ok(ServicePlan { unit_file: Some(("/etc/systemd/system/lessord.service".to_owned(), unit)), steps })
        },
        Platform::Windows => {
            let mut bin: Vec<char> = Vec::new();
            push_str(&mut bin, "\"");
            push_str(&mut bin, exe);
            push_str(&mut bin, "\" ");
            push_str(&mut bin, joined_text.as_str());
            let bin_text = string_from_chars(bin.as_slice());
            let mut a1 = new_args();
            add_str(&mut a1, "create");
            add_str(&mut a1, "lessord");
            add_str(&mut a1, "binPath=");
            add_arg(&mut a1, bin_text);
            add_str(&mut a1, "start=");
            add_str(&mut a1, "auto");
            add_str(&mut a1, "DisplayName=");
            add_str(&mut a1, "lessor DHCP 服务");
            let mut a2 = new_args();
            add_str(&mut a2, "failure");
            add_str(&mut a2, "lessord");
            add_str(&mut a2, "reset=");
            add_str(&mut a2, "86400");
            add_str(&mut a2, "actions=");
            add_str(&mut a2, "restart/5000/restart/10000/restart/30000");
            let mut a3 = new_args();
            add_str(&mut a3, "start");
            add_str(&mut a3, "lessord");
            let mut steps: Vec<Step> = Vec::new();
            add_step(&mut steps, plan_step("sc.exe", a1, StepKind::Required));
            add_step(&mut steps, plan_step("sc.exe", a2, StepKind::BestEffort));
            add_step(&mut steps, plan_step("sc.exe", a3, StepKind::Required));
            proof {
                assert(texts(a1@) =~= seq!["create"@, "lessord"@, "binPath="@, "\""@ + exe@ + "\" "@ + joined(texts(args@)), "start="@, "auto"@, "DisplayName="@, "lessor DHCP 服务"@]);
                assert(texts(a2@) =~= seq!["failure"@, "lessord"@, "reset="@, "86400"@, "actions="@, "restart/5000/restart/10000/restart/30000"@]);
                assert(texts(a3@) =~= seq!["start"@, "lessord"@]);
                let want = spec_install(p, exe@, texts(args@))->0;
                assert(steps_view(steps@) =~= want.1);
            }
            Ok(ServicePlan { unit_file: None, steps })
        },
        _ => Err("当前平台还不支持注册系统服务，请手工用进程管理器托管"),
    }
}

/// Unregistering: on Linux stop and disable (failures are harmless: it may
/// not be running), remove the unit file if there is one, reload; on
/// Windows stop (best effort) and delete.
pub open spec fn spec_uninstall(p: Platform) -> Option<Seq<StepView>> {
    match p {
        Platform::Linux => Some(seq![
            step_of("systemctl"@, seq!["stop"@, "lessord"@], StepKind::BestEffort),
            step_of("systemctl"@, seq!["disable"@, "lessord"@], StepKind::BestEffort),
            step_of("systemctl"@, seq!["daemon-reload"@], StepKind::BestEffort),
        ]),
        Platform::Windows => Some(seq![
            step_of("sc.exe"@, seq!["stop"@, "lessord"@], StepKind::BestEffort),
            step_of("sc.exe"@, seq!["delete"@, "lessord"@], StepKind::Required),
        ]),
        _ => None,
    }
}

/// The commands that unregister the service. On Linux the unit file (at
/// [`unit_path`]) is removed, if it exists, between disabling and
/// reloading.
pub fn uninstall(p: Platform) -> (r: Result<Vec<Step>, &'static str>)
    ensures
        match r {
            Ok(steps) => spec_uninstall(p) == Some(steps_view(steps@)),
            Err(e) => spec_uninstall(p) is None && e@ == "当前平台没有可注销的服务"@,
        },
{
    match p {
        Platform::Linux => {
            let mut steps: Vec<Step> = Vec::new();
            let mut a1 = new_args();
            add_str(&mut a1, "stop");
            add_str(&mut a1, "lessord");
            add_step(&mut steps, plan_step("systemctl", a1, StepKind::BestEffort));
            let mut a2 = new_args();
            add_str(&mut a2, "disable");
            add_str(&mut a2, "lessord");
            add_step(&mut steps, plan_step("systemctl", a2, StepKind::BestEffort));
            let mut a3 = new_args();
            add_str(&mut a3, "daemon-reload");
            add_step(&mut steps, plan_step("systemctl", a3, StepKind::BestEffort));
            proof {
                assert(texts(a1@) =~= seq!["stop"@, "lessord"@]);
                assert(texts(a2@) =~= seq!["disable"@, "lessord"@]);
                assert(texts(a3@) =~= seq!["daemon-reload"@]);
                assert(steps_view(steps@) =~= spec_uninstall(p)->0);
            }
            Ok(steps)
        },
        Platform::Windows => {
            let mut steps: Vec<Step> = Vec::new();
            let mut a1 = new_args();
            add_str(&mut a1, "stop");
            add_str(&mut a1, "lessord");
            add_step(&mut steps, plan_step("sc.exe", a1, StepKind::BestEffort));
            let mut a2 = new_args();
            add_str(&mut a2, "delete");
            add_str(&mut a2, "lessord");
            add_step(&mut steps, plan_step("sc.exe", a2, StepKind::Required));
            proof {
                assert(texts(a1@) =~= seq!["stop"@, "lessord"@]);
                assert(texts(a2@) =~= seq!["delete"@, "lessord"@]);
                assert(steps_view(steps@) =~= spec_uninstall(p)->0);
            }
            Ok(steps)
        },
        _ => Err("当前平台没有可注销的服务"),
    }
}

} // verus!
