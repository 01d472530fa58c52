//! The local embedding service: its states, whether a model is installed, and what
//! the outcome of a download means.

use crate::text::{begins, blank, byte_slice, contains_any, copy_option, count_bytes, has_any, is_blank,
    opt_text, same, starts_with, strs, texts, trim, trimmed};
use vstd::array::*;
use vstd::prelude::*;
use vstd::string::*;
use vstd::utf8::{encode_utf8, encode_utf8_valid_utf8, is_char_boundary, is_char_boundary_start_end_of_seq};

verus! {

/// Address of the service.
pub const DEFAULT_ENDPOINT: &'static str = "http://localhost:11434/v1";

/// Seconds after which a start has failed.
pub const START_TIMEOUT_SECS: u64 = 30;

/// How often the list of models is asked for.
pub const LIST_ATTEMPTS: u32 = 3;

/// State of the service.
#[derive(Debug, Clone, Copy, PartialEq, Eq, Structural)]
pub enum OllamaServiceStatus {
    Stopped,
    Starting,
    Running,
    Stopping,
    Crashed,
}

/// The service as it is shown.
#[derive(Debug)]
pub struct OllamaServiceState {
    pub status: OllamaServiceStatus,
    pub pid: Option<u32>,
    pub error: Option<String>,
    pub endpoint: String,
}

/// What the state is.
pub struct ServiceView {
    pub status: OllamaServiceStatus,
    pub pid: Option<u32>,
    pub error: Option<Seq<char>>,
    pub endpoint: Seq<char>,
}

impl View for OllamaServiceState {
    type V = ServiceView;

    open spec fn view(&self) -> ServiceView {
        ServiceView {
            status: self.status,
            pid: self.pid,
            error: opt_text(self.error),
            endpoint: self.endpoint@,
        }
    }
}

impl Clone for OllamaServiceState {
    fn clone(&self) -> (r: OllamaServiceState)
        ensures
            r@ == self@,
    {
        OllamaServiceState {
            status: self.status,
            pid: self.pid,
            error: copy_option(&self.error),
            endpoint: self.endpoint.clone(),
        }
    }
}

impl Default for OllamaServiceState {
    fn default() -> (r: OllamaServiceState)
        ensures
            r@ == (ServiceView {
                status: OllamaServiceStatus::Stopped,
                pid: None,
                error: None,
                endpoint: DEFAULT_ENDPOINT@,
            }),
    {
        OllamaServiceState {
            status: OllamaServiceStatus::Stopped,
            pid: None,
            error: None,
            endpoint: DEFAULT_ENDPOINT.to_owned(),
        }
    }
}

/// What a start has to do.
#[derive(Debug, Clone, Copy, PartialEq, Eq, Structural)]
pub enum StartAction {
    /// Nothing: the state says how it stands.
    Report,
    /// Start the program.
    Spawn,
}

/// The state after a start was asked for, and what is to be done. `port_open` says
/// whether a service answers already, `exists` whether the program is there.
pub open spec fn started(s: ServiceView, port_open: bool, path: Seq<char>, exists_there: bool) -> (
    ServiceView,
    StartAction,
) {
    if s.status == OllamaServiceStatus::Running {
        (s, StartAction::Report)
    } else if port_open {
        (
            ServiceView { status: OllamaServiceStatus::Running, error: None, pid: None, ..s },
            StartAction::Report,
        )
    } else if is_blank(path) {
        (
            ServiceView {
                status: OllamaServiceStatus::Crashed,
                error: Some("Ollama 路径未配置"@),
                ..s
            },
            StartAction::Report,
        )
    } else if !exists_there {
        (
            ServiceView {
                status: OllamaServiceStatus::Crashed,
                error: Some("Ollama 可执行文件不存在: "@ + trim(path)),
                ..s
            },
            StartAction::Report,
        )
    } else {
        (
            ServiceView { status: OllamaServiceStatus::Starting, error: None, ..s },
            StartAction::Spawn,
        )
    }
}

/// The state after the program of a start was looked at: it answers now, or the time
/// is over, or neither.
pub open spec fn health_checked(s: ServiceView, port_open: bool, timed_out: bool) -> ServiceView {
    if s.status != OllamaServiceStatus::Starting {
        s
    } else if timed_out {
        ServiceView {
            status: OllamaServiceStatus::Crashed,
            error: Some("启动超时（30s）"@),
            ..s
        }
    } else if port_open {
        ServiceView { status: OllamaServiceStatus::Running, error: None, ..s }
    } else {
        s
    }
}

/// What is known of the program that was started.
#[derive(Debug, Clone, Copy, PartialEq, Eq, Structural)]
pub enum ChildState {
    /// There is none, or it runs, or it cannot be asked.
    Unknown,
    /// It has ended.
    Exited,
}

/// The state after it was looked at anew.
pub open spec fn refreshed(s: ServiceView, port_open: bool, child: ChildState) -> ServiceView {
    if port_open {
        if s.status != OllamaServiceStatus::Running {
            ServiceView { status: OllamaServiceStatus::Running, error: None, ..s }
        } else {
            s
        }
    } else if child == ChildState::Exited && (s.status == OllamaServiceStatus::Running || s.status
        == OllamaServiceStatus::Starting) {
        ServiceView {
            status: OllamaServiceStatus::Crashed,
            error: Some("Ollama 进程意外退出"@),
            pid: None,
            ..s
        }
    } else {
        s
    }
}

impl OllamaServiceState {
    /// Takes a request to start.
    pub fn on_start(&mut self, port_open: bool, path: &str, exists_there: bool) -> (r: StartAction)
        ensures
            (final(self)@, r) == started(old(self)@, port_open, path@, exists_there),
    {
        if self.status == OllamaServiceStatus::Running {
            return StartAction::Report;
        }
        if port_open {
            self.status = OllamaServiceStatus::Running;
            self.error = None;
            self.pid = None;
            return StartAction::Report;
        }
        if blank(path) {
            self.status = OllamaServiceStatus::Crashed;
            self.error = Some("Ollama 路径未配置".to_owned());
            return StartAction::Report;
        }
        if !exists_there {
            let t = trimmed(path);
            let mut e: String = "Ollama 可执行文件不存在: ".to_owned();
            e.append(t.as_str());
            self.status = OllamaServiceStatus::Crashed;
            self.error = Some(e);
            return StartAction::Report;
        }
        self.status = OllamaServiceStatus::Starting;
        self.error = None;
        StartAction::Spawn
    }

    /// Notes the process of the program.
    pub fn on_spawned(&mut self, pid: Option<u32>)
        ensures
            final(self)@ == (ServiceView { pid, ..old(self)@ }),
    {
        self.pid = pid;
    }

    /// Takes the outcome of a look at the starting program.
    pub fn on_health_check(&mut self, port_open: bool, timed_out: bool)
        ensures
            final(self)@ == health_checked(old(self)@, port_open, timed_out),
    {
        if self.status == OllamaServiceStatus::Starting {
            if timed_out {
                self.status = OllamaServiceStatus::Crashed;
                self.error = Some("启动超时（30s）".to_owned());
            } else if port_open {
                self.status = OllamaServiceStatus::Running;
                self.error = None;
            }
        }
    }

    /// Notes that the program is being stopped.
    pub fn on_stopping(&mut self)
        ensures
            final(self)@ == (ServiceView { status: OllamaServiceStatus::Stopping, ..old(self)@ }),
    {
        self.status = OllamaServiceStatus::Stopping;
    }

    /// Notes that the program was stopped.
    pub fn on_stopped(&mut self)
        ensures
            final(self)@ == (ServiceView {
                status: OllamaServiceStatus::Stopped,
                pid: None,
                error: None,
                ..old(self)@
            }),
    {
        self.status = OllamaServiceStatus::Stopped;
        self.pid = None;
        self.error = None;
    }

    /// Takes what was found when the service was looked at anew.
    pub fn on_refresh(&mut self, port_open: bool, child: ChildState)
        ensures
            final(self)@ == refreshed(old(self)@, port_open, child),
    {
        if port_open {
            if self.status != OllamaServiceStatus::Running {
                self.status = OllamaServiceStatus::Running;
                self.error = None;
            }
            return;
        }
        if child == ChildState::Exited && (self.status == OllamaServiceStatus::Running
            || self.status == OllamaServiceStatus::Starting) {
            self.status = OllamaServiceStatus::Crashed;
            self.error = Some("Ollama 进程意外退出".to_owned());
            self.pid = None;
        }
    }
}

/// A program is started only where no service answers and the program is there.
pub proof fn spawn_only_when_needed(s: ServiceView, port_open: bool, path: Seq<char>, exists_there: bool)
    ensures
        started(s, port_open, path, exists_there).1 == StartAction::Spawn <==> s.status
            != OllamaServiceStatus::Running && !port_open && !is_blank(path) && exists_there,
        started(s, port_open, path, exists_there).1 == StartAction::Spawn ==> started(
            s,
            port_open,
            path,
            exists_there,
        ).0.status == OllamaServiceStatus::Starting,
{
}

// ---------------------------------------------------------------------------
// Models
// ---------------------------------------------------------------------------

/// A listed model is the wanted one: by its name, or by its name and a tag.
pub open spec fn names_model(listed: Seq<char>, target: Seq<char>) -> bool {
    listed == target || begins(listed, target + ":"@)
}

/// Whether the wanted model is among the listed.
pub open spec fn installed(list: Seq<Seq<char>>, target: Seq<char>) -> bool {
    target.len() > 0 && exists|i: int| 0 <= i < list.len() && names_model(#[trigger] list[i], target)
}

/// Whether the wanted model is among the listed; no model is wanted under an empty
/// name.
pub fn is_model_installed(list: &Vec<String>, target: &str) -> (r: bool)
    ensures
        r == installed(texts(list@), target@),
{
    if target.is_empty() {
        return false;
    }
    let mut prefix: String = target.to_owned();
    prefix.append(":");
    let ghost all = texts(list@);
    let mut i: usize = 0;
    while i < list.len()
        invariant
            i <= list@.len(),
            all == texts(list@),
            target@.len() > 0,
            prefix@ == target@ + ":"@,
            forall|k: int| 0 <= k < i ==> !names_model(#[trigger] all[k], target@),
        decreases list@.len() - i,
    {
        assert(all[i as int] == list@[i as int]@);
        if same(list[i].as_str(), target) || starts_with(list[i].as_str(), prefix.as_str()) {
            return true;
        }
        i += 1;
    }
    false
}

/// The outcome of a download.
#[derive(Debug)]
pub struct PullResult {
    pub success: bool,
    pub error: Option<String>,
    pub permission_denied: bool,
}

/// What an outcome is.
pub struct PullView {
    pub success: bool,
    pub error: Option<Seq<char>>,
    pub permission_denied: bool,
}

impl View for PullResult {
    type V = PullView;

    open spec fn view(&self) -> PullView {
        PullView {
            success: self.success,
            error: opt_text(self.error),
            permission_denied: self.permission_denied,
        }
    }
}

/// Signs that a proxy could not be reached.
pub open spec fn proxy_signs() -> Seq<Seq<char>> {
    seq![
        "proxyconnect tcp"@,
        "dial tcp"@,
        "connectex: No connection could be made"@,
        "proxyconnect"@,
        "connection refused"@,
        "Client.Timeout"@,
    ]
}

/// Signs that a right was missing.
pub open spec fn permission_signs() -> Seq<Seq<char>> {
    seq![
        "Access is denied"@,
        "Permission denied"@,
        "permission denied"@,
        "Required privilege"@,
        "not enough permissions"@,
    ]
}

/// Whether the text says that a proxy could not be reached.
pub fn is_proxy_connection_error(text: &str) -> (r: bool)
    ensures
        r == has_any(text@, proxy_signs()),
{
    let signs = [
        "proxyconnect tcp",
        "dial tcp",
        "connectex: No connection could be made",
        "proxyconnect",
        "connection refused",
        "Client.Timeout",
    ];
    let s = array_as_slice(&signs);
    assert(strs(s@) =~= proxy_signs());
    contains_any(text, s)
}

/// Whether the text says that a right was missing.
pub fn is_permission_error(text: &str) -> (r: bool)
    ensures
        r == has_any(text@, permission_signs()),
{
    let signs = [
        "Access is denied",
        "Permission denied",
        "permission denied",
        "Required privilege",
        "not enough permissions",
    ];
    let s = array_as_slice(&signs);
    assert(strs(s@) =~= permission_signs());
    contains_any(text, s)
}

/// What the program wrote, both streams together.
pub open spec fn both_streams(stdout: Seq<char>, stderr: Seq<char>) -> Seq<char> {
    if stdout.len() == 0 {
        stderr
    } else {
        stdout + "\n"@ + stderr
    }
}

/// `at` is the first place between characters from `from` on.
pub open spec fn next_boundary(b: Seq<u8>, from: int, at: int) -> bool {
    from <= at <= b.len() && is_char_boundary(b, at) && forall|k: int|
        from <= k < at ==> !#[trigger] is_char_boundary(b, k)
}

/// The end of a message: all of it up to two hundred bytes, else the last two hundred
/// bytes without a character that was cut, behind dots.
pub open spec fn is_message_end(s: Seq<char>, r: Seq<char>) -> bool {
    let b = encode_utf8(s);
    if b.len() > 200 {
        exists|at: int, tail: Seq<char>|
            next_boundary(b, b.len() - 200, at) && #[trigger] encode_utf8(tail) == #[trigger] b.subrange(
                at,
                b.len() as int,
            ) && r == "..."@ + tail
    } else {
        r == s
    }
}

fn message_end(s: &str) -> (r: String)
    ensures
        is_message_end(s@, r@),
{
    let n: usize = count_bytes(s);
    let ghost b = encode_utf8(s@);
    if n <= 200 {
        return s.to_owned();
    }
    let mut start: usize = n - 200;
    proof {
        encode_utf8_valid_utf8(s@);
        is_char_boundary_start_end_of_seq(b);
    }
    while start < n && !s.is_char_boundary(start)
        invariant
            n - 200 <= start <= n,
            n == b.len(),
            b == encode_utf8(s@),
            forall|k: int| n - 200 <= k < start ==> !#[trigger] is_char_boundary(b, k),
        decreases n - start,
    {
        start += 1;
    }
    let tail = byte_slice(s, start, n);
    let mut r: String = "...".to_owned();
    r.append(tail);
    assert(next_boundary(b, b.len() - 200, start as int));
    assert(encode_utf8(tail@) == b.subrange(start as int, b.len() as int));
    r
}

/// What a failed download is: what to say of it, whether a right was missing.
pub open spec fn is_failure(v: PullView, stdout: Seq<char>, stderr: Seq<char>) -> bool {
    &&& !v.success
    &&& v.permission_denied == has_any(both_streams(stdout, stderr), permission_signs())
    &&& match v.error {
        Some(e) => if stdout.len() == 0 && stderr.len() == 0 {
            e == "ollama pull 失败（未知错误）"@
        } else {
            is_message_end(
                if stderr.len() == 0 {
                    stdout
                } else {
                    stderr
                },
                e,
            )
        },
        None => false,
    }
}

/// The outcome of one attempt to download, and whether the proxy was to blame; that
/// counts only for an attempt with the proxy.
pub fn pull_outcome(ended_well: bool, stdout: &str, stderr: &str, without_proxy: bool) -> (r: (
    PullResult,
    bool,
))
    ensures
        ended_well ==> r.0@ == (PullView { success: true, error: None, permission_denied: false })
            && !r.1,
        !ended_well ==> is_failure(r.0@, stdout@, stderr@) && r.1 == (!without_proxy && has_any(
            both_streams(stdout@, stderr@),
            proxy_signs(),
        )),
{
    if ended_well {
        return (PullResult { success: true, error: None, permission_denied: false }, false);
    }
    let combined: String = if stdout.is_empty() {
        stderr.to_owned()
    } else {
        let mut c: String = stdout.to_owned();
        c.append("\n");
        c.append(stderr);
        c
    };
    let permission_denied = is_permission_error(combined.as_str());
    let proxy_failed = !without_proxy && is_proxy_connection_error(combined.as_str());
    let message: String = if stderr.is_empty() && stdout.is_empty() {
        "ollama pull 失败（未知错误）".to_owned()
    } else if stderr.is_empty() {
        message_end(stdout)
    } else {
        message_end(stderr)
    };
    (PullResult { success: false, error: Some(message), permission_denied }, proxy_failed)
}

/// Whether a download is tried again without the proxy.
pub fn retry_without_proxy(first: &PullResult, proxy_failed: bool) -> (r: bool)
    ensures
        r == (!first@.success && proxy_failed),
{
    !first.success && proxy_failed
}

/// The outcome where the program is missing.
pub fn invalid_path_result() -> (r: PullResult)
    ensures
        r@ == (PullView {
            success: false,
            error: Some("Ollama 路径无效"@),
            permission_denied: false,
        }),
{
    PullResult {
        success: false,
        error: Some("Ollama 路径无效".to_owned()),
        permission_denied: false,
    }
}

/// What follows a download.
#[derive(Debug, Clone, Copy, PartialEq, Eq, Structural)]
pub enum AfterPull {
    /// Look whether the model is installed now.
    Verify,
    /// Mend the rights, then download once more.
    FixPermission,
    /// The model cannot be had.
    GiveUp,
}

/// What follows a download; rights are mended once.
pub fn after_pull(result: &PullResult, mended: bool) -> (r: AfterPull)
    ensures
        r == (if result@.success {
            AfterPull::Verify
        } else if result@.permission_denied && !mended {
            AfterPull::FixPermission
        } else {
            AfterPull::GiveUp
        }),
{
    if result.success {
        AfterPull::Verify
    } else if result.permission_denied && !mended {
        AfterPull::FixPermission
    } else {
        AfterPull::GiveUp
    }
}

} // verus!
