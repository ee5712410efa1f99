//! Registering the periodic `sync` job with the OS scheduler.
//!
//! The job is a scheduled invocation of the same binary, not a resident daemon, and it is
//! registered per user, so no elevation is needed: Task Scheduler on Windows, a systemd
//! user timer on Linux, a launchd agent on macOS. A manager says which files to write and
//! which commands to run; carrying that out is left to its caller.

use vstd::prelude::*;

use crate::epub;
use crate::text;

verus! {

/// Name of the scheduled task.
pub const TASK_NAME: &'static str = "WebnovelCrawlerSync";

/// Whether the job is installed, and what the scheduler says of it.
#[derive(Debug)]
pub struct ServiceStatus {
    pub installed: bool,
    pub detail: String,
}

/// A program with its arguments, and how a failure of it is named.
#[derive(Debug)]
pub struct Invocation {
    pub program: String,
    pub args: Vec<String>,
    pub label: String,
}

/// An [`Invocation`] as plain values.
#[verifier::ext_equal]
pub struct InvocationView {
    pub program: Seq<char>,
    pub args: Seq<Seq<char>>,
    pub label: Seq<char>,
}

impl View for Invocation {
    type V = InvocationView;

    open spec fn view(&self) -> InvocationView {
        InvocationView {
            program: self.program@,
            args: text::texts(self.args@),
            label: self.label@,
        }
    }
}

/// One thing to do to install or remove the job.
#[derive(Debug)]
pub enum ServiceStep {
    Write { path: String, content: String },
    Remove { path: String },
    Run(Invocation),
}

/// A [`ServiceStep`] as plain values.
#[verifier::ext_equal]
pub enum StepView {
    Write { path: Seq<char>, content: Seq<char> },
    Remove { path: Seq<char> },
    Run(InvocationView),
}

impl View for ServiceStep {
    type V = StepView;

    open spec fn view(&self) -> StepView {
        match *self {
            ServiceStep::Write { path, content } => StepView::Write {
                path: path@,
                content: content@,
            },
            ServiceStep::Remove { path } => StepView::Remove { path: path@ },
            ServiceStep::Run(i) => StepView::Run(i@),
        }
    }
}

pub open spec fn step_views(v: Seq<ServiceStep>) -> Seq<StepView> {
    v.map_values(|s: ServiceStep| s@)
}

/// Install, remove and look up the background sync job of one platform.
pub trait ServiceManager {
    spec fn install_plan(&self, exe: Seq<char>, interval_minutes: u32) -> Seq<StepView>;

    spec fn uninstall_plan(&self) -> Seq<StepView>;

    spec fn query(&self) -> InvocationView;

    /// What to do so that `exe` runs its sync every so many minutes.
    fn install(&self, exe: &str, interval_minutes: u32) -> (r: Vec<ServiceStep>)
        ensures
            step_views(r@) == self.install_plan(exe@, interval_minutes),
    ;

    /// What to do to remove the job.
    fn uninstall(&self) -> (r: Vec<ServiceStep>)
        ensures
            step_views(r@) == self.uninstall_plan(),
    ;

    /// The command that says whether the job is installed: it succeeds just if it is.
    fn status(&self) -> (r: Invocation)
        ensures
            r@ == self.query(),
    ;
}

/// The error of a command that failed, with what it wrote to its standard error.
pub open spec fn failure_text(label: Seq<char>, stderr: Seq<char>) -> Seq<char> {
    label + " failed: "@ + text::trimmed(stderr)
}

/// Judge how a command ended.
pub fn check(step: &Invocation, success: bool, stderr: &str) -> (r: Result<(), String>)
    ensures
        if success {
            r is Ok
        } else {
            r matches Err(e) && e@ == failure_text(step@.label, stderr@)
        },
{
    if success {
        return Ok(());
    }
    let mut v = text::to_chars(step.label.as_str());
    text::push_str(&mut v, " failed: ");
    let s = text::trim_text(stderr);
    text::push_str(&mut v, s.as_str());
    Err(text::to_text(&v))
}

/// Read the answer to the status command.
pub fn read_status(success: bool, stdout: &str) -> (r: ServiceStatus)
    ensures
        r.installed == success,
        r.detail@ == (if success {
            text::trimmed(stdout@)
        } else {
            "not installed"@
        }),
{
    ServiceStatus {
        installed: success,
        detail: if success {
            text::trim_text(stdout)
        } else {
            "not installed".to_string()
        },
    }
}

pub open spec fn str_views(v: Seq<&str>) -> Seq<Seq<char>> {
    v.map_values(|s: &str| s@)
}

fn invoke(program: &str, args: &[&str], label: &str) -> (r: Invocation)
    ensures
        r@ == (InvocationView { program: program@, args: str_views(args@), label: label@ }),
{
    let ghost want = str_views(args@);
    let mut v: Vec<String> = Vec::new();
    let mut i: usize = 0;
    while i < args.len()
        invariant
            i <= args@.len(),
            want == str_views(args@),
            text::texts(v@) == want.take(i as int),
        decreases args@.len() - i,
    {
        let ghost before = v@;
        let a: &str = args[i];
        v.push(a.to_string());
        assert(want[i as int] == a@);
        assert(text::texts(v@) =~= text::texts(before).push(a@));
        assert(want.take(i + 1) =~= want.take(i as int).push(want[i as int]));
        i += 1;
    }
    assert(want.take(want.len() as int) =~= want);
    Invocation { program: program.to_string(), args: v, label: label.to_string() }
}

// ---------------------------------------------------------------------------
// Windows
// ---------------------------------------------------------------------------

/// Task Scheduler, through `schtasks`. The task runs a launcher script that hides the
/// console; `dir` is the folder the script lies in.
pub struct WindowsTaskScheduler {
    pub dir: String,
}

pub open spec fn launcher_path(dir: Seq<char>) -> Seq<char> {
    dir + "\\sync-hidden.vbs"@
}

/// The launcher script: runs `<exe> sync` without a window and does not wait for it.
pub open spec fn launcher_script(exe: Seq<char>) -> Seq<char> {
    "CreateObject(\"WScript.Shell\").Run \"\"\""@ + exe + "\"\" sync\", 0, False\r\n"@
}

impl ServiceManager for WindowsTaskScheduler {
    open spec fn install_plan(&self, exe: Seq<char>, interval_minutes: u32) -> Seq<StepView> {
        seq![
            StepView::Write {
                path: launcher_path(self.dir@),
                content: launcher_script(exe),
            },
            StepView::Run(
                InvocationView {
                    program: "schtasks"@,
                    args: seq![
                        "/Create"@,
                        "/TN"@,
                        TASK_NAME@,
                        "/TR"@,
                        "wscript.exe \""@ + launcher_path(self.dir@) + "\""@,
                        "/SC"@,
                        "MINUTE"@,
                        "/MO"@,
                        text::decimal(interval_minutes as nat),
                        "/F"@,
                    ],
                    label: "schtasks /Create"@,
                },
            ),
        ]
    }

    open spec fn uninstall_plan(&self) -> Seq<StepView> {
        seq![
            StepView::Run(
                InvocationView {
                    program: "schtasks"@,
                    args: seq!["/Delete"@, "/TN"@, TASK_NAME@, "/F"@],
                    label: "schtasks /Delete"@,
                },
            ),
            StepView::Remove { path: launcher_path(self.dir@) },
        ]
    }

    open spec fn query(&self) -> InvocationView {
        InvocationView {
            program: "schtasks"@,
            args: seq!["/Query"@, "/TN"@, TASK_NAME@],
            label: "schtasks /Query"@,
        }
    }

    fn install(&self, exe: &str, interval_minutes: u32) -> (r: Vec<ServiceStep>) {
        let path = text::concat(self.dir.as_str(), "\\sync-hidden.vbs");
        let mut v = text::to_chars("CreateObject(\"WScript.Shell\").Run \"\"\"");
        text::push_str(&mut v, exe);
        text::push_str(&mut v, "\"\" sync\", 0, False\r\n");
        let content = text::to_text(&v);
        let mut t = text::to_chars("wscript.exe \"");
        text::push_str(&mut t, path.as_str());
        text::push_str(&mut t, "\"");
        let tr = text::to_text(&t);
        let minutes = text::decimal_text(interval_minutes as u64);
        let args: [&str; 10] = [
            "/Create",
            "/TN",
            TASK_NAME,
            "/TR",
            tr.as_str(),
            "/SC",
            "MINUTE",
            "/MO",
            minutes.as_str(),
            "/F",
        ];
        let run = invoke("schtasks", &args, "schtasks /Create");
        assert(run@.args =~= seq![
            "/Create"@,
            "/TN"@,
            TASK_NAME@,
            "/TR"@,
            "wscript.exe \""@ + launcher_path(self.dir@) + "\""@,
            "/SC"@,
            "MINUTE"@,
            "/MO"@,
            text::decimal(interval_minutes as nat),
            "/F"@,
        ]);
        let mut steps: Vec<ServiceStep> = Vec::new();
        steps.push(ServiceStep::Write { path, content });
        steps.push(ServiceStep::Run(run));
        assert(step_views(steps@) =~= self.install_plan(exe@, interval_minutes));
        steps
    }

    fn uninstall(&self) -> (r: Vec<ServiceStep>) {
        let args: [&str; 4] = ["/Delete", "/TN", TASK_NAME, "/F"];
        let run = invoke("schtasks", &args, "schtasks /Delete");
        assert(run@.args =~= seq!["/Delete"@, "/TN"@, TASK_NAME@, "/F"@]);
        let mut steps: Vec<ServiceStep> = Vec::new();
        steps.push(ServiceStep::Run(run));
        steps.push(
            ServiceStep::Remove { path: text::concat(self.dir.as_str(), "\\sync-hidden.vbs") },
        );
        assert(step_views(steps@) =~= self.uninstall_plan());
        steps
    }

    fn status(&self) -> (r: Invocation) {
        let args: [&str; 3] = ["/Query", "/TN", TASK_NAME];
        let run = invoke("schtasks", &args, "schtasks /Query");
        assert(run@.args =~= seq!["/Query"@, "/TN"@, TASK_NAME@]);
        run
    }
}

// ---------------------------------------------------------------------------
// Linux
// ---------------------------------------------------------------------------

/// A systemd user timer; `dir` is the folder of the user's units.
pub struct SystemdTimer {
    pub dir: String,
}

pub open spec fn service_path(dir: Seq<char>) -> Seq<char> {
    dir + "/vesper-sync.service"@
}

pub open spec fn timer_path(dir: Seq<char>) -> Seq<char> {
    dir + "/vesper-sync.timer"@
}

pub open spec fn service_unit(exe: Seq<char>) -> Seq<char> {
    "[Unit]\nDescription=Vesper background sync\n\n[Service]\nType=oneshot\nExecStart=\""@ + exe
        + "\" sync\n"@
}

pub open spec fn timer_unit(interval_minutes: u32) -> Seq<char> {
    "[Unit]\nDescription=Periodic Vesper background sync\n\n[Timer]\nOnBootSec="@ + text::decimal(
        interval_minutes as nat,
    ) + "min\nOnUnitActiveSec="@ + text::decimal(interval_minutes as nat)
        + "min\n\n[Install]\nWantedBy=timers.target\n"@
}

pub open spec fn reload() -> InvocationView {
    InvocationView {
        program: "systemctl"@,
        args: seq!["--user"@, "daemon-reload"@],
        label: "systemctl daemon-reload"@,
    }
}

fn run_reload() -> (r: Invocation)
    ensures
        r@ == reload(),
{
    let args: [&str; 2] = ["--user", "daemon-reload"];
    let r = invoke("systemctl", &args, "systemctl daemon-reload");
    assert(r@.args =~= seq!["--user"@, "daemon-reload"@]);
    r
}

impl ServiceManager for SystemdTimer {
    open spec fn install_plan(&self, exe: Seq<char>, interval_minutes: u32) -> Seq<StepView> {
        seq![
            StepView::Write { path: service_path(self.dir@), content: service_unit(exe) },
            StepView::Write {
                path: timer_path(self.dir@),
                content: timer_unit(interval_minutes),
            },
            StepView::Run(reload()),
            StepView::Run(
                InvocationView {
                    program: "systemctl"@,
                    args: seq!["--user"@, "enable"@, "--now"@, "vesper-sync.timer"@],
                    label: "systemctl enable"@,
                },
            ),
        ]
    }

    open spec fn uninstall_plan(&self) -> Seq<StepView> {
        seq![
            StepView::Run(
                InvocationView {
                    program: "systemctl"@,
                    args: seq!["--user"@, "disable"@, "--now"@, "vesper-sync.timer"@],
                    label: "systemctl disable"@,
                },
            ),
            StepView::Remove { path: timer_path(self.dir@) },
            StepView::Remove { path: service_path(self.dir@) },
            StepView::Run(reload()),
        ]
    }

    open spec fn query(&self) -> InvocationView {
        InvocationView {
            program: "systemctl"@,
            args: seq!["--user"@, "is-enabled"@, "vesper-sync.timer"@],
            label: "systemctl is-enabled"@,
        }
    }

    fn install(&self, exe: &str, interval_minutes: u32) -> (r: Vec<ServiceStep>) {
        let mut v = text::to_chars(
            "[Unit]\nDescription=Vesper background sync\n\n[Service]\nType=oneshot\nExecStart=\"",
        );
        text::push_str(&mut v, exe);
        text::push_str(&mut v, "\" sync\n");
        let minutes = text::decimal_chars(interval_minutes as u64);
        let mut t = text::to_chars(
            "[Unit]\nDescription=Periodic Vesper background sync\n\n[Timer]\nOnBootSec=",
        );
        text::push_all(&mut t, &minutes);
        text::push_str(&mut t, "min\nOnUnitActiveSec=");
        text::push_all(&mut t, &minutes);
        text::push_str(&mut t, "min\n\n[Install]\nWantedBy=timers.target\n");
        let args: [&str; 4] = ["--user", "enable", "--now", "vesper-sync.timer"];
        let run = invoke("systemctl", &args, "systemctl enable");
        assert(run@.args =~= seq!["--user"@, "enable"@, "--now"@, "vesper-sync.timer"@]);
        let mut steps: Vec<ServiceStep> = Vec::new();
        steps.push(
            ServiceStep::Write {
                path: text::concat(self.dir.as_str(), "/vesper-sync.service"),
                content: text::to_text(&v),
            },
        );
        steps.push(
            ServiceStep::Write {
                path: text::concat(self.dir.as_str(), "/vesper-sync.timer"),
                content: text::to_text(&t),
            },
        );
        steps.push(ServiceStep::Run(run_reload()));
        steps.push(ServiceStep::Run(run));
        assert(step_views(steps@) =~= self.install_plan(exe@, interval_minutes));
        steps
    }

    fn uninstall(&self) -> (r: Vec<ServiceStep>) {
        let args: [&str; 4] = ["--user", "disable", "--now", "vesper-sync.timer"];
        let run = invoke("systemctl", &args, "systemctl disable");
        assert(run@.args =~= seq!["--user"@, "disable"@, "--now"@, "vesper-sync.timer"@]);
        let mut steps: Vec<ServiceStep> = Vec::new();
        steps.push(ServiceStep::Run(run));
        steps.push(
            ServiceStep::Remove { path: text::concat(self.dir.as_str(), "/vesper-sync.timer") },
        );
        steps.push(
            ServiceStep::Remove { path: text::concat(self.dir.as_str(), "/vesper-sync.service") },
        );
        steps.push(ServiceStep::Run(run_reload()));
        assert(step_views(steps@) =~= self.uninstall_plan());
        steps
    }

    fn status(&self) -> (r: Invocation) {
        let args: [&str; 3] = ["--user", "is-enabled", "vesper-sync.timer"];
        let run = invoke("systemctl", &args, "systemctl is-enabled");
        assert(run@.args =~= seq!["--user"@, "is-enabled"@, "vesper-sync.timer"@]);
        run
    }
}

// ---------------------------------------------------------------------------
// macOS
// ---------------------------------------------------------------------------

/// A launchd agent; `dir` is the folder of the user's agents.
pub struct LaunchAgent {
    pub dir: String,
}

pub open spec fn agent_path(dir: Seq<char>) -> Seq<char> {
    dir + "/vesper.sync.plist"@
}

pub open spec fn agent_plist(exe: Seq<char>, interval_minutes: u32) -> Seq<char> {
    "<?xml version=\"1.0\" encoding=\"UTF-8\"?>\n<plist version=\"1.0\">\n<dict>\n<key>Label</key>\n<string>vesper.sync</string>\n<key>ProgramArguments</key>\n<array>\n<string>"@
        + epub::escaped(exe)
        + "</string>\n<string>sync</string>\n</array>\n<key>StartInterval</key>\n<integer>"@
        + text::decimal((interval_minutes * 60) as nat) + "</integer>\n</dict>\n</plist>\n"@
}

impl ServiceManager for LaunchAgent {
    open spec fn install_plan(&self, exe: Seq<char>, interval_minutes: u32) -> Seq<StepView> {
        seq![
            StepView::Write {
                path: agent_path(self.dir@),
                content: agent_plist(exe, interval_minutes),
            },
            StepView::Run(
                InvocationView {
                    program: "launchctl"@,
                    args: seq!["load"@, "-w"@, agent_path(self.dir@)],
                    label: "launchctl load"@,
                },
            ),
        ]
    }

    open spec fn uninstall_plan(&self) -> Seq<StepView> {
        seq![
            StepView::Run(
                InvocationView {
                    program: "launchctl"@,
                    args: seq!["unload"@, "-w"@, agent_path(self.dir@)],
                    label: "launchctl unload"@,
                },
            ),
            StepView::Remove { path: agent_path(self.dir@) },
        ]
    }

    open spec fn query(&self) -> InvocationView {
        InvocationView {
            program: "launchctl"@,
            args: seq!["list"@, "vesper.sync"@],
            label: "launchctl list"@,
        }
    }

    fn install(&self, exe: &str, interval_minutes: u32) -> (r: Vec<ServiceStep>) {
        let path = text::concat(self.dir.as_str(), "/vesper.sync.plist");
        let mut v = text::to_chars(
            "<?xml version=\"1.0\" encoding=\"UTF-8\"?>\n<plist version=\"1.0\">\n<dict>\n<key>Label</key>\n<string>vesper.sync</string>\n<key>ProgramArguments</key>\n<array>\n<string>",
        );
        let program = epub::escape(exe);
        text::push_str(&mut v, program.as_str());
        text::push_str(
            &mut v,
            "</string>\n<string>sync</string>\n</array>\n<key>StartInterval</key>\n<integer>",
        );
        let seconds = text::decimal_chars(interval_minutes as u64 * 60);
        text::push_all(&mut v, &seconds);
        text::push_str(&mut v, "</integer>\n</dict>\n</plist>\n");
        let args: [&str; 3] = ["load", "-w", path.as_str()];
        let run = invoke("launchctl", &args, "launchctl load");
        assert(run@.args =~= seq!["load"@, "-w"@, agent_path(self.dir@)]);
        let mut steps: Vec<ServiceStep> = Vec::new();
        steps.push(ServiceStep::Write { path, content: text::to_text(&v) });
        steps.push(ServiceStep::Run(run));
        assert(step_views(steps@) =~= self.install_plan(exe@, interval_minutes));
        steps
    }

    fn uninstall(&self) -> (r: Vec<ServiceStep>) {
        let path = text::concat(self.dir.as_str(), "/vesper.sync.plist");
        let args: [&str; 3] = ["unload", "-w", path.as_str()];
        let run = invoke("launchctl", &args, "launchctl unload");
        assert(run@.args =~= seq!["unload"@, "-w"@, agent_path(self.dir@)]);
        let mut steps: Vec<ServiceStep> = Vec::new();
        steps.push(ServiceStep::Run(run));
        steps.push(ServiceStep::Remove { path });
        assert(step_views(steps@) =~= self.uninstall_plan());
        steps
    }

    fn status(&self) -> (r: Invocation) {
        let args: [&str; 2] = ["list", "vesper.sync"];
        let run = invoke("launchctl", &args, "launchctl list");
        assert(run@.args =~= seq!["list"@, "vesper.sync"@]);
        run
    }
}

// ---------------------------------------------------------------------------
// Picking a manager
// ---------------------------------------------------------------------------

/// The manager of one of the platforms.
pub enum Manager {
    Windows(WindowsTaskScheduler),
    Systemd(SystemdTimer),
    Launchd(LaunchAgent),
}

impl ServiceManager for Manager {
    open spec fn install_plan(&self, exe: Seq<char>, interval_minutes: u32) -> Seq<StepView> {
        match *self {
            Manager::Windows(m) => m.install_plan(exe, interval_minutes),
            Manager::Systemd(m) => m.install_plan(exe, interval_minutes),
            Manager::Launchd(m) => m.install_plan(exe, interval_minutes),
        }
    }

    open spec fn uninstall_plan(&self) -> Seq<StepView> {
        match *self {
            Manager::Windows(m) => m.uninstall_plan(),
            Manager::Systemd(m) => m.uninstall_plan(),
            Manager::Launchd(m) => m.uninstall_plan(),
        }
    }

    open spec fn query(&self) -> InvocationView {
        match *self {
            Manager::Windows(m) => m.query(),
            Manager::Systemd(m) => m.query(),
            Manager::Launchd(m) => m.query(),
        }
    }

    fn install(&self, exe: &str, interval_minutes: u32) -> (r: Vec<ServiceStep>) {
        match self {
            Manager::Windows(m) => m.install(exe, interval_minutes),
            Manager::Systemd(m) => m.install(exe, interval_minutes),
            Manager::Launchd(m) => m.install(exe, interval_minutes),
        }
    }

    fn uninstall(&self) -> (r: Vec<ServiceStep>) {
        match self {
            Manager::Windows(m) => m.uninstall(),
            Manager::Systemd(m) => m.uninstall(),
            Manager::Launchd(m) => m.uninstall(),
        }
    }

    fn status(&self) -> (r: Invocation) {
        match self {
            Manager::Windows(m) => m.status(),
            Manager::Systemd(m) => m.status(),
            Manager::Launchd(m) => m.status(),
        }
    }
}

/// The service manager for a platform, with the folder for its files. `os` is the name
/// Rust gives the platform.
pub fn manager(os: &str, dir: String) -> (r: Result<Manager, String>)
    ensures
        if os@ == "windows"@ {
            r matches Ok(Manager::Windows(m)) && m.dir@ == dir@
        } else if os@ == "linux"@ {
            r matches Ok(Manager::Systemd(m)) && m.dir@ == dir@
        } else if os@ == "macos"@ {
            r matches Ok(Manager::Launchd(m)) && m.dir@ == dir@
        } else {
            r matches Err(e) && e@
                == "background-service install is not implemented on this platform"@
        },
{
    if text::same(os, "windows") {
        Ok(Manager::Windows(WindowsTaskScheduler { dir }))
    } else if text::same(os, "linux") {
        Ok(Manager::Systemd(SystemdTimer { dir }))
    } else if text::same(os, "macos") {
        Ok(Manager::Launchd(LaunchAgent { dir }))
    } else {
        Err("background-service install is not implemented on this platform".to_string())
    }
}

pub open spec fn writes(plan: Seq<StepView>, path: Seq<char>) -> bool {
    exists|i: int|
        0 <= i < plan.len() && ((#[trigger] plan[i]) matches StepView::Write { path: p, content }
            && p == path)
}

pub open spec fn removes(plan: Seq<StepView>, path: Seq<char>) -> bool {
    exists|i: int|
        0 <= i < plan.len() && ((#[trigger] plan[i]) matches StepView::Remove { path: p } && p
            == path)
}

/// Removing the job removes every file that installing it wrote.
pub proof fn law_uninstall_removes_what_install_wrote(
    m: Manager,
    exe: Seq<char>,
    interval_minutes: u32,
    path: Seq<char>,
)
    requires
        writes(m.install_plan(exe, interval_minutes), path),
    ensures
        removes(m.uninstall_plan(), path),
{
    let plan = m.install_plan(exe, interval_minutes);
    let undo = m.uninstall_plan();
    let i = choose|i: int|
        0 <= i < plan.len() && ((#[trigger] plan[i]) matches StepView::Write { path: p, content }
            && p == path);
    match m {
        Manager::Windows(w) => {
            assert(undo[1] == (StepView::Remove { path: launcher_path(w.dir@) }));
        },
        Manager::Systemd(w) => {
            assert(undo[1] == (StepView::Remove { path: timer_path(w.dir@) }));
            assert(undo[2] == (StepView::Remove { path: service_path(w.dir@) }));
        },
        Manager::Launchd(w) => {
            assert(undo[1] == (StepView::Remove { path: agent_path(w.dir@) }));
        },
    }
}

/// Installing the job writes what runs `sync` on the program, at the interval asked for, and starts
/// it; each platform has its own scheduler for that.
pub proof fn law_installing_schedules_the_program(
    m: Manager,
    exe: Seq<char>,
    minutes: u32,
)
    ensures
        m matches Manager::Windows(w) ==> {
            let plan = m.install_plan(exe, minutes);
            &&& plan.len() == 2
            &&& plan[0] == (StepView::Write {
                path: w.dir@ + "\\sync-hidden.vbs"@,
                content: "CreateObject(\"WScript.Shell\").Run \"\"\""@ + exe
                    + "\"\" sync\", 0, False\r\n"@,
            })
            &&& plan[1] matches StepView::Run(run) && run.program == "schtasks"@ && run.args.len()
                == 10 && run.args[0] == "/Create"@ && run.args[2] == "WebnovelCrawlerSync"@
                && run.args[4] == "wscript.exe \""@ + (w.dir@ + "\\sync-hidden.vbs"@) + "\""@
                && run.args[6] == "MINUTE"@ && run.args[8] == text::decimal(minutes as nat)
        },
        m matches Manager::Systemd(w) ==> {
            let plan = m.install_plan(exe, minutes);
            &&& plan.len() == 4
            &&& plan[0] == (StepView::Write {
                path: w.dir@ + "/vesper-sync.service"@,
                content:
                    "[Unit]\nDescription=Vesper background sync\n\n[Service]\nType=oneshot\nExecStart=\""@
                    + exe + "\" sync\n"@,
            })
            &&& plan[1] == (StepView::Write {
                path: w.dir@ + "/vesper-sync.timer"@,
                content:
                    "[Unit]\nDescription=Periodic Vesper background sync\n\n[Timer]\nOnBootSec="@
                    + text::decimal(minutes as nat) + "min\nOnUnitActiveSec="@ + text::decimal(
                    minutes as nat,
                ) + "min\n\n[Install]\nWantedBy=timers.target\n"@,
            })
            &&& plan[2] matches StepView::Run(run) && run.program == "systemctl"@ && run.args
                == seq!["--user"@, "daemon-reload"@]
            &&& plan[3] matches StepView::Run(run) && run.program == "systemctl"@ && run.args
                == seq!["--user"@, "enable"@, "--now"@, "vesper-sync.timer"@]
        },
        m matches Manager::Launchd(w) ==> {
            let plan = m.install_plan(exe, minutes);
            &&& plan.len() == 2
            &&& plan[0] matches StepView::Write { path, content } && path == w.dir@
                + "/vesper.sync.plist"@ && content == agent_plist(exe, minutes)
            &&& plan[1] matches StepView::Run(run) && run.program == "launchctl"@ && run.args
                == seq!["load"@, "-w"@, w.dir@ + "/vesper.sync.plist"@]
        },
{
}

/// The agent of launchd runs the program, as it is written in XML, every so many seconds.
pub proof fn law_the_agent_runs_the_program(exe: Seq<char>, minutes: u32) -> (r: (int, int))
    ensures
        text::occurs_at(
            agent_plist(exe, minutes),
            "<array>\n<string>"@ + epub::escaped(exe) + "</string>\n<string>sync</string>\n"@,
            r.0,
        ),
        text::occurs_at(
            agent_plist(exe, minutes),
            "<integer>"@ + text::decimal((minutes * 60) as nat) + "</integer>"@,
            r.1,
        ),
        0 < r.0 < r.1,
{
    let head =
        "<?xml version=\"1.0\" encoding=\"UTF-8\"?>\n<plist version=\"1.0\">\n<dict>\n<key>Label</key>\n<string>vesper.sync</string>\n<key>ProgramArguments</key>\n<array>\n<string>"@;
    let mid = "</string>\n<string>sync</string>\n</array>\n<key>StartInterval</key>\n<integer>"@;
    let tail = "</integer>\n</dict>\n</plist>\n"@;
    let e = epub::escaped(exe);
    let d = text::decimal((minutes * 60) as nat);
    let all = agent_plist(exe, minutes);
    assert(all =~= head + e + mid + d + tail);
    reveal_strlit(
        "<?xml version=\"1.0\" encoding=\"UTF-8\"?>\n<plist version=\"1.0\">\n<dict>\n<key>Label</key>\n<string>vesper.sync</string>\n<key>ProgramArguments</key>\n<array>\n<string>",
    );
    reveal_strlit("</string>\n<string>sync</string>\n</array>\n<key>StartInterval</key>\n<integer>");
    reveal_strlit("</integer>\n</dict>\n</plist>\n");
    reveal_strlit("<array>\n<string>");
    reveal_strlit("</string>\n<string>sync</string>\n");
    reveal_strlit("<integer>");
    reveal_strlit("</integer>");
    let open = "<array>\n<string>"@;
    let shut = "</string>\n<string>sync</string>\n"@;
    let a = head.len() - open.len();
    assert(head.skip(a) =~= open);
    assert(mid.take(shut.len() as int) =~= shut);
    let first = open + e + shut;
    assert forall|k: int| 0 <= k < first.len() implies #[trigger] all[a + k] == first[k] by {
        if k < open.len() {
            assert(head.skip(a)[k] == head[a + k]);
        } else if k < open.len() + e.len() {
        } else {
            assert(mid.take(shut.len() as int)[k - open.len() - e.len()] == mid[k - open.len()
                - e.len()]);
        }
    }
    assert(all.subrange(a, a + first.len()) =~= first);
    let num = "<integer>"@;
    let end = "</integer>"@;
    let c = head.len() + e.len() + mid.len() - num.len();
    assert(mid.skip(mid.len() - num.len()) =~= num);
    assert(tail.take(end.len() as int) =~= end);
    let second = num + d + end;
    assert forall|k: int| 0 <= k < second.len() implies #[trigger] all[c + k] == second[k] by {
        if k < num.len() {
            assert(mid.skip(mid.len() - num.len())[k] == mid[mid.len() - num.len() + k]);
        } else if k < num.len() + d.len() {
        } else {
            assert(tail.take(end.len() as int)[k - num.len() - d.len()] == tail[k - num.len()
                - d.len()]);
        }
    }
    assert(all.subrange(c, c + second.len()) =~= second);
    (a, c)
}

/// Removing the job stops it before its files go.
pub proof fn law_removing_stops_the_job(m: Manager)
    ensures
        m is Windows ==> (m.uninstall_plan()[0] matches StepView::Run(run) && run.args == seq![
            "/Delete"@,
            "/TN"@,
            "WebnovelCrawlerSync"@,
            "/F"@,
        ]),
        m is Systemd ==> (m.uninstall_plan()[0] matches StepView::Run(run) && run.args == seq![
            "--user"@,
            "disable"@,
            "--now"@,
            "vesper-sync.timer"@,
        ]),
        m matches Manager::Launchd(w) ==> (m.uninstall_plan()[0] matches StepView::Run(run)
            && run.args == seq!["unload"@, "-w"@, w.dir@ + "/vesper.sync.plist"@]),
        m is Windows ==> m.query().args == seq!["/Query"@, "/TN"@, "WebnovelCrawlerSync"@],
        m is Systemd ==> m.query().args == seq!["--user"@, "is-enabled"@, "vesper-sync.timer"@],
        m is Launchd ==> m.query().args == seq!["list"@, "vesper.sync"@],
{
}

} // verus!
