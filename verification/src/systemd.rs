//! The service supervisor's bus client.  Every call onto the bus goes
//! through a trusted wrapper around the `dbus` crate; the job bookkeeping —
//! which units were submitted, which completed, what remains before the
//! deadline — is verified code on plain values.

use std::collections::HashSet;
use std::sync::atomic::{AtomicBool, Ordering};
use std::sync::{Arc, Mutex};
use std::time::{Duration, Instant};
use vstd::prelude::*;

verus! {

/// An error reported by the bus or the supervisor, carried as its message.
#[derive(Clone, Debug)]
pub struct DbusError {
    pub message: String,
}

#[verifier::external_type_specification]
#[verifier::external_body]
pub struct ExConnection(dbus::blocking::Connection);

#[verifier::external_type_specification]
#[verifier::external_body]
pub struct ExPath<'a>(dbus::Path<'a>);

/// One raw unit record as the supervisor returns it.
pub type UnitRow = (
    String,
    String,
    String,
    String,
    String,
    String,
    dbus::Path<'static>,
    u32,
    String,
    dbus::Path<'static>,
);

/// Relies on the string rendering of `dbus::Path`: the object path's text.
#[verifier::external_body]
fn path_string(p: dbus::Path<'static>) -> String {
    p.to_string()
}

/// A raw unit record as plain strings.
fn row_to_status(t: UnitRow) -> (r: UnitStatus)
    ensures
        r.name == t.0,
        r.description == t.1,
        r.load_state == t.2,
        r.active_state == t.3,
        r.sub_state == t.4,
        r.followed == t.5,
        r.queued_job == t.7,
        r.queued_job_type == t.8,
{
    let (name, description, load_state, active_state, sub_state, followed, path7, queued_job, queued_job_type, path10) =
        t;
    UnitStatus {
        name,
        description,
        load_state,
        active_state,
        sub_state,
        followed,
        object_path: path_string(path7),
        queued_job,
        queued_job_type,
        queued_job_path: path_string(path10),
    }
}

/// A client of the supervisor's manager object on the system bus.
pub struct ServiceManager {
    conn: dbus::blocking::Connection,
}

impl Drop for ServiceManager {
    /// Relies on `dbus::blocking::Proxy::method_call` with the manager's
    /// `Unsubscribe` method: gives up the signal subscription when the
    /// client goes away.
    #[verifier::external_body]
    fn drop(&mut self)
        opens_invariants none
        no_unwind
    {
        let proxy = self.conn.with_proxy(
            "org.freedesktop.systemd1",
            "/org/freedesktop/systemd1",
            Duration::from_secs(2),
        );
        let _: Result<(), dbus::Error> =
            proxy.method_call("org.freedesktop.systemd1.Manager", "Unsubscribe", ());
    }
}

/// A unit operation submitted to the supervisor; its job object path is kept
/// as a plain string.
#[derive(Clone, Debug)]
pub struct Job {
    pub path: String,
}

/// A unit's status record, as the supervisor lists it.
#[derive(Clone, Debug)]
pub struct UnitStatus {
    pub name: String,
    pub description: String,
    pub load_state: String,
    pub active_state: String,
    pub sub_state: String,
    pub followed: String,
    pub object_path: String,
    pub queued_job: u32,
    pub queued_job_type: String,
    pub queued_job_path: String,
}

/// A unit file's name and enablement state.
#[derive(Clone, Debug)]
pub struct UnitFile {
    pub unit_name: String,
    pub status: String,
}

/// A subscription recording the unit name of every completed job into a
/// shared set, drained by [`take_completed`]; the match is released when
/// the monitor goes away.
#[verifier::external_body]
pub struct JobMonitor<'a> {
    names: Arc<Mutex<HashSet<String>>>,
    token: dbus::channel::Token,
    manager: &'a ServiceManager,
}

impl Drop for JobMonitor<'_> {
    /// Relies on `dbus::blocking::Connection::remove_match`: releases the
    /// job-signal match.
    #[verifier::external_body]
    fn drop(&mut self)
        opens_invariants none
        no_unwind
    {
        let _ = self.manager.conn.remove_match(self.token);
    }
}

/// A subscription recording that the supervisor finished reloading; the
/// match is released when the watch goes away.
#[verifier::external_body]
pub struct ReloadWatch<'a> {
    done: Arc<AtomicBool>,
    token: dbus::channel::Token,
    manager: &'a ServiceManager,
}

impl Drop for ReloadWatch<'_> {
    /// Relies on `dbus::blocking::Connection::remove_match`: releases the
    /// reload-signal match.
    #[verifier::external_body]
    fn drop(&mut self)
        opens_invariants none
        no_unwind
    {
        let _ = self.manager.conn.remove_match(self.token);
    }
}

#[verifier::external_type_specification]
#[verifier::external_body]
pub struct ExInstant(Instant);

/// Relies on `std::time::Instant::now`: the clock's reading, used as a
/// stopwatch start.
#[verifier::external_body]
pub fn stopwatch_start() -> Instant {
    Instant::now()
}

/// Relies on `std::time::Instant::elapsed`: milliseconds since the given
/// reading, saturated at the integer's range.  The result depends on the
/// clock, so nothing is promised of it.
#[verifier::external_body]
pub fn elapsed_millis(sw: &Instant) -> u64 {
    let ms = sw.elapsed().as_millis();
    if ms > u64::MAX as u128 {
        u64::MAX
    } else {
        ms as u64
    }
}

/// Relies on `dbus::blocking::Connection::new_system`: opens a connection to
/// the system bus.
#[verifier::external_body]
fn connect_system_bus() -> (r: Result<ServiceManager, DbusError>) {
    match dbus::blocking::Connection::new_system() {
        Ok(conn) => Ok(ServiceManager { conn }),
        Err(e) => Err(DbusError { message: e.to_string() }),
    }
}

impl ServiceManager {
    /// Relies on `dbus::blocking::Proxy::method_call` with the manager's
    /// `Subscribe` method: asks the supervisor to emit job signals.
    #[verifier::external_body]
    fn subscribe_manager(&self) -> (r: Result<(), DbusError>) {
        let proxy = self.conn.with_proxy(
            "org.freedesktop.systemd1",
            "/org/freedesktop/systemd1",
            Duration::from_secs(2),
        );
        let r: Result<(), dbus::Error> =
            proxy.method_call("org.freedesktop.systemd1.Manager", "Subscribe", ());
        r.map_err(|e| DbusError { message: e.to_string() })
    }

    /// Open a system-bus session against the supervisor and subscribe to its
    /// job signals.
    pub fn new_session() -> (r: Result<ServiceManager, DbusError>) {
        let mgr = connect_system_bus()?;
        mgr.subscribe_manager()?;
        Ok(mgr)
    }

    /// Relies on `dbus::blocking::Connection::unique_name`.
    #[verifier::external_body]
    pub fn unique_name(&self) -> String {
        self.conn.unique_name().to_string()
    }

    /// Relies on `dbus::blocking::Proxy::method_call` with a manager method
    /// taking a unit name and the `replace` mode and returning a job path.
    /// Only the four job-submitting member names are admitted: the member
    /// name is converted by the bus library with a validation it unwraps, so
    /// an arbitrary string could abort the process.
    #[verifier::external_body]
    fn call_unit_method(&self, method: &str, unit_name: &str) -> (r: Result<Job, DbusError>)
        requires
            method@ == "StartUnit"@ || method@ == "StopUnit"@ || method@ == "RestartUnit"@
                || method@ == "ReloadOrRestartUnit"@,
    {
        let proxy = self.conn.with_proxy(
            "org.freedesktop.systemd1",
            "/org/freedesktop/systemd1",
            Duration::from_secs(2),
        );
        let r: Result<(dbus::Path<'static>,), dbus::Error> =
            proxy.method_call("org.freedesktop.systemd1.Manager", method, (unit_name, "replace"));
        match r {
            Ok((path,)) => Ok(Job { path: path.to_string() }),
            Err(e) => Err(DbusError { message: e.to_string() }),
        }
    }

    /// Submit a start job for the unit, in `replace` mode.
    pub fn start_unit(&self, unit_name: &str) -> (r: Result<Job, DbusError>) {
        self.call_unit_method("StartUnit", unit_name)
    }

    /// Submit a stop job for the unit, in `replace` mode.
    pub fn stop_unit(&self, unit_name: &str) -> (r: Result<Job, DbusError>) {
        self.call_unit_method("StopUnit", unit_name)
    }

    /// Submit a restart job for the unit, in `replace` mode.
    pub fn restart_unit(&self, unit_name: &str) -> (r: Result<Job, DbusError>) {
        self.call_unit_method("RestartUnit", unit_name)
    }

    /// Submit a reload-or-restart job for the unit, in `replace` mode.
    pub fn reload_or_restart_unit(&self, unit_name: &str) -> (r: Result<Job, DbusError>) {
        self.call_unit_method("ReloadOrRestartUnit", unit_name)
    }

    /// Relies on `dbus::blocking::Proxy::method_call` with the manager's
    /// `ResetFailed` method.
    #[verifier::external_body]
    pub fn reset_failed(&self) -> (r: Result<(), DbusError>) {
        let proxy = self.conn.with_proxy(
            "org.freedesktop.systemd1",
            "/org/freedesktop/systemd1",
            Duration::from_secs(2),
        );
        let r: Result<(), dbus::Error> =
            proxy.method_call("org.freedesktop.systemd1.Manager", "ResetFailed", ());
        r.map_err(|e| DbusError { message: e.to_string() })
    }

    /// Relies on `dbus::blocking::Proxy::method_call` with the manager's
    /// `MaskUnitFiles` method, runtime as given, forcing replacement.
    #[verifier::external_body]
    pub fn mask_unit_files(&self, units: &Vec<String>, runtime: bool) -> (r: Result<
        (),
        DbusError,
    >) {
        let proxy = self.conn.with_proxy(
            "org.freedesktop.systemd1",
            "/org/freedesktop/systemd1",
            Duration::from_secs(2),
        );
        let names: Vec<&str> = units.iter().map(|u| u.as_str()).collect();
        let r: Result<(Vec<(String, String, String)>,), dbus::Error> =
            proxy.method_call("org.freedesktop.systemd1.Manager", "MaskUnitFiles", (names, runtime, true));
        r.map(|_| ()).map_err(|e| DbusError { message: e.to_string() })
    }

    /// Relies on `dbus::blocking::Proxy::method_call` with the manager's
    /// `UnmaskUnitFiles` method.
    #[verifier::external_body]
    pub fn unmask_unit_files(&self, units: &Vec<String>, runtime: bool) -> (r: Result<
        (),
        DbusError,
    >) {
        let proxy = self.conn.with_proxy(
            "org.freedesktop.systemd1",
            "/org/freedesktop/systemd1",
            Duration::from_secs(2),
        );
        let names: Vec<&str> = units.iter().map(|u| u.as_str()).collect();
        let r: Result<(Vec<(String, String, String)>,), dbus::Error> =
            proxy.method_call("org.freedesktop.systemd1.Manager", "UnmaskUnitFiles", (names, runtime));
        r.map(|_| ()).map_err(|e| DbusError { message: e.to_string() })
    }

    /// Relies on `dbus::blocking::Proxy::method_call` with the manager's
    /// `ListUnitsByPatterns` method: returns the raw unit records.
    #[verifier::external_body]
    fn call_list_units(&self, states: &Vec<String>, patterns: &Vec<String>) -> (r: Result<
        Vec<UnitRow>,
        DbusError,
    >) {
        let proxy = self.conn.with_proxy(
            "org.freedesktop.systemd1",
            "/org/freedesktop/systemd1",
            Duration::from_secs(2),
        );
        let st: Vec<&str> = states.iter().map(|u| u.as_str()).collect();
        let pa: Vec<&str> = patterns.iter().map(|u| u.as_str()).collect();
        let r: Result<(Vec<UnitRow>,), dbus::Error> =
            proxy.method_call("org.freedesktop.systemd1.Manager", "ListUnitsByPatterns", (st, pa));
        r.map(|t| t.0).map_err(|e| DbusError { message: e.to_string() })
    }

    /// List the units matching the given states and name patterns, as
    /// records of plain strings.
    pub fn list_units_by_patterns(&self, states: &Vec<String>, patterns: &Vec<String>) -> (r:
        Result<Vec<UnitStatus>, DbusError>) {
        let mut rows = self.call_list_units(states, patterns)?;
        let mut out: Vec<UnitStatus> = Vec::new();
        while rows.len() > 0
            decreases rows@.len(),
        {
            let row = rows.remove(0);
            out.push(row_to_status(row));
        }
        Ok(out)
    }

    /// A handle on one unit's bus object, taken from its status record.
    pub fn unit_manager<'a>(&'a self, unit_status: &UnitStatus) -> (r: UnitManager<'a>)
        ensures
            r.object_path@ == unit_status.object_path@,
    {
        UnitManager { manager: self, object_path: unit_status.object_path.clone() }
    }

    /// Relies on `dbus::blocking::Connection::add_match` with the manager's
    /// `JobRemoved` signal: the handler records each completed job's unit
    /// name into the monitor's shared set.
    #[verifier::external_body]
    pub fn monitor_jobs_init<'a>(&'a self) -> (r: Result<JobMonitor<'a>, DbusError>) {
        let names = Arc::new(Mutex::new(HashSet::new()));
        let names2 = Arc::clone(&names);
        let rule = dbus::message::MatchRule::new_signal("org.freedesktop.systemd1.Manager", "JobRemoved");
        let token = self.conn.add_match(
            rule,
            move |(_id, _job, unit, _res): (u32, dbus::Path<'static>, String, String),
                  _: &dbus::blocking::Connection,
                  _: &dbus::Message| {
                names2.lock().unwrap().insert(unit);
                true
            },
        ).map_err(|e| DbusError { message: e.to_string() })?;
        Ok(JobMonitor { names, token, manager: self })
    }

    /// Relies on `dbus::blocking::Connection::process`: pumps bus events for
    /// at most the given number of milliseconds, delivering pending signals
    /// to the installed handlers.
    #[verifier::external_body]
    fn pump_events(&self, millis: u64) -> (r: Result<(), DbusError>) {
        self.conn.process(Duration::from_millis(millis))
            .map(|_| ())
            .map_err(|e| DbusError { message: e.to_string() })
    }

    /// Relies on `dbus::blocking::Connection::add_match` with the manager's
    /// `Reloading` signal: the handler records the completion edge.
    #[verifier::external_body]
    fn watch_reloading<'a>(&'a self) -> (r: Result<ReloadWatch<'a>, DbusError>) {
        let done = Arc::new(AtomicBool::new(false));
        let done2 = Arc::clone(&done);
        let rule = dbus::message::MatchRule::new_signal("org.freedesktop.systemd1.Manager", "Reloading");
        let token = self.conn.add_match(
            rule,
            move |(active,): (bool,), _: &dbus::blocking::Connection, _: &dbus::Message| {
                if !active {
                    done2.store(true, Ordering::Relaxed);
                }
                true
            },
        ).map_err(|e| DbusError { message: e.to_string() })?;
        Ok(ReloadWatch { done, token, manager: self })
    }

    /// Relies on `dbus::blocking::Proxy::method_call` with the manager's
    /// `Reload` method.
    #[verifier::external_body]
    fn call_reload(&self) -> (r: Result<(), DbusError>) {
        let proxy = self.conn.with_proxy(
            "org.freedesktop.systemd1",
            "/org/freedesktop/systemd1",
            Duration::from_secs(2),
        );
        let r: Result<(), dbus::Error> =
            proxy.method_call("org.freedesktop.systemd1.Manager", "Reload", ());
        r.map_err(|e| DbusError { message: e.to_string() })
    }

    /// Ask the supervisor to reload its configuration and block until it
    /// reports that the reload finished.
    pub fn daemon_reload(&self) -> (r: Result<(), DbusError>) {
        let watch = self.watch_reloading()?;
        self.call_reload()?;
        let mut rounds: u64 = 0;
        while rounds < u64::MAX
            decreases u64::MAX - rounds,
        {
            if reload_done(&watch) {
                return Ok(());
            }
            self.pump_events(2000)?;
            rounds += 1;
        }
        Err(DbusError { message: reload_overdue_message() })
    }

    /// Wait until every job in `jobs` has been reported complete by the
    /// monitor, pumping bus events in short slices; gives up and returns
    /// `false` once the deadline in milliseconds has passed.  An empty job
    /// set succeeds immediately.
    #[verifier::loop_isolation(false)]
    pub fn monitor_jobs_finish(
        &self,
        job_monitor: &JobMonitor<'_>,
        timeout_millis: &Option<u64>,
        jobs: Vec<String>,
    ) -> (r: Result<bool, DbusError>)
        ensures
            jobs@.len() == 0 ==> r is Ok && r->Ok_0 == true,
    {
        let ghost g_jobs = jobs@;
        let mut waiting = jobs;
        let sw = stopwatch_start();
        let mut rounds: u64 = 0;
        while waiting.len() > 0 && rounds < u64::MAX
            invariant
                g_jobs.len() == 0 ==> waiting@.len() == 0,
            decreases u64::MAX - rounds,
        {
            self.pump_events(50)?;
            match timeout_millis {
                Some(t) => {
                    if elapsed_millis(&sw) > *t {
                        return Ok(false);
                    }
                },
                None => {},
            }
            let done = take_completed(job_monitor);
            waiting = remove_completed(&waiting, &done);
            rounds += 1;
        }
        Ok(waiting.len() == 0)
    }
}

/// A handle on one unit's bus object.
pub struct UnitManager<'a> {
    pub manager: &'a ServiceManager,
    pub object_path: String,
}

impl UnitManager<'_> {
    /// Relies on `dbus::blocking::Proxy::method_call` with the properties
    /// interface: reads the unit's `RefuseManualStart` flag.
    #[verifier::external_body]
    pub fn refuse_manual_start(&self) -> (r: Result<bool, DbusError>) {
        let path = dbus::Path::new(self.object_path.as_str()).map_err(|m| DbusError { message: m })?;
        let proxy = self.manager.conn.with_proxy("org.freedesktop.systemd1", path, Duration::from_secs(2));
        let r: Result<(dbus::arg::Variant<bool>,), dbus::Error> = proxy.method_call(
            "org.freedesktop.DBus.Properties",
            "Get",
            ("org.freedesktop.systemd1.Unit", "RefuseManualStart"),
        );
        r.map(|(v,)| v.0).map_err(|e| DbusError { message: e.to_string() })
    }

    /// Relies on `dbus::blocking::Proxy::method_call` with the properties
    /// interface: reads the unit's `RefuseManualStop` flag.
    #[verifier::external_body]
    pub fn refuse_manual_stop(&self) -> (r: Result<bool, DbusError>) {
        let path = dbus::Path::new(self.object_path.as_str()).map_err(|m| DbusError { message: m })?;
        let proxy = self.manager.conn.with_proxy("org.freedesktop.systemd1", path, Duration::from_secs(2));
        let r: Result<(dbus::arg::Variant<bool>,), dbus::Error> = proxy.method_call(
            "org.freedesktop.DBus.Properties",
            "Get",
            ("org.freedesktop.systemd1.Unit", "RefuseManualStop"),
        );
        r.map(|(v,)| v.0).map_err(|e| DbusError { message: e.to_string() })
    }
}

/// Whether the supervisor has reported the reload finished.
#[verifier::external_body]
fn reload_done(watch: &ReloadWatch<'_>) -> (r: bool) {
    watch.done.load(Ordering::Relaxed)
}

fn reload_overdue_message() -> String {
    "the supervisor never reported the reload finished".to_owned()
}

/// Relies on the monitor's shared set: drains and returns the unit names of
/// the jobs completed since the last call.  What arrives depends on the bus,
/// so nothing is promised of the contents.
#[verifier::external_body]
pub fn take_completed(monitor: &JobMonitor<'_>) -> (r: Vec<String>) {
    let mut set = monitor.names.lock().unwrap();
    let names: Vec<String> = set.iter().cloned().collect();
    set.clear();
    names
}

/// The names of `v` as character sequences.
pub open spec fn names_view(v: Seq<String>) -> Seq<Seq<char>> {
    v.map_values(|s: String| s@)
}

/// Whether `v` holds the name `name`.
pub fn contains_name(v: &Vec<String>, name: &String) -> (r: bool)
    ensures
        r == names_view(v@).contains(name@),
{
    let mut i: usize = 0;
    while i < v.len()
        invariant
            0 <= i <= v@.len(),
            forall|m: int| 0 <= m < i ==> (#[trigger] v@[m])@ != name@,
        decreases v@.len() - i,
    {
        if v[i] == *name {
            proof {
                assert(names_view(v@)[i as int] == name@);
            }
            return true;
        }
        i += 1;
    }
    proof {
        if names_view(v@).contains(name@) {
            let w = choose|w: int| 0 <= w < names_view(v@).len() && names_view(v@)[w] == name@;
            assert(v@[w]@ == name@);
        }
    }
    false
}

/// The members of `waiting` whose names are not in `done`, in order.
pub fn remove_completed(waiting: &Vec<String>, done: &Vec<String>) -> (r: Vec<String>)
    ensures
        names_view(r@) == names_view(waiting@).filter(
            |n: Seq<char>| !names_view(done@).contains(n),
        ),
{
    let ghost keep = |n: Seq<char>| !names_view(done@).contains(n);
    let mut r: Vec<String> = Vec::new();
    let mut i: usize = 0;
    proof {
        assert(names_view(waiting@).take(0) =~= Seq::<Seq<char>>::empty());
        assert(names_view(r@) =~= names_view(waiting@).take(0).filter(keep));
    }
    while i < waiting.len()
        invariant
            0 <= i <= waiting@.len(),
            names_view(r@) == names_view(waiting@).take(i as int).filter(keep),
            keep == (|n: Seq<char>| !names_view(done@).contains(n)),
        decreases waiting@.len() - i,
    {
        let ghost pre = names_view(waiting@).take(i as int);
        let ghost cur = names_view(waiting@).take(i as int + 1);
        proof {
            assert(cur.drop_last() =~= pre);
            assert(cur.last() == waiting@[i as int]@);
            reveal_with_fuel(Seq::filter, 2);
            assert(cur.filter(keep) == pre.filter(keep) + (if keep(waiting@[i as int]@) {
                seq![waiting@[i as int]@]
            } else {
                Seq::<Seq<char>>::empty()
            }));
        }
        if !contains_name(done, &waiting[i]) {
            let ghost old_r = r@;
            r.push(waiting[i].clone());
            proof {
                assert(names_view(r@) =~= names_view(old_r).push(waiting@[i as int]@));
                assert(names_view(r@) =~= pre.filter(keep) + seq![waiting@[i as int]@]);
            }
        } else {
            proof {
                assert(names_view(r@) =~= pre.filter(keep) + Seq::<Seq<char>>::empty());
            }
        }
        i += 1;
    }
    proof {
        assert(names_view(waiting@).take(waiting@.len() as int) =~= names_view(waiting@));
    }
    r
}

/// The unit operations the activator submits.
#[derive(Clone, Copy, PartialEq, Eq, Structural, Debug)]
pub enum UnitAction {
    Start,
    Stop,
    Restart,
    ReloadOrRestart,
}

impl ServiceManager {
    /// Submit one job per unit; units whose submission the supervisor
    /// refuses are skipped, and the returned names — all drawn from `units`
    /// — are those whose jobs were submitted and must be awaited.
    pub fn submit_unit_jobs(&self, action: UnitAction, units: &Vec<String>) -> (jobs: Vec<String>)
        ensures
            forall|i: int|
                0 <= i < jobs@.len() ==> names_view(units@).contains(#[trigger] jobs@[i]@),
    {
        let mut jobs: Vec<String> = Vec::new();
        let mut i: usize = 0;
        while i < units.len()
            invariant
                0 <= i <= units@.len(),
                forall|m: int|
                    0 <= m < jobs@.len() ==> names_view(units@).contains(#[trigger] jobs@[m]@),
            decreases units@.len() - i,
        {
            let unit = &units[i];
            let outcome = match action {
                UnitAction::Start => self.start_unit(unit.as_str()),
                UnitAction::Stop => self.stop_unit(unit.as_str()),
                UnitAction::Restart => self.restart_unit(unit.as_str()),
                UnitAction::ReloadOrRestart => self.reload_or_restart_unit(unit.as_str()),
            };
            match outcome {
                Ok(_) => {
                    jobs.push(unit.clone());
                    proof {
                        assert(names_view(units@)[i as int] == units@[i as int]@);
                        assert(jobs@[jobs@.len() - 1]@ == units@[i as int]@);
                    }
                },
                Err(_) => {},
            }
            i += 1;
        }
        jobs
    }
}

} // verus!
