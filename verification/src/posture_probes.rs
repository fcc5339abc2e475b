//! Posture signals that the controller asks for by specification: which probe
//! answers a signal, what its answer reads, and the results last reported.

use vstd::prelude::*;

use crate::table::Table;
use crate::text;

verus! {

/// Signals honoured from a specification; further ones are not probed, and
/// report "unsupported".
pub const MAX_SIGNALS: usize = 32;

/// Seconds after which a probe run starts no further probe.
pub const RUN_BUDGET_SECS: u64 = 5;

/// Seconds between probe runs that keep the results warm.
pub const REFRESH_SECS: u64 = 10;

/// A signal asked for.
#[derive(Debug, Clone)]
pub struct SignalSpec {
    pub id: String,
    pub family: String,
    pub params: Vec<(String, String)>,
    /// Weighed by the controller; the probe only reports a value.
    pub required: bool,
}

/// The signals asked for, under a version.
#[derive(Debug, Clone)]
pub struct PostureSpec {
    pub spec_version: i64,
    pub signals: Vec<SignalSpec>,
}

/// Model of a [`SignalSpec`].
#[verifier::ext_equal]
pub struct SignalView {
    pub id: Seq<char>,
    pub family: Seq<char>,
    pub params: Seq<(Seq<char>, Seq<char>)>,
    pub required: bool,
}

impl View for SignalSpec {
    type V = SignalView;

    open spec fn view(&self) -> SignalView {
        SignalView {
            id: self.id@,
            family: self.family@,
            params: text::pair_views(self.params@),
            required: self.required,
        }
    }
}

/// Model of a [`PostureSpec`].
#[verifier::ext_equal]
pub struct SpecView {
    pub version: i64,
    pub signals: Seq<SignalView>,
}

impl View for PostureSpec {
    type V = SpecView;

    open spec fn view(&self) -> SpecView {
        SpecView {
            version: self.spec_version,
            signals: self.signals@.map_values(|s: SignalSpec| s@),
        }
    }
}

impl SpecView {
    /// The ids of the signals.
    pub open spec fn ids(self) -> Seq<Seq<char>> {
        self.signals.map_values(|s: SignalView| s.id)
    }
}

// ---------------------------------------------------------------------
// What a signal is probed with
// ---------------------------------------------------------------------

/// A registry hive.
#[derive(Clone, Copy, Debug, PartialEq, Eq, Structural)]
pub enum Hive {
    LocalMachine,
    CurrentUser,
}

/// How a signal is answered.
#[derive(Debug)]
pub enum Probe {
    /// No answer can be had: a parameter is missing or does not resolve.
    Unknown,
    /// No probe for this family here.
    Unsupported,
    /// Whether a path exists.
    File(String),
    /// The `State` of the services a query names.
    Service(String),
    /// Whether a query names any process.
    Process(String),
    /// A value under a registry key.
    Registry(Hive, String, String),
}

/// Model of a [`Probe`].
pub enum ProbeView {
    Unknown,
    Unsupported,
    File(Seq<char>),
    Service(Seq<char>),
    Process(Seq<char>),
    Registry(Hive, Seq<char>, Seq<char>),
}

impl View for Probe {
    type V = ProbeView;

    open spec fn view(&self) -> ProbeView {
        match *self {
            Probe::Unknown => ProbeView::Unknown,
            Probe::Unsupported => ProbeView::Unsupported,
            Probe::File(p) => ProbeView::File(p@),
            Probe::Service(q) => ProbeView::Service(q@),
            Probe::Process(q) => ProbeView::Process(q@),
            Probe::Registry(h, k, v) => ProbeView::Registry(h, k@, v@),
        }
    }
}

/// A literal inside a management query, with its quotes doubled.
pub fn wql_quote(s: &str) -> (r: String)
    ensures
        r@ == text::replaced(s@, '\'', "''"@),
{
    let cs = text::chars(s);
    let q = text::replace_char(cs.as_slice(), '\'', "''");
    text::string(q.as_slice())
}

/// `head`, where the rest could be expanded, before it.
pub open spec fn after_head(head: Seq<char>, r: Option<Seq<char>>) -> Option<Seq<char>> {
    match r {
        Some(t) => Some(head + t),
        None => None,
    }
}

/// `s` with every `%NAME%` replaced by the variable's value. None where a
/// name is empty, unset or not closed.
pub open spec fn expanded(s: Seq<char>, env: Seq<(Seq<char>, Seq<char>)>) -> Option<Seq<char>>
    decreases s.len(),
{
    let i = text::until(s, '%') as int;
    if i >= s.len() {
        Some(s)
    } else {
        let after = text::rest(s, i + 1);
        let e = text::until(after, '%') as int;
        if e >= after.len() || e == 0 {
            None
        } else {
            match text::lookup(env, after.subrange(0, e)) {
                Some(v) => after_head(
                    s.subrange(0, i) + v,
                    expanded(text::rest(after, e + 1), env),
                ),
                None => None,
            }
        }
    }
}

/// Expands the environment variables in a path.
pub fn expand_env(input: &str, env: &Vec<(String, String)>) -> (r: Option<String>)
    ensures
        match r {
            Some(t) => expanded(input@, text::pair_views(env@)) == Some(t@),
            None => expanded(input@, text::pair_views(env@)) is None,
        },
{
    let ghost vars = text::pair_views(env@);
    let mut out: Vec<char> = Vec::new();
    let mut cur: Vec<char> = text::chars(input);
    assert(match expanded(cur@, vars) {
        Some(t) => out@ + t =~= t,
        None => true,
    });
    loop
        invariant
            vars == text::pair_views(env@),
            expanded(input@, vars) == after_head(out@, expanded(cur@, vars)),
        decreases cur@.len(),
    {
        let n: usize = cur.len();
        let i = text::index_of_char(cur.as_slice(), '%', 0);
        assert(text::rest(cur@, 0) =~= cur@);
        if i == n {
            text::push_all(&mut out, cur.as_slice());
            return Some(text::string(out.as_slice()));
        }
        let after = text::cut(cur.as_slice(), i + 1, n);
        let e = text::index_of_char(after.as_slice(), '%', 0);
        assert(text::rest(after@, 0) =~= after@);
        if e == after.len() || e == 0 {
            return None;
        }
        let name = text::cut(after.as_slice(), 0, e);
        let v = match text::find_pair(env, name.as_slice()) {
            Some(v) => v,
            None => {
                return None;
            },
        };
        let m: usize = after.len();
        let tail = text::cut(after.as_slice(), e + 1, m);
        let ghost head = cur@.subrange(0, i as int) + v@;
        let ghost before = out@;
        let lit = text::cut(cur.as_slice(), 0, i);
        text::push_all(&mut out, lit.as_slice());
        text::push_str(&mut out, v.as_str());
        assert(out@ =~= before + head);
        proof {
            if let Some(t) = expanded(tail@, vars) {
                assert(before + (head + t) =~= out@ + t);
            }
        }
        cur = tail;
    }
}

/// The variables that a path names, in order, up to the first name that is
/// empty or not closed.
pub open spec fn named(s: Seq<char>) -> Seq<Seq<char>>
    decreases s.len(),
{
    let i = text::until(s, '%') as int;
    if i >= s.len() {
        Seq::empty()
    } else {
        let after = text::rest(s, i + 1);
        let e = text::until(after, '%') as int;
        if e >= after.len() || e == 0 {
            Seq::empty()
        } else {
            seq![after.subrange(0, e)] + named(text::rest(after, e + 1))
        }
    }
}

/// Lists the variables that a path names.
pub fn env_names(input: &str) -> (r: Vec<String>)
    ensures
        text::strs(r@) == named(input@),
{
    let mut out: Vec<String> = Vec::new();
    let mut cur: Vec<char> = text::chars(input);
    assert(text::strs(out@) + named(cur@) =~= named(cur@));
    loop
        invariant
            named(input@) == text::strs(out@) + named(cur@),
        decreases cur@.len(),
    {
        let n: usize = cur.len();
        let i = text::index_of_char(cur.as_slice(), '%', 0);
        assert(text::rest(cur@, 0) =~= cur@);
        if i == n {
            assert(text::strs(out@) + named(cur@) =~= text::strs(out@));
            return out;
        }
        let after = text::cut(cur.as_slice(), i + 1, n);
        let e = text::index_of_char(after.as_slice(), '%', 0);
        assert(text::rest(after@, 0) =~= after@);
        if e == after.len() || e == 0 {
            assert(text::strs(out@) + named(cur@) =~= text::strs(out@));
            return out;
        }
        let name = text::cut(after.as_slice(), 0, e);
        let m: usize = after.len();
        let tail = text::cut(after.as_slice(), e + 1, m);
        let ghost before = text::strs(out@);
        out.push(text::string(name.as_slice()));
        proof {
            assert(text::strs(out@) =~= before.push(name@));
            assert(before + (seq![name@] + named(tail@)) =~= text::strs(out@) + named(tail@));
        }
        cur = tail;
    }
}

/// Law: how a path expands rests on the variables that it names alone.
pub proof fn law_expansion_reads_named(
    s: Seq<char>,
    a: Seq<(Seq<char>, Seq<char>)>,
    b: Seq<(Seq<char>, Seq<char>)>,
)
    requires
        forall|j: int|
            0 <= j < named(s).len() ==> text::lookup(a, #[trigger] named(s)[j]) == text::lookup(
                b,
                named(s)[j],
            ),
    ensures
        expanded(s, a) == expanded(s, b),
    decreases s.len(),
{
    let i = text::until(s, '%') as int;
    if i < s.len() {
        let after = text::rest(s, i + 1);
        let e = text::until(after, '%') as int;
        if e < after.len() && e != 0 {
            let tail = text::rest(after, e + 1);
            assert(named(s)[0] == after.subrange(0, e));
            assert forall|j: int| 0 <= j < named(tail).len() implies text::lookup(
                a,
                #[trigger] named(tail)[j],
            ) == text::lookup(b, named(tail)[j]) by {
                assert(named(s)[j + 1] == named(tail)[j]);
            }
            law_expansion_reads_named(tail, a, b);
        }
    }
}

/// Length of a registry path's hive: up to the first separator of either kind.
pub open spec fn hive_len(path: Seq<char>) -> nat {
    if text::until(path, '\\') <= text::until(path, '/') {
        text::until(path, '\\')
    } else {
        text::until(path, '/')
    }
}

/// The hive a name stands for, whatever its ASCII case.
pub open spec fn hive_of(name: Seq<char>) -> Option<Hive> {
    let n = text::ascii_lower(name);
    if n == "hklm"@ || n == "hkey_local_machine"@ {
        Some(Hive::LocalMachine)
    } else if n == "hkcu"@ || n == "hkey_current_user"@ {
        Some(Hive::CurrentUser)
    } else {
        None
    }
}

/// A registry path's hive and its key with backslashes.
pub open spec fn hive_split(path: Seq<char>) -> Option<(Hive, Seq<char>)> {
    let k = hive_len(path) as int;
    if k >= path.len() {
        None
    } else {
        match hive_of(path.subrange(0, k)) {
            Some(h) => Some((h, text::replaced(text::rest(path, k + 1), '/', "\\"@))),
            None => None,
        }
    }
}

/// Splits a registry path into its hive and key.
pub fn split_hive(path: &str) -> (r: Option<(Hive, String)>)
    ensures
        match r {
            Some((h, k)) => hive_split(path@) == Some((h, k@)),
            None => hive_split(path@) is None,
        },
{
    let cs = text::chars(path);
    let n: usize = cs.len();
    let b = text::index_of_char(cs.as_slice(), '\\', 0);
    let f = text::index_of_char(cs.as_slice(), '/', 0);
    assert(text::rest(cs@, 0) =~= cs@);
    let k: usize = if b <= f {
        b
    } else {
        f
    };
    if k == n {
        return None;
    }
    let name = text::cut(cs.as_slice(), 0, k);
    let low = text::to_ascii_lower(name.as_slice());
    let hive = if text::is_str(low.as_slice(), "hklm") || text::is_str(
        low.as_slice(),
        "hkey_local_machine",
    ) {
        Hive::LocalMachine
    } else if text::is_str(low.as_slice(), "hkcu") || text::is_str(
        low.as_slice(),
        "hkey_current_user",
    ) {
        Hive::CurrentUser
    } else {
        return None;
    };
    let tail = text::cut(cs.as_slice(), k + 1, n);
    let key = text::replace_char(tail.as_slice(), '/', "\\");
    Some((hive, text::string(key.as_slice())))
}

/// The probe for a signal of a family. Service, process and registry signals
/// are answered on Windows only.
pub open spec fn probe_of(
    family: Seq<char>,
    params: Seq<(Seq<char>, Seq<char>)>,
    env: Seq<(Seq<char>, Seq<char>)>,
    windows: bool,
) -> ProbeView {
    if family == "file_exists"@ {
        match text::lookup(params, "path"@) {
            Some(p) => match expanded(p, env) {
                Some(f) => ProbeView::File(f),
                None => ProbeView::Unknown,
            },
            None => ProbeView::Unknown,
        }
    } else if !windows {
        ProbeView::Unsupported
    } else if family == "service_state"@ {
        match text::lookup(params, "name"@) {
            Some(n) => ProbeView::Service(
                "SELECT State FROM Win32_Service WHERE Name='"@ + text::replaced(n, '\'', "''"@)
                    + "'"@,
            ),
            None => ProbeView::Unknown,
        }
    } else if family == "process_running"@ {
        match text::lookup(params, "image"@) {
            Some(n) => ProbeView::Process(
                "SELECT Name FROM Win32_Process WHERE Name='"@ + text::replaced(n, '\'', "''"@)
                    + "'"@,
            ),
            None => ProbeView::Unknown,
        }
    } else if family == "registry_value"@ {
        match (text::lookup(params, "path"@), text::lookup(params, "value"@)) {
            (Some(p), Some(v)) => match hive_split(p) {
                Some((h, k)) => ProbeView::Registry(h, k, v),
                None => ProbeView::Unknown,
            },
            _ => ProbeView::Unknown,
        }
    } else {
        ProbeView::Unsupported
    }
}

fn param(params: &Vec<(String, String)>, key: &str) -> (r: Option<String>)
    ensures
        match r {
            Some(v) => text::lookup(text::pair_views(params@), key@) == Some(v@),
            None => text::lookup(text::pair_views(params@), key@) is None,
        },
{
    let k = text::chars(key);
    text::find_pair(params, k.as_slice())
}

fn query(head: &str, name: &str) -> (r: String)
    ensures
        r@ == head@ + text::replaced(name@, '\'', "''"@) + "'"@,
{
    let mut q = text::chars(head);
    let n = wql_quote(name);
    text::push_str(&mut q, n.as_str());
    text::push_str(&mut q, "'");
    text::string(q.as_slice())
}

/// The variables that picking a signal's probe asks for.
pub open spec fn signal_named(
    family: Seq<char>,
    params: Seq<(Seq<char>, Seq<char>)>,
) -> Seq<Seq<char>> {
    match text::lookup(params, "path"@) {
        Some(p) if family == "file_exists"@ => named(p),
        _ => Seq::empty(),
    }
}

/// Lists the variables whose values [`probe_for`] needs.
pub fn signal_env_names(s: &SignalSpec) -> (r: Vec<String>)
    ensures
        text::strs(r@) == signal_named(s.family@, text::pair_views(s.params@)),
{
    if text::str_eq(s.family.as_str(), "file_exists") {
        if let Some(p) = param(&s.params, "path") {
            return env_names(p.as_str());
        }
    }
    let none: Vec<String> = Vec::new();
    assert(text::strs(none@) =~= Seq::empty());
    none
}

/// Picks the probe for a signal.
pub fn probe_for(s: &SignalSpec, env: &Vec<(String, String)>, windows: bool) -> (r: Probe)
    ensures
        r@ == probe_of(s.family@, text::pair_views(s.params@), text::pair_views(env@), windows),
{
    let family = s.family.as_str();
    if text::str_eq(family, "file_exists") {
        return match param(&s.params, "path") {
            Some(p) => match expand_env(p.as_str(), env) {
                Some(f) => Probe::File(f),
                None => Probe::Unknown,
            },
            None => Probe::Unknown,
        };
    }
    if !windows {
        return Probe::Unsupported;
    }
    if text::str_eq(family, "service_state") {
        return match param(&s.params, "name") {
            Some(n) => Probe::Service(
                query("SELECT State FROM Win32_Service WHERE Name='", n.as_str()),
            ),
            None => Probe::Unknown,
        };
    }
    if text::str_eq(family, "process_running") {
        return match param(&s.params, "image") {
            Some(n) => Probe::Process(
                query("SELECT Name FROM Win32_Process WHERE Name='", n.as_str()),
            ),
            None => Probe::Unknown,
        };
    }
    if text::str_eq(family, "registry_value") {
        return match (param(&s.params, "path"), param(&s.params, "value")) {
            (Some(p), Some(v)) => match split_hive(p.as_str()) {
                Some((h, k)) => Probe::Registry(h, k, v),
                None => Probe::Unknown,
            },
            _ => Probe::Unknown,
        };
    }
    Probe::Unsupported
}

// ---------------------------------------------------------------------
// What an answer reads
// ---------------------------------------------------------------------

/// Registry value types.
pub const REG_SZ: u32 = 1;

pub const REG_EXPAND_SZ: u32 = 2;

pub const REG_DWORD: u32 = 4;

/// The error for a value that is not there.
pub const ERROR_FILE_NOT_FOUND: u32 = 2;

/// Units of sixteen bits read as text, with bad sequences replaced.
pub uninterp spec fn utf16_lossy(units: Seq<u16>) -> Seq<char>;

/// `String::from_utf16_lossy`: depends on the units alone.
#[verifier::external_body]
pub(crate) fn from_utf16_lossy(units: &[u16]) -> (r: String)
    ensures
        r@ == utf16_lossy(units@),
{
    String::from_utf16_lossy(units)
}

/// A text value without the zero characters that end it.
pub fn registry_text(raw: &str) -> (r: String)
    ensures
        r@ == text::drop_char(raw@, '\0'),
{
    let cs = text::chars(raw);
    let t = text::trim_end_char(cs.as_slice(), '\0');
    text::string(t.as_slice())
}

/// What a read of a registry value reports: the text of a text value, the
/// number of a number value, "true" for other types, "false" for a missing
/// value; nothing on other errors. `units` is the buffer, `size` the bytes
/// that the read filled.
pub open spec fn registry_reading(code: u32, ty: u32, units: Seq<u16>, size: u32) -> Option<
    Seq<char>,
> {
    let n = if size / 2 <= units.len() {
        (size / 2) as int
    } else {
        units.len() as int
    };
    if code == ERROR_FILE_NOT_FOUND {
        Some("false"@)
    } else if code != 0 {
        None
    } else if ty == REG_SZ || ty == REG_EXPAND_SZ {
        Some(text::drop_char(utf16_lossy(units.subrange(0, n)), '\0'))
    } else if ty == REG_DWORD {
        if units.len() >= 2 {
            Some(text::decimal((units[0] + 65536 * units[1]) as nat))
        } else {
            None
        }
    } else {
        Some("true"@)
    }
}

/// Reads the answer of a registry query.
pub fn registry_value(code: u32, ty: u32, units: &Vec<u16>, size: u32) -> (r: Option<String>)
    ensures
        match r {
            Some(t) => registry_reading(code, ty, units@, size) == Some(t@),
            None => registry_reading(code, ty, units@, size) is None,
        },
{
    if code == ERROR_FILE_NOT_FOUND {
        return Some("false".to_owned());
    }
    if code != 0 {
        return None;
    }
    if ty == REG_SZ || ty == REG_EXPAND_SZ {
        let want: u32 = size / 2;
        let len: usize = units.len();
        let n: usize = if (want as usize) <= len {
            want as usize
        } else {
            len
        };
        let part = vstd::slice::slice_subrange(units.as_slice(), 0, n);
        let raw = from_utf16_lossy(part);
        return Some(registry_text(raw.as_str()));
    }
    if ty == REG_DWORD {
        if units.len() < 2 {
            return None;
        }
        let v: u64 = units[0] as u64 + 65536 * (units[1] as u64);
        let d = text::dec(v);
        return Some(text::string(d.as_slice()));
    }
    Some("true".to_owned())
}

/// What a probe brought back.
#[derive(Debug)]
pub enum Reading {
    /// The query could not be made.
    Failed,
    /// Whether the path exists.
    Exists(bool),
    /// The state of the first service named, if any.
    ServiceState(Option<String>),
    /// Whether any process was named.
    Processes(bool),
    /// The value of a registry read; `None` on an error.
    Registry(Option<String>),
}

/// A truth value as reported.
pub open spec fn truth(b: bool) -> Seq<char> {
    if b {
        "true"@
    } else {
        "false"@
    }
}

/// The value reported for a probe and its reading.
pub open spec fn reported(p: ProbeView, x: Reading) -> Seq<char> {
    match (p, x) {
        (ProbeView::Unsupported, _) => "unsupported"@,
        (ProbeView::File(_), Reading::Exists(b)) => truth(b),
        (ProbeView::Service(_), Reading::ServiceState(s)) => truth(
            s matches Some(t) && text::ascii_lower(t@) == "running"@,
        ),
        (ProbeView::Process(_), Reading::Processes(b)) => truth(b),
        (ProbeView::Registry(_, _, _), Reading::Registry(Some(v))) => v@,
        _ => "unknown"@,
    }
}

/// A truth value as reported.
pub fn truth_text(b: bool) -> (r: String)
    ensures
        r@ == truth(b),
{
    if b {
        "true".to_owned()
    } else {
        "false".to_owned()
    }
}

/// The value to report for a probe.
pub fn probe_value(p: &Probe, x: &Reading) -> (r: String)
    ensures
        r@ == reported(p@, *x),
{
    match (p, x) {
        (Probe::Unsupported, _) => "unsupported".to_owned(),
        (Probe::File(_), Reading::Exists(b)) => truth_text(*b),
        (Probe::Service(_), Reading::ServiceState(s)) => match s {
            Some(t) => {
                let cs = text::chars(t.as_str());
                let low = text::to_ascii_lower(cs.as_slice());
                truth_text(text::is_str(low.as_slice(), "running"))
            },
            None => truth_text(false),
        },
        (Probe::Process(_), Reading::Processes(b)) => truth_text(*b),
        (Probe::Registry(_, _, _), Reading::Registry(Some(v))) => v.clone(),
        _ => "unknown".to_owned(),
    }
}

/// How a reported value is counted.
pub open spec fn class_of(value: Seq<char>) -> Seq<char> {
    if value == "false"@ {
        "nomatch"@
    } else if value == "unknown"@ {
        "error"@
    } else if value == "unsupported"@ {
        "unsupported"@
    } else {
        "match"@
    }
}

/// The class under which a reported value is counted; text values count as
/// matches.
pub fn result_class(value: &str) -> (r: &'static str)
    ensures
        r@ == class_of(value@),
{
    if text::str_eq(value, "false") {
        "nomatch"
    } else if text::str_eq(value, "unknown") {
        "error"
    } else if text::str_eq(value, "unsupported") {
        "unsupported"
    } else {
        "match"
    }
}

// ---------------------------------------------------------------------
// A run over a specification
// ---------------------------------------------------------------------

/// Values of the signals probed so far, by signal id.
pub open spec fn run_values(ids: Seq<Seq<char>>, values: Seq<Seq<char>>) -> Map<
    Seq<char>,
    Seq<char>,
>
    decreases values.len(),
{
    if values.len() == 0 {
        Map::empty()
    } else {
        run_values(ids, values.drop_last()).insert(ids[values.len() - 1], values.last())
    }
}

/// The ids of a specification's signals.
pub open spec fn ids(spec_signals: Seq<SignalSpec>) -> Seq<Seq<char>> {
    spec_signals.map_values(|s: SignalSpec| s.id@)
}

/// A map of strings as a map of texts.
pub open spec fn texts(m: Map<Seq<char>, String>) -> Map<Seq<char>, Seq<char>> {
    m.map_values(|s: String| s@)
}

/// One run over a specification: which signal comes next, and the values
/// found. A later signal with the same id wins.
pub struct ProbeRun {
    results: Table<String, String>,
    next: usize,
    values: Ghost<Seq<Seq<char>>>,
}

impl ProbeRun {
    /// The values recorded, in signal order.
    pub closed spec fn values(&self) -> Seq<Seq<char>> {
        self.values@
    }

    /// The results are a table.
    pub closed spec fn sound(&self) -> bool {
        self.results.wf()
    }

    /// The results hold the recorded values of `signals`.
    pub closed spec fn wf(&self, signals: Seq<SignalSpec>) -> bool {
        &&& self.results.wf()
        &&& self.next == self.values@.len()
        &&& self.next <= signals.len()
        &&& texts(self.results@) == run_values(ids(signals), self.values@)
    }

    /// The results as a map.
    pub closed spec fn results(&self) -> Map<Seq<char>, Seq<char>> {
        texts(self.results@)
    }

    /// A run that has probed nothing.
    pub fn new(spec_in: &PostureSpec) -> (r: ProbeRun)
        ensures
            r.wf(spec_in.signals@),
            r.sound(),
            r.values() == Seq::<Seq<char>>::empty(),
            r.results() == Map::<Seq<char>, Seq<char>>::empty(),
    {
        let r = ProbeRun { results: Table::new(), next: 0, values: Ghost(Seq::empty()) };
        assert(texts(r.results@) =~= Map::<Seq<char>, Seq<char>>::empty());
        r
    }

    /// The signal to probe next; none at the end, past the bound on signals,
    /// or out of time.
    pub fn next_signal(&self, spec_in: &PostureSpec, elapsed_secs: u64) -> (r: Option<usize>)
        requires
            self.wf(spec_in.signals@),
        ensures
            r == if self.values().len() < spec_in.signals@.len() && self.values().len()
                < MAX_SIGNALS && elapsed_secs < RUN_BUDGET_SECS {
                Some(self.values().len() as usize)
            } else {
                None
            },
    {
        if self.next < spec_in.signals.len() && self.next < MAX_SIGNALS && elapsed_secs
            < RUN_BUDGET_SECS {
            Some(self.next)
        } else {
            None
        }
    }

    /// Notes the value of the next signal.
    pub fn record(&mut self, spec_in: &PostureSpec, value: String)
        requires
            old(self).wf(spec_in.signals@),
            old(self).values().len() < spec_in.signals@.len(),
        ensures
            final(self).wf(spec_in.signals@),
            final(self).sound(),
            final(self).values() == old(self).values().push(value@),
            final(self).results() == old(self).results().insert(
                ids(spec_in.signals@)[old(self).values().len() as int],
                value@,
            ),
    {
        let ghost before = self.results@;
        let ghost vals = self.values@;
        let ghost v = value@;
        let id = spec_in.signals[self.next].id.clone();
        let n: usize = spec_in.signals.len();
        assert(self.next < n);
        self.results.insert(id, value);
        self.next = self.next + 1;
        self.values = Ghost(vals.push(v));
        proof {
            assert(vals.push(v).drop_last() =~= vals);
            assert(texts(self.results@) =~= texts(before).insert(
                ids(spec_in.signals@)[vals.len() as int],
                v,
            ));
        }
    }
}

/// Whether an id is one of those honoured: one of the first signals carries it.
pub open spec fn honoured(ids: Seq<Seq<char>>, id: Seq<char>) -> bool {
    exists|k: int| 0 <= k < ids.len() && k < MAX_SIGNALS && #[trigger] ids[k] == id
}

/// What an id reports: "unsupported" where it is not honoured, else what is
/// known of it.
pub open spec fn value_of(
    ids: Seq<Seq<char>>,
    results: Map<Seq<char>, Seq<char>>,
    id: Seq<char>,
) -> Seq<char> {
    if !honoured(ids, id) {
        "unsupported"@
    } else if results.contains_key(id) {
        results[id]
    } else {
        "unknown"@
    }
}

/// Each signal's id with what it reports.
pub open spec fn report_of(
    ids: Seq<Seq<char>>,
    results: Map<Seq<char>, Seq<char>>,
) -> Seq<(Seq<char>, Seq<char>)> {
    ids.map_values(|id: Seq<char>| (id, value_of(ids, results, id)))
}

/// Model of [`Probes`]: the current specification and the last results.
#[verifier::ext_equal]
pub struct ProbesView {
    pub current: Option<SpecView>,
    pub results: Map<Seq<char>, Seq<char>>,
}

/// The current specification and the results last found.
pub struct Probes {
    current: Option<PostureSpec>,
    results: Table<String, String>,
}

impl View for Probes {
    type V = ProbesView;

    closed spec fn view(&self) -> ProbesView {
        ProbesView {
            current: match self.current {
                Some(s) => Some(s@),
                None => None,
            },
            results: texts(self.results@),
        }
    }
}

fn is_honoured(signals: &Vec<SignalSpec>, id: &String) -> (r: bool)
    ensures
        r == honoured(ids(signals@), id@),
{
    let ghost all = ids(signals@);
    let mut k: usize = 0;
    while k < signals.len() && k < MAX_SIGNALS
        invariant
            k <= signals@.len(),
            all == ids(signals@),
            forall|j: int| 0 <= j < k ==> #[trigger] all[j] != id@,
        decreases signals@.len() - k,
    {
        assert(all[k as int] == signals@[k as int].id@);
        if text::str_eq(signals[k].id.as_str(), id.as_str()) {
            return true;
        }
        k += 1;
    }
    false
}

impl Probes {
    pub closed spec fn wf(&self) -> bool {
        self.results.wf()
    }

    /// No specification and no results.
    pub fn new() -> (r: Probes)
        ensures
            r.wf(),
            r@ == (ProbesView { current: None, results: Map::empty() }),
    {
        let r = Probes { current: None, results: Table::new() };
        assert(texts(r.results@) =~= Map::<Seq<char>, Seq<char>>::empty());
        r
    }

    /// Takes a specification. One without a positive version or without
    /// signals clears the current one. The version now in force.
    pub fn set_spec(&mut self, spec_in: PostureSpec) -> (r: Option<i64>)
        requires
            old(self).wf(),
        ensures
            final(self).wf(),
            final(self)@.results == old(self)@.results,
            final(self)@.current == if spec_in.spec_version <= 0 || spec_in.signals@.len() == 0 {
                None
            } else {
                Some(spec_in@)
            },
            r == match final(self)@.current {
                Some(s) => Some(s.version),
                None => None,
            },
    {
        if spec_in.spec_version <= 0 || spec_in.signals.len() == 0 {
            self.current = None;
            return None;
        }
        let v: i64 = spec_in.spec_version;
        self.current = Some(spec_in);
        Some(v)
    }

    /// Version of the current specification.
    pub fn current_spec_version(&self) -> (r: Option<i64>)
        ensures
            r == match self@.current {
                Some(s) => Some(s.version),
                None => None,
            },
    {
        match &self.current {
            Some(s) => Some(s.spec_version),
            None => None,
        }
    }

    /// The current specification.
    pub fn current_spec(&self) -> (r: Option<&PostureSpec>)
        ensures
            match r {
                Some(s) => self@.current == Some(s@),
                None => self@.current is None,
            },
    {
        match &self.current {
            Some(s) => Some(s),
            None => None,
        }
    }

    /// Replaces the results by those of a run.
    pub fn store(&mut self, run: ProbeRun)
        requires
            old(self).wf(),
            run.sound(),
        ensures
            final(self).wf(),
            final(self)@.current == old(self)@.current,
            final(self)@.results == run.results(),
    {
        self.results = run.results;
    }

    /// The version and each signal's value for a report. A signal past those
    /// honoured reports "unsupported"; another one without a result, "unknown".
    pub fn snapshot_results(&self) -> (r: Option<(i64, Vec<(String, String)>)>)
        requires
            self.wf(),
        ensures
            match r {
                Some((v, ext)) => self@.current matches Some(s) && v == s.version
                    && text::pair_views(ext@) == report_of(s.ids(), self@.results),
                None => self@.current is None,
            },
    {
        let s = match &self.current {
            Some(s) => s,
            None => {
                return None;
            },
        };
        let mut out: Vec<(String, String)> = Vec::new();
        let ghost all = ids(s.signals@);
        let ghost want = report_of(all, self@.results);
        assert(s@.ids() =~= all);
        let mut i: usize = 0;
        while i < s.signals.len()
            invariant
                i <= s.signals@.len(),
                self.results.wf(),
                self@.results == texts(self.results@),
                all == ids(s.signals@),
                want == report_of(all, self@.results),
                text::pair_views(out@) == want.subrange(0, i as int),
            decreases s.signals@.len() - i,
        {
            let id = &s.signals[i].id;
            let value = if !is_honoured(&s.signals, id) {
                "unsupported".to_owned()
            } else {
                match self.results.get(id) {
                    Some(v) => v.clone(),
                    None => "unknown".to_owned(),
                }
            };
            let ghost before = out@;
            let ghost vv = value@;
            assert(all[i as int] == id@);
            assert(vv == value_of(all, self@.results, id@));
            out.push((id.clone(), value));
            assert(text::pair_views(out@) =~= text::pair_views(before).push((id@, vv)));
            i += 1;
            assert(text::pair_views(out@) =~= want.subrange(0, i as int));
        }
        assert(want.subrange(0, i as int) =~= want);
        Some((s.spec_version, out))
    }

    /// Stores a run and reports it at once; nothing where there is no
    /// specification.
    pub fn run_probes_now(&mut self, run: ProbeRun) -> (r: Option<(i64, Vec<(String, String)>)>)
        requires
            old(self).wf(),
            run.sound(),
        ensures
            final(self).wf(),
            final(self)@.current == old(self)@.current,
            match r {
                Some((v, ext)) => final(self)@.results == run.results() && (old(self)@.current
                    matches Some(s) && v == s.version && text::pair_views(ext@) == report_of(
                    s.ids(),
                    run.results(),
                )),
                None => old(self)@.current is None && *final(self) == *old(self),
            },
    {
        if self.current.is_none() {
            return None;
        }
        self.store(run);
        self.snapshot_results()
    }
}

/// Whether signal `j` is the last of the first `n` with the id of signal `i`.
pub open spec fn last_with_id(ids: Seq<Seq<char>>, n: int, i: int, j: int) -> bool {
    &&& 0 <= j < n
    &&& ids[j] == ids[i]
    &&& forall|k: int| j < k < n ==> #[trigger] ids[k] != ids[i]
}

/// Law: a signal whose id is honoured reports what was found by the last probe
/// under its id, and "unknown" where its id was not probed. Every other signal
/// reports "unsupported".
pub proof fn law_report_is_last_probe(ids: Seq<Seq<char>>, values: Seq<Seq<char>>, i: int)
    requires
        values.len() <= ids.len(),
        0 <= i < ids.len(),
    ensures
        report_of(ids, run_values(ids, values))[i].0 == ids[i],
        honoured(ids, ids[i]) ==> forall|j: int| #[trigger]
            last_with_id(ids, values.len() as int, i, j) ==> report_of(
                ids,
                run_values(ids, values),
            )[i].1 == values[j],
        honoured(ids, ids[i]) && (forall|k: int|
            0 <= k < values.len() ==> #[trigger] ids[k] != ids[i]) ==> report_of(
            ids,
            run_values(ids, values),
        )[i].1 == "unknown"@,
        i < MAX_SIGNALS ==> honoured(ids, ids[i]),
        !honoured(ids, ids[i]) ==> report_of(ids, run_values(ids, values))[i].1 == "unsupported"@,
    decreases values.len(),
{
    if values.len() > 0 {
        let init = values.drop_last();
        let n = values.len() as int;
        law_report_is_last_probe(ids, init, i);
        if honoured(ids, ids[i]) {
            assert forall|j: int| #[trigger] last_with_id(ids, n, i, j) implies report_of(
                ids,
                run_values(ids, values),
            )[i].1 == values[j] by {
                if j < n - 1 {
                    assert(ids[n - 1] != ids[i]);
                    assert(last_with_id(ids, n - 1, i, j));
                    assert(init[j] == values[j]);
                }
            }
        }
        if forall|k: int| 0 <= k < n ==> #[trigger] ids[k] != ids[i] {
            assert(ids[n - 1] != ids[i]);
        }
    }
}

// ---------------------------------------------------------------------
// Laws
// ---------------------------------------------------------------------

/// Law: a path without a percent sign stays as it is; a name between two of
/// them is replaced by the variable's value, and what follows is treated on its
/// own. An unset name, an empty one and one that is not closed leave nothing.
pub proof fn law_expansion(
    a: Seq<char>,
    name: Seq<char>,
    b: Seq<char>,
    env: Seq<(Seq<char>, Seq<char>)>,
)
    requires
        !a.contains('%'),
        !name.contains('%'),
        name.len() > 0,
    ensures
        expanded(a, env) == Some(a),
        ({
            let s = a + seq!['%'] + (name + seq!['%'] + b);
            &&& text::lookup(env, name) is None ==> expanded(s, env) is None
            &&& text::lookup(env, name) matches Some(v) ==> {
                &&& expanded(b, env) matches Some(t) ==> expanded(s, env) == Some(a + v + t)
                &&& expanded(b, env) is None ==> expanded(s, env) is None
            }
            &&& named(s) == seq![name] + named(b)
        }),
        expanded(a + seq!['%'] + name, env) is None,
        expanded(a + seq!['%'] + (seq!['%'] + b), env) is None,
        named(a).len() == 0,
{
    lemma_cut(a, name + seq!['%'] + b);
    lemma_cut(name, b);
    lemma_cut(a, name);
    lemma_cut(a, seq!['%'] + b);
    assert(text::until(seq!['%'] + b, '%') == 0);
}

proof fn lemma_cut(a: Seq<char>, b: Seq<char>)
    requires
        !a.contains('%'),
    ensures
        ({
            let s = a + seq!['%'] + b;
            &&& text::until(s, '%') == a.len()
            &&& s.subrange(0, a.len() as int) == a
            &&& text::rest(s, a.len() as int + 1) == b
            &&& s.len() > a.len()
        }),
        text::until(a, '%') == a.len(),
{
    let s = a + seq!['%'] + b;
    assert forall|i: int| 0 <= i < a.len() implies #[trigger] a[i] != '%' by {
        assert(a.contains(a[i]));
    }
    assert forall|i: int| 0 <= i < a.len() implies #[trigger] s[i] != '%' by {
        assert(s[i] == a[i]);
    }
    text::lemma_until_unique(s, '%', a.len() as int);
    text::lemma_until_unique(a, '%', a.len() as int);
    assert(s.subrange(0, a.len() as int) =~= a);
    assert(text::rest(s, a.len() as int + 1) =~= b);
}

/// Law: a registry path's hive is what stands before its first separator of
/// either kind, in any case, under its short name or its long one; the key is
/// the rest, with backslashes. A path of another hive, or without a separator,
/// is none.
pub proof fn law_hive_split(hive: Seq<char>, sep: char, key: Seq<char>)
    requires
        !hive.contains('\\'),
        !hive.contains('/'),
        sep == '\\' || sep == '/',
    ensures
        ({
            let low = text::ascii_lower(hive);
            let r = hive_split(hive + seq![sep] + key);
            let k = text::replaced(key, '/', "\\"@);
            &&& low == "hklm"@ || low == "hkey_local_machine"@ ==> r == Some(
                (Hive::LocalMachine, k),
            )
            &&& low == "hkcu"@ || low == "hkey_current_user"@ ==> r == Some((Hive::CurrentUser, k))
            &&& low != "hklm"@ && low != "hkey_local_machine"@ && low != "hkcu"@ && low
                != "hkey_current_user"@ ==> r is None
        }),
        hive_split(hive) is None,
        !text::replaced(key, '/', "\\"@).contains('/'),
{
    reveal_strlit("hklm");
    reveal_strlit("hkey_local_machine");
    reveal_strlit("hkcu");
    reveal_strlit("hkey_current_user");
    reveal_strlit("\\");
    assert("hklm"@[2] == 'l' && "hkcu"@[2] == 'c');
    assert("hkey_local_machine"@.len() == 18);
    assert("hkey_current_user"@.len() == 17);
    let s = hive + seq![sep] + key;
    let n = hive.len() as int;
    assert forall|i: int| 0 <= i < n implies #[trigger] hive[i] != '\\' && hive[i] != '/' by {
        assert(hive.contains(hive[i]));
    }
    text::lemma_until(s, '\\');
    text::lemma_until(s, '/');
    text::lemma_until_unique(hive, '\\', n);
    text::lemma_until_unique(hive, '/', n);
    assert forall|i: int| 0 <= i < n implies #[trigger] s[i] != '\\' && s[i] != '/' by {
        assert(s[i] == hive[i]);
    }
    text::lemma_until_unique(s, sep, n);
    assert(hive_len(s) == n) by {
        if text::until(s, '\\') < n {
            assert(s[text::until(s, '\\') as int] == '\\');
        }
        if text::until(s, '/') < n {
            assert(s[text::until(s, '/') as int] == '/');
        }
    }
    assert(s.subrange(0, n) =~= hive);
    assert(text::rest(s, n + 1) =~= key);
    text::law_replaced_brings_nothing(key, '/', "\\"@, '/');
}

/// Law: how a signal is answered. A file by its expanded path everywhere;
/// services, processes and registry values on Windows alone, by what they
/// name; nothing is known where a setting is missing, and a family that is none
/// of these is not supported.
pub proof fn law_probe_of_family(
    family: Seq<char>,
    params: Seq<(Seq<char>, Seq<char>)>,
    env: Seq<(Seq<char>, Seq<char>)>,
    windows: bool,
)
    ensures
        ({
            let p = probe_of(family, params, env, windows);
            let path = text::lookup(params, "path"@);
            let file = family == "file_exists"@;
            &&& p is File ==> file && path is Some && expanded(path->Some_0, env) == Some(
                p->File_0,
            )
            &&& file && path is Some && expanded(path->Some_0, env) is Some ==> p is File
            &&& file ==> p is File || p is Unknown
            &&& !file && !windows ==> p is Unsupported
            &&& windows && family == "service_state"@ ==> (p is Service <==> text::lookup(
                params,
                "name"@,
            ) is Some)
            &&& windows && family == "process_running"@ ==> (p is Process <==> text::lookup(
                params,
                "image"@,
            ) is Some)
            &&& p is Service ==> family == "service_state"@ && windows
            &&& p is Process ==> family == "process_running"@ && windows
            &&& p is Registry ==> family == "registry_value"@ && windows
            &&& p matches ProbeView::Registry(h, k, v) ==> path is Some && hive_split(path->Some_0)
                == Some((h, k)) && text::lookup(params, "value"@) == Some(v)
            &&& windows && family == "registry_value"@ && path is Some && hive_split(path->Some_0)
                is Some && text::lookup(params, "value"@) is Some ==> p is Registry
            &&& windows && !file && family != "service_state"@ && family != "process_running"@
                && family != "registry_value"@ ==> p is Unsupported
        }),
{
    lemma_families();
}

proof fn lemma_families()
    ensures
        "file_exists"@ != "service_state"@,
        "file_exists"@ != "process_running"@,
        "file_exists"@ != "registry_value"@,
        "service_state"@ != "process_running"@,
        "service_state"@ != "registry_value"@,
        "process_running"@ != "registry_value"@,
{
    reveal_strlit("file_exists");
    reveal_strlit("service_state");
    reveal_strlit("process_running");
    reveal_strlit("registry_value");
    assert("file_exists"@.len() == 11);
    assert("service_state"@.len() == 13);
    assert("process_running"@.len() == 15);
    assert("registry_value"@.len() == 14);
}

/// Law: a name that is asked for cannot leave the quotes it stands in: every
/// quote of its own is doubled, and a name without one stands there as it is.
pub proof fn law_query_quotes_its_name(
    params: Seq<(Seq<char>, Seq<char>)>,
    env: Seq<(Seq<char>, Seq<char>)>,
    name: Seq<char>,
)
    requires
        !name.contains('\''),
    ensures
        text::lookup(params, "name"@) == Some(name) ==> probe_of(
            "service_state"@,
            params,
            env,
            true,
        ) == ProbeView::Service(
            "SELECT State FROM Win32_Service WHERE Name='"@ + name + "'"@,
        ),
        text::lookup(params, "image"@) == Some(name) ==> probe_of(
            "process_running"@,
            params,
            env,
            true,
        ) == ProbeView::Process(
            "SELECT Name FROM Win32_Process WHERE Name='"@ + name + "'"@,
        ),
        text::replaced(seq!['\''], '\'', "''"@) == "''"@,
{
    lemma_families();
    lemma_no_quote(name);
    text::law_replaced(name, name, '\'', 'x', "''"@);
}

proof fn lemma_no_quote(s: Seq<char>)
    requires
        !s.contains('\''),
    ensures
        text::replaced(s, '\'', "''"@) == s,
    decreases s.len(),
{
    if s.len() > 0 {
        let t = s.drop_last();
        if t.contains('\'') {
            let i = choose|i: int| 0 <= i < t.len() && t[i] == '\'';
            assert(s[i] == '\'');
        }
        lemma_no_quote(t);
        assert(s.contains(s[s.len() - 1]));
        assert(text::replaced(s, '\'', "''"@) =~= s);
    } else {
        assert(text::replaced(s, '\'', "''"@) =~= s);
    }
}

/// Law: what a read of a registry value reports: a missing value is false, any
/// other failure nothing, a number its digits from its two units with the low
/// one first, and a value of another type is there.
pub proof fn law_registry_reading(code: u32, ty: u32, units: Seq<u16>, size: u32, n: u32)
    ensures
        code == 2 ==> registry_reading(code, ty, units, size) == Some("false"@),
        code != 0 && code != 2 ==> registry_reading(code, ty, units, size) is None,
        code == 0 && ty == 4 && units.len() >= 2 && units[0] == n % 65536 && units[1] == n / 65536
            ==> registry_reading(code, ty, units, size) == Some(text::decimal(n as nat)),
        code == 0 && ty != 1 && ty != 2 && ty != 4 ==> registry_reading(code, ty, units, size)
            == Some("true"@),
        code == 0 && (ty == 1 || ty == 2) ==> (registry_reading(code, ty, units, size) matches Some(
            t,
        ) && (t.len() == 0 || t.last() != '\0')),
{
    let k = if size / 2 <= units.len() {
        (size / 2) as int
    } else {
        units.len() as int
    };
    text::law_drop_char(utf16_lossy(units.subrange(0, k)), '\0');
}

/// Law: what is reported. A truth value reads `true` or `false`; a service is
/// true exactly if it runs, in any case; a reading of another kind than the
/// probe's is not known.
pub proof fn law_reported(p: ProbeView, x: Reading, b: bool)
    ensures
        truth(true) == "true"@,
        truth(false) == "false"@,
        p is Unsupported ==> reported(p, x) == "unsupported"@,
        p is File && x == Reading::Exists(b) ==> reported(p, x) == truth(b),
        p is Process && x == Reading::Processes(b) ==> reported(p, x) == truth(b),
        p is Service ==> (x matches Reading::ServiceState(s) ==> (reported(p, x) == "true"@ <==> s
            is Some && text::ascii_lower(s->Some_0@) == "running"@)),
        p is Registry ==> (x matches Reading::Registry(Some(v)) ==> reported(p, x) == v@),
        p is Unknown ==> reported(p, x) == "unknown"@,
        p is Registry ==> (x matches Reading::Registry(None) ==> reported(p, x) == "unknown"@),
{
    reveal_strlit("true");
    reveal_strlit("false");
    assert("true"@.len() == 4);
    assert("false"@.len() == 5);
}

/// Law: how a value is counted: a plain no, an error, no support, and anything
/// else as found.
pub proof fn law_value_classes(v: Seq<char>)
    ensures
        class_of("false"@) == "nomatch"@,
        class_of("unknown"@) == "error"@,
        class_of("unsupported"@) == "unsupported"@,
        v != "false"@ && v != "unknown"@ && v != "unsupported"@ ==> class_of(v) == "match"@,
{
    reveal_strlit("false");
    reveal_strlit("unknown");
    reveal_strlit("unsupported");
    assert("false"@.len() == 5);
    assert("unknown"@.len() == 7);
    assert("unsupported"@.len() == 11);
}

/// Law: every signal is reported under its id, in order; those behind the
/// first 32 alone as not supported, and one that was not probed as not known.
pub proof fn law_every_signal_is_reported(
    ids: Seq<Seq<char>>,
    results: Map<Seq<char>, Seq<char>>,
    i: int,
)
    requires
        0 <= i < ids.len(),
    ensures
        report_of(ids, results).len() == ids.len(),
        report_of(ids, results)[i].0 == ids[i],
        i < 32 ==> report_of(ids, results)[i].1 == if results.contains_key(ids[i]) {
            results[ids[i]]
        } else {
            "unknown"@
        },
        (forall|k: int| 0 <= k < ids.len() && k < 32 ==> #[trigger] ids[k] != ids[i]) ==> report_of(
            ids,
            results,
        )[i].1 == "unsupported"@,
{
    if i < 32 {
        assert(ids[i] == ids[i]);
        assert(honoured(ids, ids[i]));
    }
}

} // verus!
