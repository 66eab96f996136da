//! Hyprland's events and what they say of visibility.
//!
//! Hyprland tells its event stream which windows moved, which workspaces are
//! active, and whether the session is locked or asleep. The events arrive as
//! newline-delimited `EVENT>>DATA` pairs; only those that affect visibility are
//! read.
use vstd::prelude::*;
use crate::json::{Json, JsonTree};
use crate::paths::join_path;
use crate::strmap::StrMap;
use crate::text::{
    chars_of, find, find_char, head, is_text, rest, same_text, string_of, trim,
};

verus! {

/// Events we care about, extracted from Hyprland's stream.
#[derive(Debug, Clone, PartialEq, Eq)]
pub enum HyprEvent {
    /// A window went fullscreen or left fullscreen.
    Fullscreen(bool),
    /// The active workspace changed on some monitor.
    Workspace(String),
    /// A window was opened.
    OpenWindow { address: String, workspace: String, class: String, title: String },
    /// A window was closed.
    CloseWindow { address: String },
    /// A window was moved to a workspace.
    MoveWindow { address: String, workspace: String },
    /// A monitor was added (hotplug).
    MonitorAdded(String),
    /// A monitor was removed (hotplug).
    MonitorRemoved(String),
    /// Active monitor changed.
    FocusedMon { name: String, workspace: String },
    /// Screen lock activated or deactivated (hyprlock / ext-session-lock).
    Lock(bool),
    /// DPMS display power state (true = on, false = asleep/off).
    Dpms(bool),
}

/// What an event stands for.
pub ghost enum EventModel {
    Fullscreen(bool),
    Workspace(Seq<char>),
    OpenWindow { address: Seq<char>, workspace: Seq<char>, class: Seq<char>, title: Seq<char> },
    CloseWindow { address: Seq<char> },
    MoveWindow { address: Seq<char>, workspace: Seq<char> },
    MonitorAdded(Seq<char>),
    MonitorRemoved(Seq<char>),
    FocusedMon { name: Seq<char>, workspace: Seq<char> },
    Lock(bool),
    Dpms(bool),
}

impl View for HyprEvent {
    type V = EventModel;

    open spec fn view(&self) -> EventModel {
        match self {
            HyprEvent::Fullscreen(on) => EventModel::Fullscreen(*on),
            HyprEvent::Workspace(w) => EventModel::Workspace(w@),
            HyprEvent::OpenWindow { address, workspace, class, title } => EventModel::OpenWindow {
                address: address@,
                workspace: workspace@,
                class: class@,
                title: title@,
            },
            HyprEvent::CloseWindow { address } => EventModel::CloseWindow { address: address@ },
            HyprEvent::MoveWindow { address, workspace } => EventModel::MoveWindow {
                address: address@,
                workspace: workspace@,
            },
            HyprEvent::MonitorAdded(n) => EventModel::MonitorAdded(n@),
            HyprEvent::MonitorRemoved(n) => EventModel::MonitorRemoved(n@),
            HyprEvent::FocusedMon { name, workspace } => EventModel::FocusedMon {
                name: name@,
                workspace: workspace@,
            },
            HyprEvent::Lock(on) => EventModel::Lock(*on),
            HyprEvent::Dpms(on) => EventModel::Dpms(*on),
        }
    }
}

/// The two parts of a text that its first comma parts.
pub open spec fn comma_split(s: Seq<char>) -> Option<(Seq<char>, Seq<char>)> {
    match crate::text::index_from(s, ',', 0) {
        None => None,
        Some(k) => Some((s.take(k), s.skip(k + 1))),
    }
}

/// An opened window: address, workspace, class and perhaps a title, which may
/// hold commas.
pub open spec fn opened_window(data: Seq<char>) -> Option<EventModel> {
    match comma_split(data) {
        None => None,
        Some((address, r1)) => match comma_split(r1) {
            None => None,
            Some((workspace, r2)) => match comma_split(r2) {
                None => Some(
                    EventModel::OpenWindow { address, workspace, class: r2, title: Seq::empty() },
                ),
                Some((class, title)) => Some(
                    EventModel::OpenWindow {
                        address,
                        workspace,
                        class,
                        title: crate::text::trimmed(title),
                    },
                ),
            },
        },
    }
}

/// The event of a name with its data.
pub open spec fn event_named(name: Seq<char>, data: Seq<char>) -> Option<EventModel> {
    let d = crate::text::trimmed(data);
    if name == "fullscreen"@ {
        Some(EventModel::Fullscreen(d != "0"@))
    } else if name == "workspace"@ {
        Some(EventModel::Workspace(d))
    } else if name == "openwindow"@ {
        opened_window(data)
    } else if name == "closewindow"@ {
        Some(EventModel::CloseWindow { address: d })
    } else if name == "movewindow"@ {
        match comma_split(d) {
            Some((address, workspace)) => Some(EventModel::MoveWindow { address, workspace }),
            None => None,
        }
    } else if name == "monitoradded"@ {
        Some(EventModel::MonitorAdded(d))
    } else if name == "monitorremoved"@ {
        Some(EventModel::MonitorRemoved(d))
    } else if name == "focusedmon"@ {
        match comma_split(d) {
            Some((name, workspace)) => Some(EventModel::FocusedMon { name, workspace }),
            None => None,
        }
    } else if name == "lockscreen"@ {
        Some(EventModel::Lock(d == "1"@))
    } else if name == "dpms"@ {
        Some(EventModel::Dpms(d == "1"@))
    } else {
        None
    }
}

/// A line without its terminator.
pub open spec fn unterminated(line: Seq<char>) -> Seq<char> {
    if line.len() > 0 && line.last() == '\n' {
        crate::text::without_return(line.drop_last())
    } else {
        line
    }
}

fn without_terminator<'a>(line: &'a [char]) -> (r: &'a [char])
    ensures
        r@ == unterminated(line@),
{
    let n = line.len();
    if n == 0 || line[n - 1] != '\n' {
        return line;
    }
    let body = head(line, n - 1);
    proof {
        assert(body@ =~= line@.drop_last());
    }
    if n > 1 && body[n - 2] == '\r' {
        let bare = head(line, n - 2);
        proof {
            assert(bare@ =~= body@.drop_last());
        }
        bare
    } else {
        body
    }
}

/// The event that a line of the stream is. The terminator is no part of the data.
pub open spec fn event_of(line: Seq<char>) -> Option<EventModel> {
    let bare = unterminated(line);
    match crate::text::find_from(bare, ">>"@, 0) {
        None => None,
        Some(k) => event_named(bare.take(k), bare.skip(k + 2)),
    }
}

/// A line is the same event with a terminator and without one.
pub proof fn law_terminators_are_no_data(line: Seq<char>)
    requires
        line.len() > 0 ==> line.last() != '\n' && line.last() != '\r',
    ensures
        event_of(line.push('\n')) == event_of(line),
        event_of(line.push('\r').push('\n')) == event_of(line),
{
    assert(line.push('\n').drop_last() =~= line);
    assert(line.push('\r').push('\n').drop_last() =~= line.push('\r'));
    assert(line.push('\r').drop_last() =~= line);
}

fn split_comma<'a>(s: &'a [char]) -> (r: Option<(&'a [char], &'a [char])>)
    ensures
        match r {
            Some((a, b)) => comma_split(s@) == Some((a@, b@)),
            None => comma_split(s@) is None,
        },
{
    match find_char(s, ',', 0) {
        None => None,
        Some(k) => Some((head(s, k), rest(s, k + 1))),
    }
}

fn parse_opened(data: &[char]) -> (r: Option<HyprEvent>)
    ensures
        match r {
            Some(e) => opened_window(data@) == Some(e@),
            None => opened_window(data@) is None,
        },
{
    // address,workspace,class,title
    let (address, after_address) = match split_comma(data) {
        Some(p) => p,
        None => return None,
    };
    let (workspace, after_workspace) = match split_comma(after_address) {
        Some(p) => p,
        None => return None,
    };
    let (class, title) = match split_comma(after_workspace) {
        Some((class, title)) => (string_of(class), string_of(trim(title))),
        None => (string_of(after_workspace), String::new()),
    };
    Some(
        HyprEvent::OpenWindow {
            address: string_of(address),
            workspace: string_of(workspace),
            class,
            title,
        },
    )
}

/// Parse one line from the event stream.
///
/// Lines are `EVENT>>DATA\n`. Unknown events are silently dropped.
pub fn parse_event(line: &str) -> (r: Option<HyprEvent>)
    ensures
        match r {
            Some(e) => event_of(line@) == Some(e@),
            None => event_of(line@) is None,
        },
{
    let all = chars_of(line);
    let arrows = chars_of(">>");
    proof {
        reveal_strlit(">>");
        assert(arrows@.len() == 2);
    }
    let bare = without_terminator(all.as_slice());
    let at = match find(bare, arrows.as_slice(), 0) {
        Some(k) => k,
        None => return None,
    };
    let name = head(bare, at);
    let raw = rest(bare, at + 2);
    let data = trim(raw);
    if is_text(name, "fullscreen") {
        Some(HyprEvent::Fullscreen(!is_text(data, "0")))
    } else if is_text(name, "workspace") {
        Some(HyprEvent::Workspace(string_of(data)))
    } else if is_text(name, "openwindow") {
        parse_opened(raw)
    } else if is_text(name, "closewindow") {
        Some(HyprEvent::CloseWindow { address: string_of(data) })
    } else if is_text(name, "movewindow") {
        match split_comma(data) {
            Some((address, workspace)) => Some(
                HyprEvent::MoveWindow {
                    address: string_of(address),
                    workspace: string_of(workspace),
                },
            ),
            None => None,
        }
    } else if is_text(name, "monitoradded") {
        Some(HyprEvent::MonitorAdded(string_of(data)))
    } else if is_text(name, "monitorremoved") {
        Some(HyprEvent::MonitorRemoved(string_of(data)))
    } else if is_text(name, "focusedmon") {
        match split_comma(data) {
            Some((monitor, workspace)) => Some(
                HyprEvent::FocusedMon { name: string_of(monitor), workspace: string_of(workspace) },
            ),
            None => None,
        }
    } else if is_text(name, "lockscreen") {
        Some(HyprEvent::Lock(is_text(data, "1")))
    } else if is_text(name, "dpms") {
        Some(HyprEvent::Dpms(is_text(data, "1")))
    } else {
        None
    }
}

/// A socket of Hyprland: both the runtime directory and the signature of the instance
/// must be known.
pub open spec fn socket_in(
    runtime: Option<Seq<char>>,
    instance: Option<Seq<char>>,
    name: Seq<char>,
) -> Option<Seq<char>> {
    match (runtime, instance) {
        (Some(dir), Some(id)) => Some(
            crate::paths::joined_path(
                crate::paths::joined_path(crate::paths::joined_path(dir, "hypr"@), id),
                name,
            ),
        ),
        _ => None,
    }
}

fn socket_named(runtime: &Option<String>, instance: &Option<String>, name: &str) -> (r: Option<
    String,
>)
    ensures
        crate::text::opt_text(r) == socket_in(
            crate::text::opt_text(*runtime),
            crate::text::opt_text(*instance),
            name@,
        ),
{
    match (runtime, instance) {
        (Some(dir), Some(id)) => {
            let hypr = join_path(dir.as_str(), "hypr");
            let own = join_path(hypr.as_str(), id.as_str());
            Some(join_path(own.as_str(), name))
        },
        _ => None,
    }
}

/// Locate the Hyprland request socket (`.socket.sock`), given the values of
/// `XDG_RUNTIME_DIR` and `HYPRLAND_INSTANCE_SIGNATURE`.
pub fn socket_path(runtime: &Option<String>, instance: &Option<String>) -> (r: Option<String>)
    ensures
        crate::text::opt_text(r) == socket_in(
            crate::text::opt_text(*runtime),
            crate::text::opt_text(*instance),
            ".socket.sock"@,
        ),
{
    socket_named(runtime, instance, ".socket.sock")
}

/// Locate the Hyprland event socket (`.socket2.sock`).
///
/// The path is `$XDG_RUNTIME_DIR/hypr/$HYPRLAND_INSTANCE_SIGNATURE/.socket2.sock`.
/// Both environment variables must be set; a missing one means Hyprland is not
/// the compositor, and this module quietly returns `None`.
pub fn socket2_path(runtime: &Option<String>, instance: &Option<String>) -> (r: Option<String>)
    ensures
        crate::text::opt_text(r) == socket_in(
            crate::text::opt_text(*runtime),
            crate::text::opt_text(*instance),
            ".socket2.sock"@,
        ),
{
    socket_named(runtime, instance, ".socket2.sock")
}

/// What a read of a line from the event stream came to.
#[derive(Debug, Clone, PartialEq, Eq)]
pub enum LineRead {
    Line(String),
    /// Nothing more is there yet.
    Pending,
    /// The stream is at its end.
    Closed,
    Failed,
}

/// The events in the lines that were read before anything else.
pub open spec fn events_read(reads: Seq<LineRead>, n: int) -> Seq<EventModel>
    decreases reads.len() - n,
{
    if n < 0 || n >= reads.len() {
        Seq::empty()
    } else {
        match reads[n] {
            LineRead::Line(line) => {
                let rest = events_read(reads, n + 1);
                match event_of(crate::text::trimmed(line@)) {
                    Some(e) => seq![e] + rest,
                    None => rest,
                }
            },
            _ => Seq::empty(),
        }
    }
}

/// Whether the stream is over: what was read first after the lines is its end, or a
/// failure.
pub open spec fn stream_over(reads: Seq<LineRead>, n: int) -> bool
    decreases reads.len() - n,
{
    if n < 0 || n >= reads.len() {
        false
    } else {
        match reads[n] {
            LineRead::Line(_) => stream_over(reads, n + 1),
            LineRead::Pending => false,
            LineRead::Closed | LineRead::Failed => true,
        }
    }
}

/// What the events of a list stand for.
pub open spec fn event_views(v: Seq<HyprEvent>) -> Seq<EventModel> {
    Seq::new(v.len(), |i: int| v[i]@)
}

/// A non-blocking event reader. Call `poll()` with the available reads.
#[derive(Debug)]
pub struct EventReader {
    eof: bool,
}

impl EventReader {
    /// Whether the stream is over.
    pub closed spec fn over(self) -> bool {
        self.eof
    }

    pub fn new() -> (r: Self)
        ensures
            !r.over(),
    {
        EventReader { eof: false }
    }

    /// Whether the stream hit EOF.
    pub fn is_eof(&self) -> (r: bool)
        ensures
            r == self.over(),
    {
        self.eof
    }

    /// The events in all that could be read; none once the stream is over.
    pub fn poll(&mut self, reads: &Vec<LineRead>) -> (r: Vec<HyprEvent>)
        ensures
            event_views(r@) == (if old(self).over() {
                Seq::empty()
            } else {
                events_read(reads@, 0)
            }),
            final(self).over() == (old(self).over() || stream_over(reads@, 0)),
    {
        let mut events: Vec<HyprEvent> = Vec::new();
        proof {
            assert(event_views(events@) =~= Seq::<EventModel>::empty());
        }
        if self.eof {
            return events;
        }
        let mut i: usize = 0;
        proof {
            assert(event_views(events@) + events_read(reads@, 0) =~= events_read(reads@, 0));
        }
        while i < reads.len()
            invariant
                i <= reads@.len(),
                !self.eof,
                !old(self).over(),
                event_views(events@) + events_read(reads@, i as int) == events_read(reads@, 0),
                stream_over(reads@, i as int) == stream_over(reads@, 0),
            decreases reads@.len() - i,
        {
            let ghost was = event_views(events@);
            match &reads[i] {
                LineRead::Line(line) => {
                    let all = chars_of(line.as_str());
                    let text = string_of(trim(all.as_slice()));
                    let ghost later = events_read(reads@, i + 1);
                    if let Some(event) = parse_event(text.as_str()) {
                        let ghost m = event@;
                        events.push(event);
                        proof {
                            assert(event_views(events@) =~= was.push(m));
                            assert(was.push(m) + later =~= was + (seq![m] + later));
                        }
                    }
                },
                LineRead::Pending => {
                    proof {
                        assert(was + events_read(reads@, i as int) =~= was);
                    }
                    return events;
                },
                LineRead::Closed => {
                    self.eof = true;
                    proof {
                        assert(was + events_read(reads@, i as int) =~= was);
                    }
                    return events;
                },
                LineRead::Failed => {
                    self.eof = true;
                    proof {
                        assert(was + events_read(reads@, i as int) =~= was);
                    }
                    return events;
                },
            }
            i += 1;
        }
        proof {
            assert(event_views(events@) + events_read(reads@, i as int) =~= event_views(events@));
        }
        events
    }
}

/// State of a single monitor tracked by Hyprland events.
#[derive(Debug)]
pub struct MonitorInfo {
    pub name: String,
    pub active_workspace: String,
    /// Set of workspaces on this monitor that currently have a fullscreen window.
    pub fullscreen_workspaces: StrMap<()>,
}

/// What the state of a monitor stands for.
#[verifier::ext_equal]
pub ghost struct MonitorModel {
    pub name: Seq<char>,
    pub workspace: Seq<char>,
    pub fullscreen: Set<Seq<char>>,
}

impl View for MonitorInfo {
    type V = MonitorModel;

    open spec fn view(&self) -> MonitorModel {
        MonitorModel {
            name: self.name@,
            workspace: self.active_workspace@,
            fullscreen: self.fullscreen_workspaces@.dom(),
        }
    }
}

/// What is known of the outputs.
#[verifier::ext_equal]
pub ghost struct TrackerModel {
    pub monitors: Map<Seq<char>, MonitorModel>,
    pub focused: Option<Seq<char>>,
    pub active_fullscreen: bool,
    pub locked: bool,
    pub dpms_on: bool,
}

/// A monitor that shows a workspace without a fullscreen window.
pub open spec fn fresh_monitor(name: Seq<char>, workspace: Seq<char>) -> MonitorModel {
    MonitorModel { name, workspace, fullscreen: Set::empty() }
}

/// A monitor that shows another workspace.
pub open spec fn showing(m: MonitorModel, workspace: Seq<char>) -> MonitorModel {
    MonitorModel { name: m.name, workspace, fullscreen: m.fullscreen }
}

/// A monitor on which a workspace has a fullscreen window, shown or not.
pub open spec fn marked(m: MonitorModel, workspace: Seq<char>) -> MonitorModel {
    MonitorModel {
        name: m.name,
        workspace: m.workspace,
        fullscreen: m.fullscreen.insert(workspace),
    }
}

/// A monitor whose workspace has a fullscreen window, or has none.
pub open spec fn covered(m: MonitorModel, on: bool) -> MonitorModel {
    MonitorModel {
        name: m.name,
        workspace: m.workspace,
        fullscreen: if on {
            m.fullscreen.insert(m.workspace)
        } else {
            m.fullscreen.remove(m.workspace)
        },
    }
}

/// The first of the monitors by name, where there is one.
pub open spec fn first_monitor(monitors: Map<Seq<char>, MonitorModel>) -> Option<Seq<char>> {
    let names = crate::strmap::listing(monitors.dom());
    if names.len() > 0 {
        Some(names[0])
    } else {
        None
    }
}

impl TrackerModel {
    /// The focused monitor, where it is known.
    pub open spec fn focused_monitor(self) -> Option<Seq<char>> {
        match self.focused {
            Some(name) => if self.monitors.dom().contains(name) {
                Some(name)
            } else {
                None
            },
            None => None,
        }
    }

    /// The outputs with one monitor put in place.
    pub open spec fn with(self, name: Seq<char>, m: MonitorModel) -> TrackerModel {
        TrackerModel { monitors: self.monitors.insert(name, m), ..self }
    }

    /// What an event makes of what is known.
    pub open spec fn after(self, event: EventModel) -> TrackerModel {
        match event {
            EventModel::FocusedMon { name, workspace } => {
                let m = if self.monitors.dom().contains(name) {
                    showing(self.monitors[name], workspace)
                } else {
                    fresh_monitor(name, workspace)
                };
                TrackerModel { focused: Some(name), ..self.with(name, m) }
            },
            EventModel::Workspace(workspace) => match self.focused_monitor() {
                Some(name) => self.with(name, showing(self.monitors[name], workspace)),
                None => self,
            },
            EventModel::Fullscreen(on) => {
                let t = TrackerModel { active_fullscreen: on, ..self };
                match self.focused_monitor() {
                    Some(name) => t.with(name, covered(self.monitors[name], on)),
                    None => t,
                }
            },
            EventModel::Lock(locked) => TrackerModel { locked, ..self },
            EventModel::Dpms(dpms_on) => TrackerModel { dpms_on, ..self },
            EventModel::MonitorAdded(name) => if self.monitors.dom().contains(name) {
                self
            } else {
                self.with(name, fresh_monitor(name, "1"@))
            },
            EventModel::MonitorRemoved(name) => {
                let monitors = self.monitors.remove(name);
                TrackerModel {
                    monitors,
                    focused: if self.focused == Some(name) {
                        first_monitor(monitors)
                    } else {
                        self.focused
                    },
                    ..self
                }
            },
            EventModel::OpenWindow { .. } => self,
            EventModel::CloseWindow { .. } => self,
            EventModel::MoveWindow { .. } => self,
        }
    }

    /// Whether a monitor shows a workspace that a fullscreen window covers.
    pub open spec fn is_covered(self, name: Seq<char>) -> bool {
        self.monitors[name].fullscreen.contains(self.monitors[name].workspace)
    }

    /// Whether nothing of a wallpaper can be seen: the displays are off, the
    /// session is locked, or every monitor is covered.
    pub open spec fn all_occluded(self) -> bool {
        !self.dpms_on || self.locked || if self.monitors.dom() =~= Set::empty() {
            self.active_fullscreen
        } else {
            forall|name: Seq<char>| #[trigger]
                self.monitors.dom().contains(name) ==> self.is_covered(name)
        }
    }

    /// What is known once Hyprland has reported a monitor.
    pub open spec fn with_report(self, name: Seq<char>, workspace: Seq<char>, focused: bool) -> TrackerModel {
        TrackerModel {
            focused: if focused {
                Some(name)
            } else {
                self.focused
            },
            ..self.with(name, fresh_monitor(name, workspace))
        }
    }

    /// Whether a workspace is known to be on the monitor: the monitor shows it, or it is
    /// the only one.
    pub open spec fn holds(self, name: Seq<char>, workspace: Seq<char>) -> bool {
        self.monitors[name].workspace == workspace || (forall|other: Seq<char>| #[trigger]
            self.monitors.dom().contains(other) ==> other == name)
    }

    /// What is known once Hyprland has reported a window on a workspace. A fullscreen
    /// window counts on the monitor that the workspace is on, also while that monitor
    /// shows another one. A window's report does not name its monitor, so with several
    /// of them only a workspace that is shown can be placed.
    pub open spec fn with_window(self, workspace: Seq<char>, fullscreen: bool) -> TrackerModel {
        if fullscreen {
            TrackerModel {
                monitors: Map::new(
                    |name: Seq<char>| self.monitors.dom().contains(name),
                    |name: Seq<char>|
                        if self.holds(name, workspace) {
                            marked(self.monitors[name], workspace)
                        } else {
                            self.monitors[name]
                        },
                ),
                active_fullscreen: true,
                ..self
            }
        } else {
            self
        }
    }
}

/// A monitor as Hyprland reports it.
#[derive(Debug, Clone, PartialEq, Eq)]
pub struct MonitorReport {
    pub name: String,
    pub active_workspace: String,
    pub focused: bool,
}

/// A window as Hyprland reports it: its workspace, and its fullscreen mode in
/// whichever form the version in use writes it.
#[derive(Debug)]
pub struct ClientReport {
    pub workspace: String,
    pub fullscreen: Json,
}

/// Whether a fullscreen mode is on: `true`, or an integer other than zero.
pub open spec fn mode_is_fullscreen(t: JsonTree) -> bool {
    match t {
        JsonTree::Bool(b) => b,
        JsonTree::Number(_) => match crate::json::integer_in(t) {
            Some(n) => n != 0,
            None => false,
        },
        _ => false,
    }
}

/// What is known once Hyprland has reported the first `n` monitors of a list.
pub open spec fn after_reports(t: TrackerModel, reports: Seq<MonitorReport>, n: int) -> TrackerModel
    decreases n,
{
    if n <= 0 {
        t
    } else {
        let r = reports[n - 1];
        after_reports(t, reports, n - 1).with_report(r.name@, r.active_workspace@, r.focused)
    }
}

/// What is known once Hyprland has reported the first `n` windows of a list.
pub open spec fn after_windows(t: TrackerModel, reports: Seq<ClientReport>, n: int) -> TrackerModel
    decreases n,
{
    if n <= 0 {
        t
    } else {
        let c = reports[n - 1];
        after_windows(t, reports, n - 1).with_window(c.workspace@, mode_is_fullscreen(c.fullscreen@))
    }
}

/// What is known once Hyprland has answered, as far as it has.
pub open spec fn after_sync(
    t: TrackerModel,
    monitors: Option<Vec<MonitorReport>>,
    clients: Option<Vec<ClientReport>>,
) -> TrackerModel {
    let a = match monitors {
        Some(m) => after_reports(t, m@, m@.len() as int),
        None => t,
    };
    match clients {
        Some(c) => after_windows(a, c@, c@.len() as int),
        None => a,
    }
}

/// Tracks compositor visibility and occlusion across all outputs based on
/// Hyprland events and socket state.
#[derive(Debug)]
pub struct OcclusionTracker {
    monitors: StrMap<MonitorInfo>,
    focused_monitor: Option<String>,
    active_fullscreen: bool,
    locked: bool,
    dpms_on: bool,
}

/// What the monitors of a map stand for.
pub open spec fn monitor_views(m: Map<Seq<char>, MonitorInfo>) -> Map<Seq<char>, MonitorModel> {
    Map::new(|k: Seq<char>| m.dom().contains(k), |k: Seq<char>| m[k]@)
}

impl View for OcclusionTracker {
    type V = TrackerModel;

    closed spec fn view(&self) -> TrackerModel {
        TrackerModel {
            monitors: monitor_views(self.monitors@),
            focused: crate::text::opt_text(self.focused_monitor),
            active_fullscreen: self.active_fullscreen,
            locked: self.locked,
            dpms_on: self.dpms_on,
        }
    }
}

/// What is known before Hyprland has said anything.
pub open spec fn nothing_known() -> TrackerModel {
    TrackerModel {
        monitors: Map::empty(),
        focused: None,
        active_fullscreen: false,
        locked: false,
        dpms_on: true,
    }
}

fn is_fullscreen_mode(mode: &Json) -> (r: bool)
    ensures
        r == mode_is_fullscreen(mode@),
{
    match mode {
        Json::Bool(b) => *b,
        Json::Number(_) => match mode.as_i64() {
            Some(n) => n != 0,
            None => false,
        },
        _ => false,
    }
}

impl OcclusionTracker {
    pub fn new() -> (r: Self)
        ensures
            r@ == nothing_known(),
    {
        let r = OcclusionTracker {
            monitors: StrMap::new(),
            focused_monitor: None,
            active_fullscreen: false,
            locked: false,
            dpms_on: true,
        };
        proof {
            assert(r@.monitors =~= Map::<Seq<char>, MonitorModel>::empty());
        }
        r
    }

    fn put(&mut self, name: &String, info: MonitorInfo)
        ensures
            final(self)@ == old(self)@.with(name@, info@),
    {
        self.monitors.insert(name.clone(), info);
        proof {
            assert(self@.monitors =~= old(self)@.monitors.insert(name@, info@));
        }
    }

    /// Take in what Hyprland's request socket says of its monitors and windows;
    /// nothing where it did not answer.
    pub fn sync_from_hyprland(
        &mut self,
        monitors: &Option<Vec<MonitorReport>>,
        clients: &Option<Vec<ClientReport>>,
    )
        ensures
            final(self)@ == after_sync(old(self)@, *monitors, *clients),
    {
        if let Some(list) = monitors {
            let mut i: usize = 0;
            while i < list.len()
                invariant
                    i <= list@.len(),
                    self@ == after_reports(old(self)@, list@, i as int),
                decreases list@.len() - i,
            {
                let r = &list[i];
                if r.focused {
                    self.focused_monitor = Some(r.name.clone());
                }
                let info = MonitorInfo {
                    name: r.name.clone(),
                    active_workspace: r.active_workspace.clone(),
                    fullscreen_workspaces: StrMap::new(),
                };
                proof {
                    assert(info@ =~= fresh_monitor(r.name@, r.active_workspace@));
                }
                self.put(&r.name, info);
                i += 1;
            }
        }
        let ghost mid = self@;
        if let Some(list) = clients {
            let mut i: usize = 0;
            while i < list.len()
                invariant
                    i <= list@.len(),
                    self@ == after_windows(mid, list@, i as int),
                decreases list@.len() - i,
            {
                let c = &list[i];
                if is_fullscreen_mode(&c.fullscreen) {
                    self.cover_workspace(&c.workspace);
                    self.active_fullscreen = true;
                }
                i += 1;
            }
        }
    }

    /// Mark the workspace fullscreen on the monitors that it is known to be on.
    fn cover_workspace(&mut self, workspace: &String)
        ensures
            final(self)@ == (TrackerModel {
                active_fullscreen: old(self)@.active_fullscreen,
                ..old(self)@.with_window(workspace@, true)
            }),
    {
        let count = self.monitors.len();
        let ghost keys = self.monitors.keys();
        let mut names: Vec<String> = Vec::new();
        let mut i: usize = 0;
        while i < count
            invariant
                i <= count == keys.len(),
                keys == self.monitors.keys(),
                *self == *old(self),
                names@.len() == i,
                forall|j: int| 0 <= j < i ==> (#[trigger] names@[j])@ == keys[j],
            decreases count - i,
        {
            names.push(self.monitors.key_at(i).clone());
            i += 1;
        }
        let ghost target = old(self)@.with_window(workspace@, true).monitors;
        let ghost start = old(self)@.monitors;
        proof {
            assert(crate::strmap::lists_keys(keys, old(self).monitors@));
        }
        let mut k: usize = 0;
        while k < names.len()
            invariant
                k <= names@.len() == keys.len(),
                forall|j: int| 0 <= j < names@.len() ==> (#[trigger] names@[j])@ == keys[j],
                crate::strmap::lists_keys(keys, old(self).monitors@),
                start == old(self)@.monitors,
                target == old(self)@.with_window(workspace@, true).monitors,
                self@.monitors.dom() == start.dom(),
                forall|j: int| 0 <= j < k ==> self@.monitors[#[trigger] keys[j]] == target[keys[j]],
                forall|j: int|
                    k <= j < keys.len() ==> self@.monitors[#[trigger] keys[j]] == start[keys[j]],
                self@ == (TrackerModel { monitors: self@.monitors, ..old(self)@ }),
            decreases names@.len() - k,
        {
            let name = &names[k];
            let ghost was = self@.monitors;
            proof {
                assert(keys.contains(keys[k as int]));
                assert(old(self).monitors@.dom().contains(name@));
                assert(start.dom().contains(name@));
                assert(self.monitors@.dom().contains(name@));
            }
            if let Some(mut info) = self.monitors.remove(name.as_str()) {
                let ghost info0 = info@;
                proof {
                    if names@.len() > 1 {
                        let j: int = if k == 0 {
                            1
                        } else {
                            0
                        };
                        crate::strmap::lemma_before_irreflexive(keys[j]);
                        assert(keys.contains(keys[j]));
                        assert(old(self).monitors@.dom().contains(keys[j]));
                        assert(start.dom().contains(keys[j]));
                    } else {
                        assert forall|other: Seq<char>| #[trigger]
                            start.dom().contains(other) implies other == name@ by {
                            assert(old(self).monitors@.dom().contains(other));
                        }
                    }
                }
                if names.len() == 1 || same_text(info.active_workspace.as_str(), workspace.as_str()) {
                    info.fullscreen_workspaces.insert(workspace.clone(), ());
                    proof {
                        assert(info@ =~= marked(info0, workspace@));
                    }
                }
                self.monitors.insert(name.clone(), info);
                proof {
                    assert(self@.monitors =~= was.insert(name@, info@));
                    assert(self@.monitors.dom() =~= start.dom());
                    assert(info@ == target[keys[k as int]]);
                    assert forall|j: int| 0 <= j < keys.len() && j != k implies keys[j]
                        != keys[k as int] by {
                        crate::strmap::lemma_before_irreflexive(keys[j]);
                    }
                }
            }
            k += 1;
        }
        proof {
            assert forall|n: Seq<char>| #[trigger] self@.monitors.dom().contains(n) implies self@.monitors[n]
                == target[n] by {
                assert(old(self).monitors@.dom().contains(n));
                let j = choose|j: int| 0 <= j < keys.len() && keys[j] == n;
                assert(self@.monitors[keys[j]] == target[keys[j]]);
            }
            assert(self@.monitors =~= target);
        }
    }

    /// Process a Hyprland event and update occlusion tracking.
    pub fn handle_event(&mut self, event: &HyprEvent)
        ensures
            final(self)@ == old(self)@.after(event@),
    {
        match event {
            HyprEvent::FocusedMon { name, workspace } => {
                self.focused_monitor = Some(name.clone());
                self.show(name, workspace, true);
            },
            HyprEvent::Workspace(workspace) => {
                if let Some(focused) = self.focused_name() {
                    self.show(&focused, workspace, false);
                }
            },
            HyprEvent::Fullscreen(on) => {
                self.active_fullscreen = *on;
                if let Some(focused) = self.focused_name() {
                    self.cover(&focused, *on);
                }
            },
            HyprEvent::Lock(locked) => {
                self.locked = *locked;
            },
            HyprEvent::Dpms(on) => {
                self.dpms_on = *on;
            },
            HyprEvent::MonitorAdded(name) => {
                if !self.monitors.contains_key(name.as_str()) {
                    let info = MonitorInfo {
                        name: name.clone(),
                        active_workspace: "1".to_string(),
                        fullscreen_workspaces: StrMap::new(),
                    };
                    proof {
                        assert(info@ =~= fresh_monitor(name@, "1"@));
                    }
                    self.put(name, info);
                }
            },
            HyprEvent::MonitorRemoved(name) => {
                let _gone = self.monitors.remove(name.as_str());
                proof {
                    assert(monitor_views(self.monitors@) =~= old(self)@.monitors.remove(name@));
                }
                let was_focused = match &self.focused_monitor {
                    Some(focused) => same_text(focused.as_str(), name.as_str()),
                    None => false,
                };
                if was_focused {
                    let count = self.monitors.len();
                    proof {
                        crate::strmap::lemma_keys_listing(self.monitors.keys(), self.monitors@);
                        assert(self.monitors@.dom() =~= self@.monitors.dom());
                    }
                    self.focused_monitor =
                    if count > 0 {
                        Some(self.monitors.key_at(0).clone())
                    } else {
                        None
                    };
                }
            },
            HyprEvent::OpenWindow { .. }
            | HyprEvent::CloseWindow { .. }
            | HyprEvent::MoveWindow { .. } => {},
        }
    }

    fn focused_name(&self) -> (r: Option<String>)
        ensures
            crate::text::opt_text(r) == self@.focused_monitor(),
    {
        match &self.focused_monitor {
            Some(name) => if self.monitors.contains_key(name.as_str()) {
                Some(name.clone())
            } else {
                None
            },
            None => None,
        }
    }

    /// Let a monitor show a workspace; `add` it where it is not known.
    fn show(&mut self, name: &String, workspace: &String, add: bool)
        ensures
            final(self)@ == (if old(self)@.monitors.dom().contains(name@) {
                old(self)@.with(name@, showing(old(self)@.monitors[name@], workspace@))
            } else if add {
                old(self)@.with(name@, fresh_monitor(name@, workspace@))
            } else {
                old(self)@
            }),
    {
        match self.monitors.remove(name.as_str()) {
            Some(mut info) => {
                let ghost info0 = info@;
                info.active_workspace = workspace.clone();
                self.monitors.insert(name.clone(), info);
                proof {
                    assert(info@ =~= showing(info0, workspace@));
                    assert(self@.monitors =~= old(self)@.monitors.insert(name@, info@));
                }
            },
            None => {
                proof {
                    assert(monitor_views(self.monitors@) =~= old(self)@.monitors);
                }
                if add {
                    let info = MonitorInfo {
                        name: name.clone(),
                        active_workspace: workspace.clone(),
                        fullscreen_workspaces: StrMap::new(),
                    };
                    proof {
                        assert(info@ =~= fresh_monitor(name@, workspace@));
                    }
                    self.put(name, info);
                }
            },
        }
    }

    /// Mark the workspace that a known monitor shows fullscreen, or not.
    fn cover(&mut self, name: &String, on: bool)
        requires
            old(self)@.monitors.dom().contains(name@),
        ensures
            final(self)@ == old(self)@.with(name@, covered(old(self)@.monitors[name@], on)),
    {
        if let Some(mut info) = self.monitors.remove(name.as_str()) {
            let ghost info0 = info@;
            if on {
                info.fullscreen_workspaces.insert(info.active_workspace.clone(), ());
            } else {
                let _gone = info.fullscreen_workspaces.remove(info.active_workspace.as_str());
            }
            self.monitors.insert(name.clone(), info);
            proof {
                assert(info@ =~= covered(info0, on));
                assert(self@.monitors =~= old(self)@.monitors.insert(name@, info@));
            }
        }
    }

    /// Returns true if all outputs are currently occluded (covered by fullscreen
    /// windows, display power off, or session locked).
    pub fn is_all_occluded(&self) -> (r: bool)
        ensures
            r == self@.all_occluded(),
    {
        if !self.dpms_on || self.locked {
            return true;
        }
        let count = self.monitors.len();
        let ghost keys = self.monitors.keys();
        if count == 0 {
            proof {
                assert(self@.monitors.dom() =~= Set::empty());
            }
            return self.active_fullscreen;
        }
        proof {
            assert(keys.contains(keys[0]));
            assert(self.monitors@.dom().contains(keys[0]));
            assert(self@.monitors.dom().contains(keys[0]));
        }
        let mut i: usize = 0;
        while i < count
            invariant
                i <= count == keys.len(),
                keys == self.monitors.keys(),
                crate::strmap::lists_keys(keys, self.monitors@),
                self@.dpms_on && !self@.locked,
                !(self@.monitors.dom() =~= Set::empty()),
                forall|j: int| 0 <= j < i ==> self@.is_covered(#[trigger] keys[j]),
            decreases count - i,
        {
            let m = self.monitors.value_at(i);
            if !m.fullscreen_workspaces.contains_key(m.active_workspace.as_str()) {
                proof {
                    assert(self@.monitors.dom().contains(keys[i as int]));
                    assert(!self@.is_covered(keys[i as int]));
                }
                return false;
            }
            i += 1;
        }
        proof {
            assert forall|name: Seq<char>| #[trigger]
                self@.monitors.dom().contains(name) implies self@.is_covered(name) by {
                assert(self.monitors@.dom().contains(name));
                let j = choose|j: int| 0 <= j < keys.len() && keys[j] == name;
                assert(self@.is_covered(keys[j]));
            }
        }
        true
    }

    pub fn is_locked(&self) -> (r: bool)
        ensures
            r == self@.locked,
    {
        self.locked
    }

    pub fn is_dpms_off(&self) -> (r: bool)
        ensures
            r == !self@.dpms_on,
    {
        !self.dpms_on
    }

    pub fn monitors(&self) -> (r: &StrMap<MonitorInfo>)
        ensures
            monitor_views(r@) == self@.monitors,
    {
        &self.monitors
    }
}

impl Default for OcclusionTracker {
    fn default() -> (r: Self)
        ensures
            r@ == nothing_known(),
    {
        Self::new()
    }
}

/// A locked session and sleeping displays hide every wallpaper.
pub proof fn law_lock_and_sleep_occlude(t: TrackerModel)
    ensures
        t.after(EventModel::Lock(true)).all_occluded(),
        t.after(EventModel::Dpms(false)).all_occluded(),
{
}

/// Unlocking and waking take back what locking and sleeping did.
pub proof fn law_lock_and_sleep_are_undone(t: TrackerModel)
    requires
        !t.locked,
        t.dpms_on,
    ensures
        t.after(EventModel::Lock(true)).after(EventModel::Lock(false)) == t,
        t.after(EventModel::Dpms(false)).after(EventModel::Dpms(true)) == t,
{
}

/// One monitor whose workspace has no fullscreen window is enough for a wallpaper
/// to be seen, unless the session is locked or asleep.
pub proof fn law_one_visible_monitor_is_enough(t: TrackerModel, name: Seq<char>)
    requires
        t.monitors.dom().contains(name),
        !t.is_covered(name),
        t.dpms_on,
        !t.locked,
    ensures
        !t.all_occluded(),
{
}

/// Leaving fullscreen takes back what entering it did.
pub proof fn law_fullscreen_is_undone(t: TrackerModel, name: Seq<char>)
    requires
        t.focused == Some(name),
        t.monitors.dom().contains(name),
        !t.is_covered(name),
        !t.active_fullscreen,
    ensures
        t.after(EventModel::Fullscreen(true)).is_covered(name),
        t.after(EventModel::Fullscreen(true)).after(EventModel::Fullscreen(false)) == t,
{
    let on = t.after(EventModel::Fullscreen(true));
    let off = on.after(EventModel::Fullscreen(false));
    assert(off.monitors[name] =~= t.monitors[name]);
    assert(off.monitors =~= t.monitors);
}

/// Coming back to a workspace takes back what leaving it did, its fullscreen
/// window with it.
pub proof fn law_workspace_switch_is_undone(t: TrackerModel, name: Seq<char>, other: Seq<char>)
    requires
        t.focused == Some(name),
        t.monitors.dom().contains(name),
    ensures
        t.after(EventModel::Workspace(other)).after(
            EventModel::Workspace(t.monitors[name].workspace),
        ) == t,
{
    let back = t.after(EventModel::Workspace(other)).after(
        EventModel::Workspace(t.monitors[name].workspace),
    );
    assert(back.monitors =~= t.monitors);
}

/// An event about workspaces or fullscreen windows leaves every monitor but the
/// focused one as it is.
pub proof fn law_other_monitors_are_untouched(t: TrackerModel, event: EventModel, name: Seq<char>)
    requires
        event is Workspace || event is Fullscreen,
        t.focused != Some(name),
    ensures
        t.after(event).monitors.dom().contains(name) == t.monitors.dom().contains(name),
        t.monitors.dom().contains(name) ==> t.after(event).monitors[name] == t.monitors[name],
{
}

/// Whether every monitor is kept under its own name.
pub open spec fn kept_by_name(t: TrackerModel) -> bool {
    forall|name: Seq<char>| #[trigger]
        t.monitors.dom().contains(name) ==> t.monitors[name].name == name
}

/// Every monitor is kept under its own name, whatever happens.
pub proof fn law_monitors_are_kept_by_name(
    t: TrackerModel,
    event: EventModel,
    name: Seq<char>,
    workspace: Seq<char>,
    on: bool,
)
    requires
        kept_by_name(t),
    ensures
        kept_by_name(nothing_known()),
        kept_by_name(t.after(event)),
        kept_by_name(t.with_report(name, workspace, on)),
        kept_by_name(t.with_window(workspace, on)),
{
}

/// A monitor that is gone is neither known nor focused, and where there are others
/// one of them has the focus that it had.
pub proof fn law_focus_moves_to_a_known_monitor(t: TrackerModel, name: Seq<char>)
    requires
        t.monitors.dom().finite(),
    ensures
        !t.after(EventModel::MonitorRemoved(name)).monitors.dom().contains(name),
        t.after(EventModel::MonitorRemoved(name)).focused != Some(name),
        t.focused == Some(name) && !(t.monitors.remove(name).dom() =~= Set::empty()) ==> t.after(
            EventModel::MonitorRemoved(name),
        ).focused_monitor() is Some,
{
    let left = t.monitors.remove(name);
    crate::strmap::lemma_listing_exists(left.dom());
    let names = crate::strmap::listing(left.dom());
    if names.len() > 0 {
        assert(names.contains(names[0]));
        assert(left.dom().contains(names[0]));
    } else {
        assert(left.dom() =~= Set::empty());
    }
}

/// How Hyprland writes an event.
pub open spec fn event_text(e: EventModel) -> Seq<char> {
    let digit = |on: bool|
        if on {
            seq!['1']
        } else {
            seq!['0']
        };
    match e {
        EventModel::Fullscreen(on) => "fullscreen"@ + ">>"@ + digit(on),
        EventModel::Workspace(w) => "workspace"@ + ">>"@ + w,
        EventModel::OpenWindow { address, workspace, class, title } => "openwindow"@ + ">>"@ + (
        address + seq![','] + (workspace + seq![','] + (class + seq![','] + title))),
        EventModel::CloseWindow { address } => "closewindow"@ + ">>"@ + address,
        EventModel::MoveWindow { address, workspace } => "movewindow"@ + ">>"@ + (address + seq![
            ',',
        ] + workspace),
        EventModel::MonitorAdded(name) => "monitoradded"@ + ">>"@ + name,
        EventModel::MonitorRemoved(name) => "monitorremoved"@ + ">>"@ + name,
        EventModel::FocusedMon { name, workspace } => "focusedmon"@ + ">>"@ + (name + seq![',']
            + workspace),
        EventModel::Lock(on) => "lockscreen"@ + ">>"@ + digit(on),
        EventModel::Dpms(on) => "dpms"@ + ">>"@ + digit(on),
    }
}

/// Whether a text is not empty and has no white space at its ends.
pub open spec fn is_tight(s: Seq<char>) -> bool {
    s.len() > 0 && !crate::text::white_space(s[0]) && !crate::text::white_space(s.last())
}

/// Whether a text is tight and has no comma.
pub open spec fn is_field(s: Seq<char>) -> bool {
    is_tight(s) && crate::effect::lacks(s, ',')
}

/// Whether an event can be written: what it holds is tight, and what a comma ends has
/// none.
pub open spec fn can_be_written(e: EventModel) -> bool {
    match e {
        EventModel::Fullscreen(_) | EventModel::Lock(_) | EventModel::Dpms(_) => true,
        EventModel::Workspace(w) => is_tight(w),
        EventModel::OpenWindow { address, workspace, class, title } => is_field(address)
            && is_field(workspace) && is_field(class) && is_tight(title),
        EventModel::CloseWindow { address } => is_tight(address),
        EventModel::MoveWindow { address, workspace } => is_field(address) && is_tight(workspace),
        EventModel::MonitorAdded(name) => is_tight(name),
        EventModel::MonitorRemoved(name) => is_tight(name),
        EventModel::FocusedMon { name, workspace } => is_field(name) && is_tight(workspace),
    }
}

proof fn lemma_tight(s: Seq<char>)
    requires
        is_tight(s),
    ensures
        crate::text::trimmed(s) == s,
{
    let none = Seq::<char>::empty();
    crate::text::law_space_around_is_trimmed(none, s, none);
    assert(none + s + none =~= s);
}

proof fn lemma_comma(a: Seq<char>, b: Seq<char>)
    requires
        crate::effect::lacks(a, ','),
    ensures
        comma_split(a + seq![','] + b) == Some((a, b)),
{
    crate::text::law_characters_are_found(a, ',', b, a);
    let s = a + seq![','] + b;
    assert(s.take(a.len() as int) =~= a);
    assert(s.skip(a.len() as int + 1) =~= b);
}

proof fn lemma_event_names()
    ensures
        "fullscreen"@.len() == 10 && "fullscreen"@[0] == 'f' && "fullscreen"@[1] == 'u',
        "workspace"@.len() == 9,
        "openwindow"@.len() == 10 && "openwindow"@[0] == 'o',
        "closewindow"@.len() == 11,
        "movewindow"@.len() == 10 && "movewindow"@[0] == 'm',
        "monitoradded"@.len() == 12,
        "monitorremoved"@.len() == 14,
        "focusedmon"@.len() == 10 && "focusedmon"@[0] == 'f' && "focusedmon"@[1] == 'o',
        "lockscreen"@.len() == 10 && "lockscreen"@[0] == 'l',
        "dpms"@.len() == 4,
        "0"@ == seq!['0'],
        "1"@ == seq!['1'],
        crate::effect::lacks("fullscreen"@, '>'),
        crate::effect::lacks("workspace"@, '>'),
        crate::effect::lacks("openwindow"@, '>'),
        crate::effect::lacks("closewindow"@, '>'),
        crate::effect::lacks("movewindow"@, '>'),
        crate::effect::lacks("monitoradded"@, '>'),
        crate::effect::lacks("monitorremoved"@, '>'),
        crate::effect::lacks("focusedmon"@, '>'),
        crate::effect::lacks("lockscreen"@, '>'),
        crate::effect::lacks("dpms"@, '>'),
{
    reveal_strlit("fullscreen");
    reveal_strlit("workspace");
    reveal_strlit("openwindow");
    reveal_strlit("closewindow");
    reveal_strlit("movewindow");
    reveal_strlit("monitoradded");
    reveal_strlit("monitorremoved");
    reveal_strlit("focusedmon");
    reveal_strlit("lockscreen");
    reveal_strlit("dpms");
    reveal_strlit("0");
    reveal_strlit("1");
    assert("0"@ =~= seq!['0']);
    assert("1"@ =~= seq!['1']);
}

/// Every event that Hyprland writes is read back, with all that it holds; the angle
/// brackets before it are no part of its data.
pub proof fn law_written_events_are_read_back(e: EventModel)
    requires
        can_be_written(e),
    ensures
        event_of(event_text(e)) == Some(e),
{
    lemma_event_names();
    match e {
        EventModel::Fullscreen(on) | EventModel::Lock(on) | EventModel::Dpms(on) => {
            let d = if on {
                seq!['1']
            } else {
                seq!['0']
            };
            lemma_plain_event("fullscreen"@, d);
            lemma_plain_event("lockscreen"@, d);
            lemma_plain_event("dpms"@, d);
        },
        EventModel::Workspace(w) => {
            lemma_plain_event("workspace"@, w);
        },
        EventModel::OpenWindow { address, workspace, class, title } => {
            let data = address + seq![','] + (workspace + seq![','] + (class + seq![','] + title));
            assert(data.last() == title.last());
            lemma_plain_event("openwindow"@, data);
            lemma_comma(address, workspace + seq![','] + (class + seq![','] + title));
            lemma_comma(workspace, class + seq![','] + title);
            lemma_comma(class, title);
            lemma_tight(title);
        },
        EventModel::CloseWindow { address } => {
            lemma_plain_event("closewindow"@, address);
        },
        EventModel::MoveWindow { address, workspace } => {
            let data = address + seq![','] + workspace;
            assert(data.last() == workspace.last());
            lemma_plain_event("movewindow"@, data);
            lemma_comma(address, workspace);
        },
        EventModel::MonitorAdded(name) => {
            lemma_plain_event("monitoradded"@, name);
        },
        EventModel::MonitorRemoved(name) => {
            lemma_plain_event("monitorremoved"@, name);
        },
        EventModel::FocusedMon { name, workspace } => {
            let data = name + seq![','] + workspace;
            assert(data.last() == workspace.last());
            lemma_plain_event("focusedmon"@, data);
            lemma_comma(name, workspace);
        },
    }
}

/// A line is split at its first two angle brackets.
proof fn lemma_plain_event(name: Seq<char>, data: Seq<char>)
    requires
        crate::effect::lacks(name, '>'),
        name.len() > 0,
        is_tight(data),
    ensures
        event_of(name + ">>"@ + data) == event_named(name, data),
        crate::text::trimmed(data) == data,
{
    reveal_strlit(">>");
    lemma_tight(data);
    let s = name + ">>"@ + data;
    let k = name.len() as int;
    assert(s.last() == data.last());
    assert(crate::text::white_space('\n'));
    assert(unterminated(s) == s);
    crate::text::lemma_find_from(s, ">>"@, 0);
    assert(s.subrange(k, k + 2) =~= ">>"@);
    assert(crate::text::occurs_at(s, ">>"@, k));
    assert forall|j: int| 0 <= j < k implies !#[trigger] crate::text::occurs_at(s, ">>"@, j) by {
        if crate::text::occurs_at(s, ">>"@, j) {
            assert(s.subrange(j, j + 2)[0] == s[j]);
            assert(s[j] == name[j]);
        }
    }
    assert(s.take(k) =~= name);
    assert(s.skip(k + 2) =~= data);
}

/// The focus of a monitor and a switch of workspaces change what is shown there, and
/// nothing of the fullscreen windows: those of a monitor stay with its workspaces, and a
/// monitor that is new has none.
pub proof fn law_focus_and_workspaces_change_what_is_shown(
    t: TrackerModel,
    name: Seq<char>,
    workspace: Seq<char>,
    other: Seq<char>,
)
    requires
        other != name,
    ensures
        ({
            let f = t.after(EventModel::FocusedMon { name, workspace });
            &&& f.focused == Some(name)
            &&& f.monitors.dom() == t.monitors.dom().insert(name)
            &&& f.monitors[name].workspace == workspace
            &&& f.monitors[name].fullscreen == (if t.monitors.dom().contains(name) {
                t.monitors[name].fullscreen
            } else {
                Set::empty()
            })
            &&& f.monitors[other] == t.monitors[other]
            &&& f.locked == t.locked && f.dpms_on == t.dpms_on && f.active_fullscreen
                == t.active_fullscreen
        }),
        t.focused == Some(name) && t.monitors.dom().contains(name) ==> ({
            let w = t.after(EventModel::Workspace(workspace));
            &&& w.monitors.dom() == t.monitors.dom()
            &&& w.monitors[name].workspace == workspace
            &&& w.monitors[name].fullscreen == t.monitors[name].fullscreen
            &&& w.monitors[other] == t.monitors[other]
            &&& w.focused == t.focused && w.locked == t.locked && w.dpms_on == t.dpms_on
        }),
        t.focused is None ==> t.after(EventModel::Workspace(workspace)) == t,
{
    let f = t.after(EventModel::FocusedMon { name, workspace });
    assert(f.monitors.dom() =~= t.monitors.dom().insert(name));
    if t.focused == Some(name) && t.monitors.dom().contains(name) {
        let w = t.after(EventModel::Workspace(workspace));
        assert(w.monitors.dom() =~= t.monitors.dom());
    }
}

/// A fullscreen window covers the workspace that the focused monitor shows, and that
/// alone; a monitor that is added shows the first workspace; opening, closing and moving
/// windows tell nothing.
pub proof fn law_fullscreen_covers_the_shown_workspace(
    t: TrackerModel,
    name: Seq<char>,
    on: bool,
    workspace: Seq<char>,
    e: EventModel,
)
    requires
        t.focused == Some(name),
        t.monitors.dom().contains(name),
        e is OpenWindow || e is CloseWindow || e is MoveWindow,
    ensures
        ({
            let f = t.after(EventModel::Fullscreen(on));
            &&& f.active_fullscreen == on
            &&& f.monitors[name].workspace == t.monitors[name].workspace
            &&& f.is_covered(name) == on
            &&& workspace != t.monitors[name].workspace ==> (
            f.monitors[name].fullscreen.contains(workspace)
                == t.monitors[name].fullscreen.contains(workspace))
        }),
        !t.monitors.dom().contains(workspace) ==> ({
            let a = t.after(EventModel::MonitorAdded(workspace));
            &&& a.monitors.dom().contains(workspace)
            &&& a.monitors[workspace].workspace == "1"@
            &&& a.monitors[workspace].fullscreen == Set::<Seq<char>>::empty()
            &&& a.monitors[name] == t.monitors[name] && a.focused == t.focused
        }),
        t.after(EventModel::MonitorAdded(name)) == t,
        t.after(e) == t,
{
}

/// Everything is hidden where every monitor is covered, and where no monitor is known by
/// the last that was heard of fullscreen.
pub proof fn law_covered_monitors_hide_everything(t: TrackerModel)
    ensures
        (forall|name: Seq<char>| #[trigger] t.monitors.dom().contains(name) ==> t.is_covered(name))
            && (exists|name: Seq<char>| #[trigger] t.monitors.dom().contains(name))
            ==> t.all_occluded(),
        t.monitors.dom() == Set::<Seq<char>>::empty() && t.dpms_on && !t.locked
            ==> t.all_occluded() == t.active_fullscreen,
        !nothing_known().all_occluded(),
{
}

/// A monitor's report puts it in place, with the workspace that it shows and no
/// fullscreen window, and moves the focus only where it has it. A window's report marks
/// its workspace where the window is fullscreen, and tells nothing where it is not.
pub proof fn law_reports_put_in_place(
    t: TrackerModel,
    name: Seq<char>,
    workspace: Seq<char>,
    focused: bool,
    n: u64,
    i: i64,
)
    ensures
        ({
            let r = t.with_report(name, workspace, focused);
            &&& r.monitors.dom().contains(name)
            &&& r.monitors[name].workspace == workspace
            &&& r.monitors[name].fullscreen == Set::<Seq<char>>::empty()
            &&& r.focused == (if focused {
                Some(name)
            } else {
                t.focused
            })
        }),
        t.monitors.dom().contains(name) && t.monitors[name].workspace == workspace
            ==> t.with_window(workspace, true).is_covered(name) && t.with_window(
            workspace,
            true,
        ).active_fullscreen,
        t.with_window(workspace, false) == t,
        t.with_window(workspace, true).monitors.dom() == t.monitors.dom(),
        mode_is_fullscreen(JsonTree::Bool(focused)) == focused,
        n <= i64::MAX ==> mode_is_fullscreen(JsonTree::Number(crate::json::NumberModel::Natural(n)))
            == (n > 0),
        i < 0 ==> mode_is_fullscreen(JsonTree::Number(crate::json::NumberModel::Negative(i))),
{
    assert(t.with_window(workspace, true).monitors.dom() =~= t.monitors.dom());
}

/// Events come in the order of their lines, up to what is no line; a line that is no
/// event is passed over, and the stream is over at its end or its failure.
pub proof fn law_events_come_in_order(reads: Seq<LineRead>, n: int)
    requires
        0 <= n < reads.len(),
    ensures
        reads[n] matches LineRead::Line(line) ==> {
            &&& event_of(crate::text::trimmed(line@)) matches Some(e) ==> events_read(reads, n)
                == seq![e] + events_read(reads, n + 1)
            &&& event_of(crate::text::trimmed(line@)) is None ==> events_read(reads, n)
                == events_read(reads, n + 1)
            &&& stream_over(reads, n) == stream_over(reads, n + 1)
        },
        !(reads[n] is Line) ==> events_read(reads, n).len() == 0,
        reads[n] is Pending ==> !stream_over(reads, n),
        reads[n] is Closed || reads[n] is Failed ==> stream_over(reads, n),
        !stream_over(reads, reads.len() as int),
{
}

/// The sockets of an instance of Hyprland lie below the runtime directory, in a directory
/// named for the instance; where one of the two is not known there is none.
pub proof fn law_sockets_lie_with_their_instance(
    runtime: Option<String>,
    instance: Option<String>,
    r: Option<String>,
    s: Option<String>,
)
    requires
        call_ensures(socket_path, (&runtime, &instance), r),
        call_ensures(socket2_path, (&runtime, &instance), s),
        runtime matches Some(d) ==> d@.len() > 0 && d@.last() != '/',
        instance matches Some(i) ==> i@.len() > 0 && i@[0] != '/' && i@.last() != '/',
    ensures
        runtime is None || instance is None ==> r is None && s is None,
        runtime matches Some(d) ==> (instance matches Some(i) ==> crate::text::opt_text(r) == Some(
            d@ + "/hypr/"@ + i@ + "/.socket.sock"@,
        ) && crate::text::opt_text(s) == Some(d@ + "/hypr/"@ + i@ + "/.socket2.sock"@)),
{
    reveal_strlit("hypr");
    reveal_strlit("/hypr/");
    reveal_strlit(".socket.sock");
    reveal_strlit("/.socket.sock");
    reveal_strlit(".socket2.sock");
    reveal_strlit("/.socket2.sock");
    if let Some(d) = runtime {
        if let Some(i) = instance {
            let a = d@.push('/') + "hypr"@;
            let b = a.push('/') + i@;
            assert(b =~= d@ + "/hypr/"@ + i@);
            assert(b.last() == i@.last());
            assert(b.push('/') + ".socket.sock"@ =~= d@ + "/hypr/"@ + i@ + "/.socket.sock"@);
            assert(b.push('/') + ".socket2.sock"@ =~= d@ + "/hypr/"@ + i@ + "/.socket2.sock"@);
        }
    }
}

/// Reports are taken one behind the other, the monitors before the windows; what was not
/// answered changes nothing.
pub proof fn law_reports_are_taken_in_order(
    t: TrackerModel,
    monitors: Vec<MonitorReport>,
    more: Vec<MonitorReport>,
    m: MonitorReport,
    clients: Vec<ClientReport>,
    others: Vec<ClientReport>,
    c: ClientReport,
)
    requires
        more@ == monitors@.push(m),
        others@ == clients@.push(c),
    ensures
        after_sync(t, None, None) == t,
        monitors@.len() == 0 ==> after_sync(t, Some(monitors), None) == t,
        after_sync(t, Some(more), None) == after_sync(t, Some(monitors), None).with_report(
            m.name@,
            m.active_workspace@,
            m.focused,
        ),
        after_sync(t, Some(monitors), Some(others)) == after_sync(
            t,
            Some(monitors),
            Some(clients),
        ).with_window(c.workspace@, mode_is_fullscreen(c.fullscreen@)),
        clients@.len() == 0 ==> after_sync(t, Some(monitors), Some(clients)) == after_sync(
            t,
            Some(monitors),
            None,
        ),
{
    lemma_first_monitors(t, monitors@, m, monitors@.len() as int);
    lemma_first_windows(
        after_sync(t, Some(monitors), None),
        clients@,
        c,
        clients@.len() as int,
    );
}

proof fn lemma_first_monitors(t: TrackerModel, list: Seq<MonitorReport>, m: MonitorReport, n: int)
    requires
        0 <= n <= list.len(),
    ensures
        after_reports(t, list.push(m), n) == after_reports(t, list, n),
    decreases n,
{
    if n > 0 {
        lemma_first_monitors(t, list, m, n - 1);
    }
}

proof fn lemma_first_windows(t: TrackerModel, list: Seq<ClientReport>, c: ClientReport, n: int)
    requires
        0 <= n <= list.len(),
    ensures
        after_windows(t, list.push(c), n) == after_windows(t, list, n),
    decreases n,
{
    if n > 0 {
        lemma_first_windows(t, list, c, n - 1);
    }
}

} // verus!
