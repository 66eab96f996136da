//! Configuration and persisted state.
//!
//! Two separate files, because they answer different questions and have
//! different owners:
//!
//! - **Config** is what the user wrote. hyprwpe reads it and never writes it,
//!   so hand-edits and comments survive.
//! - **State** is what hyprwpe was last doing. hyprwpe owns it entirely, and it
//!   is what makes a wallpaper survive a logout.
//!
//! Both are optional. Missing files mean defaults, never an error: a first run
//! should work with nothing configured.
use vstd::prelude::*;
use crate::catalog::Source;
use crate::json::Json;
use crate::paths::join_path;
use crate::properties::{Coercion, PropertyKind, PropertySet};
use crate::strmap::StrMap;
use crate::text::{chars_of, head, join_with, push_text, quoted, rest, string_of};

verus! {

/// A base directory: the one that its variable names, or one below the user's home.
pub open spec fn base_dir(
    named: Option<Seq<char>>,
    home: Option<Seq<char>>,
    fallback: Seq<char>,
) -> Option<Seq<char>> {
    match named {
        Some(dir) => Some(dir),
        None => match home {
            Some(h) => Some(crate::paths::joined_path(h, fallback)),
            None => None,
        },
    }
}

fn xdg(named: &Option<String>, home: &Option<String>, fallback: &str) -> (r: Option<String>)
    ensures
        crate::text::opt_text(r) == base_dir(
            crate::text::opt_text(*named),
            crate::text::opt_text(*home),
            fallback@,
        ),
{
    if let Some(dir) = named {
        return Some(dir.clone());
    }
    match home {
        Some(h) => Some(join_path(h.as_str(), fallback)),
        None => None,
    }
}

/// The file that is `name` in a base directory.
pub open spec fn file_in(base: Option<Seq<char>>, name: Seq<char>) -> Option<Seq<char>> {
    match base {
        Some(dir) => Some(crate::paths::joined_path(dir, name)),
        None => None,
    }
}

/// The config file, given the values of `XDG_CONFIG_HOME` and `HOME`.
pub fn config_path(config_home: &Option<String>, home: &Option<String>) -> (r: Option<String>)
    ensures
        crate::text::opt_text(r) == file_in(
            base_dir(
                crate::text::opt_text(*config_home),
                crate::text::opt_text(*home),
                ".config"@,
            ),
            "hyprwpe/config.toml"@,
        ),
{
    match xdg(config_home, home, ".config") {
        Some(dir) => Some(join_path(dir.as_str(), "hyprwpe/config.toml")),
        None => None,
    }
}

/// The state file, given the values of `XDG_STATE_HOME` and `HOME`.
pub fn state_path(state_home: &Option<String>, home: &Option<String>) -> (r: Option<String>)
    ensures
        crate::text::opt_text(r) == file_in(
            base_dir(
                crate::text::opt_text(*state_home),
                crate::text::opt_text(*home),
                ".local/state"@,
            ),
            "hyprwpe/state.json"@,
        ),
{
    match xdg(state_home, home, ".local/state") {
        Some(dir) => Some(join_path(dir.as_str(), "hyprwpe/state.json")),
        None => None,
    }
}

/// A wallpaper source as written in the config file.
#[derive(Debug, Clone, PartialEq, Eq)]
pub enum SourceConfig {
    /// A directory whose children are Workshop items carrying `project.json`.
    Workshop { path: String },
    Directory { path: String, recursive: bool },
}

/// A path without the separators and the dots that it begins with.
pub open spec fn without_lead(s: Seq<char>) -> Seq<char>
    decreases s.len(),
{
    if s.len() == 0 {
        s
    } else if s[0] == '/' {
        without_lead(s.skip(1))
    } else if s[0] == '.' && (s.len() == 1 || s[1] == '/') {
        without_lead(s.skip(1))
    } else {
        s
    }
}

/// A path without the separators and the dots that it ends with.
pub open spec fn without_trail(s: Seq<char>) -> Seq<char>
    decreases s.len(),
{
    if s.len() == 0 {
        s
    } else if s.last() == '/' {
        without_trail(s.drop_last())
    } else if s.last() == '.' && (s.len() == 1 || s[s.len() - 2] == '/') {
        without_trail(s.drop_last())
    } else {
        s
    }
}

/// Whether the first component of a path is a tilde.
pub open spec fn is_below_home(path: Seq<char>) -> bool {
    path.len() > 0 && path[0] == '~' && (path.len() == 1 || path[1] == '/')
}

/// A path with the leading `~` expanded.
pub open spec fn expanded(path: Seq<char>, home: Option<Seq<char>>) -> Seq<char> {
    match home {
        Some(h) => if is_below_home(path) {
            crate::paths::joined_path(h, without_trail(without_lead(path.skip(1))))
        } else {
            path
        },
        None => path,
    }
}

fn drop_lead<'a>(s: &'a [char]) -> (r: &'a [char])
    ensures
        r@ == without_lead(s@),
{
    let mut cur = s;
    while cur.len() > 0 && (cur[0] == '/' || (cur[0] == '.' && (cur.len() == 1 || cur[1] == '/')))
        invariant
            without_lead(cur@) == without_lead(s@),
        decreases cur@.len(),
    {
        cur = rest(cur, 1);
    }
    cur
}

fn drop_trail<'a>(s: &'a [char]) -> (r: &'a [char])
    ensures
        r@ == without_trail(s@),
{
    let mut cur = s;
    while cur.len() > 0 && (cur[cur.len() - 1] == '/' || (cur[cur.len() - 1] == '.' && (cur.len()
        == 1 || cur[cur.len() - 2] == '/')))
        invariant
            without_trail(cur@) == without_trail(s@),
        decreases cur@.len(),
    {
        let ghost was = cur@;
        cur = head(cur, cur.len() - 1);
        proof {
            assert(cur@ =~= was.drop_last());
        }
    }
    cur
}

/// Expand a leading `~`, which is what people write in a config file even
/// though nothing expands it for them.
pub fn expand(path: &str, home: &Option<String>) -> (r: String)
    ensures
        r@ == expanded(path@, crate::text::opt_text(*home)),
{
    let all = chars_of(path);
    if all.len() > 0 && all[0] == '~' && (all.len() == 1 || all[1] == '/') {
        if let Some(h) = home {
            let below = string_of(drop_trail(drop_lead(rest(all.as_slice(), 1))));
            return join_path(h.as_str(), below.as_str());
        }
    }
    path.to_string()
}

impl SourceConfig {
    /// The source that is meant.
    pub open spec fn source(self, home: Option<Seq<char>>) -> crate::catalog::SourceModel {
        match self {
            SourceConfig::Workshop { path } => crate::catalog::SourceModel::Workshop(
                expanded(path@, home),
            ),
            SourceConfig::Directory { path, recursive } => crate::catalog::SourceModel::Directory {
                path: expanded(path@, home),
                recursive,
            },
        }
    }

    fn to_source(&self, home: &Option<String>) -> (r: Source)
        ensures
            r@ == self.source(crate::text::opt_text(*home)),
    {
        match self {
            SourceConfig::Workshop { path } => Source::Workshop(expand(path.as_str(), home)),
            SourceConfig::Directory { path, recursive } => Source::Directory {
                path: expand(path.as_str(), home),
                recursive: *recursive,
            },
        }
    }
}

/// What the user configured.
#[derive(Debug, Clone)]
pub struct Config {
    /// Wallpaper sources. Empty means "detect", not "none": a user who has not
    /// configured anything should still see their library.
    pub sources: Vec<SourceConfig>,
    /// Scaling used when a request does not name one.
    pub default_scaling: Option<String>,
    /// Daemon-wide behaviour.
    pub general: General,
}

/// Daemon-wide behaviour, as written under `[general]`.
#[derive(Debug, Clone, Copy, PartialEq, Eq)]
pub struct General {
    /// How long an output must stay occluded before renderers are suspended.
    /// Occlusion is usually brief (workspace switch, alt-tab), so this exists to
    /// avoid pausing and resuming on every flicker; too low and the daemon
    /// thrashes, too high and a hidden wallpaper keeps drawing.
    pub suspend_delay_ms: u64,
    /// Suspend while a window is fullscreen. A wallpaper behind a fullscreen
    /// window costs power for nothing, but some people layer a fullscreen
    /// terminal over a visible wallpaper and would rather it kept running.
    pub pause_on_fullscreen: bool,
    /// Frame cap for animated wallpapers. `0` leaves the compositor's frame
    /// callbacks uncapped, which on a 165 Hz panel is 165 wasted renders.
    pub fps_limit: u32,
}

impl Default for General {
    fn default() -> (r: Self)
        ensures
            r.suspend_delay_ms == 1500,
            r.pause_on_fullscreen,
            r.fps_limit == 0,
    {
        General { suspend_delay_ms: 1500, pause_on_fullscreen: true, fps_limit: 0 }
    }
}

impl General {
    /// The hysteresis delay, in nanoseconds.
    pub fn suspend_delay(&self) -> (r: u128)
        ensures
            r == self.suspend_delay_ms * 1_000_000,
    {
        self.suspend_delay_ms as u128 * 1_000_000
    }

    /// Whether rendering should be capped at a given frame interval, in
    /// milliseconds: never less than one.
    pub fn frame_interval(&self) -> (r: Option<u64>)
        ensures
            r == (if self.fps_limit == 0 {
                None::<u64>
            } else if self.fps_limit > 1000 {
                Some(1u64)
            } else {
                Some((1000int / self.fps_limit as int) as u64)
            }),
            r matches Some(ms) ==> ms >= 1,
    {
        if self.fps_limit == 0 {
            None
        } else {
            let limit = self.fps_limit as u64;
            let ms = 1000u64 / limit;
            proof {
                let f = self.fps_limit as int;
                if f > 1000 {
                    assert(1000int / f == 0) by (nonlinear_arith)
                        requires
                            f > 1000,
                    ;
                } else {
                    assert(1000int / f >= 1) by (nonlinear_arith)
                        requires
                            0 < f <= 1000,
                    ;
                }
            }
            if ms < 1 {
                Some(1)
            } else {
                Some(ms)
            }
        }
    }
}

impl Default for Config {
    fn default() -> (r: Self)
        ensures
            r.sources@ == Seq::<SourceConfig>::empty(),
            r.default_scaling is None,
            r.general.suspend_delay_ms == 1500,
            r.general.pause_on_fullscreen,
            r.general.fps_limit == 0,
    {
        Config { sources: Vec::new(), default_scaling: None, general: General::default() }
    }
}

impl Config {
    /// Configured sources, falling back to those that were detected when none are
    /// given.
    pub fn sources(&self, home: &Option<String>, detected: &Vec<Source>) -> (r: Vec<Source>)
        ensures
            self.sources@.len() == 0 ==> crate::catalog::source_views(r@)
                == crate::catalog::source_views(detected@),
            self.sources@.len() > 0 ==> crate::catalog::source_views(r@) == Seq::new(
                self.sources@.len(),
                |i: int| self.sources@[i].source(crate::text::opt_text(*home)),
            ),
    {
        let mut out: Vec<Source> = Vec::new();
        if self.sources.len() == 0 {
            let mut i: usize = 0;
            while i < detected.len()
                invariant
                    i <= detected@.len(),
                    out@.len() == i,
                    forall|j: int| 0 <= j < i ==> (#[trigger] out@[j])@ == detected@[j]@,
                decreases detected@.len() - i,
            {
                let s = match &detected[i] {
                    Source::Workshop(path) => Source::Workshop(path.clone()),
                    Source::Directory { path, recursive } => Source::Directory {
                        path: path.clone(),
                        recursive: *recursive,
                    },
                };
                out.push(s);
                i += 1;
            }
            proof {
                assert(crate::catalog::source_views(out@) =~= crate::catalog::source_views(
                    detected@,
                ));
            }
        } else {
            let ghost h = crate::text::opt_text(*home);
            let mut i: usize = 0;
            while i < self.sources.len()
                invariant
                    i <= self.sources@.len(),
                    h == crate::text::opt_text(*home),
                    out@.len() == i,
                    forall|j: int|
                        0 <= j < i ==> (#[trigger] out@[j])@ == self.sources@[j].source(h),
                decreases self.sources@.len() - i,
            {
                out.push(self.sources[i].to_source(home));
                i += 1;
            }
            proof {
                assert(crate::catalog::source_views(out@) =~= Seq::new(
                    self.sources@.len(),
                    |i: int| self.sources@[i].source(h),
                ));
            }
        }
        out
    }
}

/// What an output shows, and how.
#[derive(Debug, Clone, PartialEq, Eq)]
pub struct Assignment {
    pub path: String,
    pub scaling: String,
    /// Which renderer to use. Optional so a state file written before this
    /// existed still loads; missing means image, which is what those files
    /// could only have held.
    pub kind: Option<String>,
}

/// What the daemon was showing, so a restart or a logout does not lose it.
pub struct State {
    /// Applies to outputs without their own entry.
    pub default: Option<Assignment>,
    /// Keyed by output name. Kept for outputs that are not currently connected,
    /// so unplugging and replugging a monitor restores what it had.
    pub outputs: StrMap<Assignment>,
    /// Per-wallpaper user property values, keyed by the wallpaper's path.
    ///
    /// Lives here rather than in the config file because these are not hand
    /// written: the daemon and the GUI both write them, and they are values a
    /// user picked in a panel. A wallpaper's *declarations* come from the
    /// package; only the chosen values are stored.
    pub properties: StrMap<Json>,
}

impl Default for State {
    fn default() -> (r: Self)
        ensures
            r.default is None,
            r.outputs@ == Map::<Seq<char>, Assignment>::empty(),
            r.properties@ == Map::<Seq<char>, Json>::empty(),
    {
        State { default: None, outputs: StrMap::new(), properties: StrMap::new() }
    }
}

/// Take keys out of a map.
fn remove_all<V>(map: &mut StrMap<V>, gone: &Vec<String>)
    ensures
        final(map)@ == old(map)@.remove_keys(
            Set::new(|k: Seq<char>| crate::text::texts(gone@).contains(k)),
        ),
{
    let ghost keys = crate::text::texts(gone@);
    let ghost was = map@;
    let mut i: usize = 0;
    proof {
        let none = Set::new(|k: Seq<char>| keys.take(0).contains(k));
        assert(was.remove_keys(none) =~= was);
    }
    while i < gone.len()
        invariant
            i <= gone@.len(),
            keys == crate::text::texts(gone@),
            map@ == was.remove_keys(Set::new(|k: Seq<char>| keys.take(i as int).contains(k))),
        decreases gone@.len() - i,
    {
        map.remove(gone[i].as_str());
        proof {
            let a = keys.take(i as int);
            let b = keys.take(i + 1);
            assert(b =~= a.push(keys[i as int]));
            assert(keys[i as int] == gone@[i as int]@);
            assert forall|k: Seq<char>| b.contains(k) <==> (a.contains(k) || k == keys[i as int]) by {
                assert(b[i as int] == keys[i as int]);
                if a.contains(k) {
                    let j = a.index_of(k);
                    assert(b[j] == k);
                }
                if b.contains(k) {
                    let j = b.index_of(k);
                    if j < i {
                        assert(a[j] == k);
                    }
                }
            }
            assert(map@ =~= was.remove_keys(Set::new(|k: Seq<char>| b.contains(k))));
        }
        i += 1;
    }
    proof {
        assert(keys.take(keys.len() as int) =~= keys);
    }
}

/// The assignments whose file is there.
pub open spec fn with_files(
    outputs: Map<Seq<char>, Assignment>,
    files: Set<Seq<char>>,
) -> Map<Seq<char>, Assignment> {
    outputs.restrict(
        Set::new(|k: Seq<char>| outputs.dom().contains(k) && files.contains(outputs[k].path@)),
    )
}

/// A saved document with one more value.
pub open spec fn merged(
    stored: Option<crate::json::JsonTree>,
    key: Seq<char>,
    value: crate::json::JsonTree,
) -> crate::json::JsonTree {
    let table = match stored {
        Some(crate::json::JsonTree::Table(m)) => m,
        _ => Map::empty(),
    };
    crate::json::JsonTree::Table(table.insert(key, crate::properties::saved_entry(value)))
}

/// Why a property was not set.
#[derive(Debug, PartialEq, Eq)]
pub enum PropertyError {
    /// The wallpaper exposes no user properties.
    NoProperties,
    /// The wallpaper has no such property; those that a user can set are named.
    Unknown { known: Vec<String> },
    /// The property is not a value that a user can set.
    NotEditable(PropertyKind),
    /// The value is not one for the property.
    Invalid(PropertyKind),
}

/// What a user is told who set `key` of the wallpaper at `path` to `value` in vain.
pub open spec fn property_message(
    e: PropertyError,
    path: Seq<char>,
    key: Seq<char>,
    value: crate::json::JsonTree,
) -> Seq<char> {
    match e {
        PropertyError::NoProperties => path + " exposes no user properties"@,
        PropertyError::Unknown { known } => "no property "@ + crate::text::in_quotes(key)
            + " on this wallpaper; it has: "@ + (if known@.len() == 0 {
            "none"@
        } else {
            crate::text::parted(crate::text::texts(known@), ", "@)
        }),
        PropertyError::NotEditable(kind) => crate::text::in_quotes(key) + " is a "@ + kind@.shown()
            + ", not a value you can set"@,
        PropertyError::Invalid(kind) => crate::json::json_text(value)
            + " is not a valid value for "@ + crate::text::in_quotes(key) + " ("@ + kind@.shown()
            + ")"@,
    }
}

impl PropertyError {
    /// What a user is told who set `key` of the wallpaper at `path` to `value` in vain.
    pub fn message(&self, path: &str, key: &str, value: &Json) -> (r: String)
        ensures
            r@ == property_message(*self, path@, key@, value@),
    {
        let mut out = String::new();
        match self {
            PropertyError::NoProperties => {
                push_text(&mut out, path);
                push_text(&mut out, " exposes no user properties");
            },
            PropertyError::Unknown { known } => {
                push_text(&mut out, "no property ");
                push_text(&mut out, quoted(key).as_str());
                push_text(&mut out, " on this wallpaper; it has: ");
                if known.len() == 0 {
                    push_text(&mut out, "none");
                } else {
                    push_text(&mut out, join_with(known, ", ").as_str());
                }
            },
            PropertyError::NotEditable(kind) => {
                push_text(&mut out, quoted(key).as_str());
                push_text(&mut out, " is a ");
                push_text(&mut out, kind.shown().as_str());
                push_text(&mut out, ", not a value you can set");
            },
            PropertyError::Invalid(kind) => {
                push_text(&mut out, value.written().as_str());
                push_text(&mut out, " is not a valid value for ");
                push_text(&mut out, quoted(key).as_str());
                push_text(&mut out, " (");
                push_text(&mut out, kind.shown().as_str());
                push_text(&mut out, ")");
            },
        }
        proof {
            assert(out@ =~= property_message(*self, path@, key@, value@));
        }
        out
    }
}

/// The keys of the properties that a user can set.
pub open spec fn editable_keys(list: Seq<crate::properties::PropertyModel>) -> Seq<Seq<char>> {
    let kept = list.filter(|p: crate::properties::PropertyModel| p.kind.editable());
    Seq::new(kept.len(), |i: int| kept[i].key)
}

/// Whether `r` answers the setting of `key` to `value` on these properties, `finished`
/// being what was made of the value where that takes floating point.
pub open spec fn answers(
    r: Result<Json, PropertyError>,
    list: Seq<crate::properties::PropertyModel>,
    key: Seq<char>,
    value: crate::json::JsonTree,
    finished: Option<crate::json::JsonTree>,
) -> bool {
    if list.len() == 0 {
        r matches Err(PropertyError::NoProperties)
    } else {
        match crate::properties::index_of_key(list, key, 0) {
            None => r matches Err(PropertyError::Unknown { known }) && crate::text::texts(known@)
                == editable_keys(list),
            Some(i) => if !list[i].kind.editable() {
                r matches Err(PropertyError::NotEditable(kind)) && kind@ == list[i].kind
            } else {
                match crate::properties::coerced(list[i], value) {
                    None => r matches Err(PropertyError::Invalid(kind)) && kind@ == list[i].kind,
                    Some(c) => match crate::properties::settled(c, finished) {
                        None => r matches Err(PropertyError::Invalid(kind)) && kind@ == list[i].kind,
                        Some(v) => r matches Ok(j) && j@ == v,
                    },
                }
            },
        }
    }
}

/// The document of an optional one.
pub open spec fn opt_tree(j: Option<Json>) -> Option<crate::json::JsonTree> {
    match j {
        Some(j) => Some(j@),
        None => None,
    }
}

/// What is saved for a wallpaper.
pub open spec fn saved_at(properties: Map<Seq<char>, Json>, key: Seq<char>) -> Option<
    crate::json::JsonTree,
> {
    if properties.dom().contains(key) {
        Some(properties[key]@)
    } else {
        None
    }
}

/// What a value comes to on a wallpaper's own declaration of the property, before
/// it is finished.
pub fn check_property(declared: &PropertySet, key: &str, value: &Json) -> (r: Result<
    Coercion,
    PropertyError,
>)
    ensures
        match r {
            Ok(c) => declared@.len() > 0 && (crate::properties::index_of_key(declared@, key@, 0)
                matches Some(i) && declared@[i].kind.editable() && crate::properties::coerced(
                declared@[i],
                value@,
            ) == Some(c@)),
            Err(e) => answers(Err(e), declared@, key@, value@, None) && (
            crate::properties::index_of_key(declared@, key@, 0) matches Some(i) ==> !declared@[i].kind.editable()
                || crate::properties::coerced(declared@[i], value@) is None),
        },
{
    if declared.is_empty() {
        return Err(PropertyError::NoProperties);
    }
    match declared.get(key) {
        None => {
            let list = declared.editable();
            let ghost kept = declared@.filter(
                |p: crate::properties::PropertyModel| p.kind.editable(),
            );
            let mut known: Vec<String> = Vec::new();
            let mut i: usize = 0;
            proof {
                assert(Seq::new(list@.len(), |i: int| list@[i]@).len() == list@.len());
            }
            while i < list.len()
                invariant
                    i <= list@.len() == kept.len(),
                    Seq::new(list@.len(), |i: int| list@[i]@) == kept,
                    known@.len() == i,
                    forall|j: int| 0 <= j < i ==> (#[trigger] known@[j])@ == kept[j].key,
                decreases list@.len() - i,
            {
                proof {
                    assert(kept[i as int] == list@[i as int]@);
                }
                known.push(list[i].key.clone());
                i += 1;
            }
            proof {
                assert(crate::text::texts(known@) =~= editable_keys(declared@));
            }
            Err(PropertyError::Unknown { known })
        },
        Some(p) => {
            if !p.kind.is_editable() {
                return Err(PropertyError::NotEditable(p.kind.copy()));
            }
            match p.coerce(value) {
                Some(c) => Ok(c),
                None => Err(PropertyError::Invalid(p.kind.copy())),
            }
        },
    }
}

impl State {
    /// Forget assignments whose file has gone. A wallpaper deleted since the
    /// last session should not resurrect as an error on every start.
    ///
    /// Saved property values for a wallpaper that is gone are dead weight in
    /// a file that is rewritten on every change. `files` are the paths that are
    /// files, `present` those that are there.
    pub fn prune_missing(&mut self, files: &StrMap<()>, present: &StrMap<()>)
        ensures
            final(self).default == (match old(self).default {
                Some(a) => if files@.dom().contains(a.path@) {
                    Some(a)
                } else {
                    None
                },
                None => None,
            }),
            final(self).outputs@ == with_files(old(self).outputs@, files@.dom()),
            final(self).properties@ == old(self).properties@.restrict(present@.dom()),
    {
        let forget = match &self.default {
            Some(a) => !files.contains_key(a.path.as_str()),
            None => false,
        };
        if forget {
            self.default = None;
        }
        let mut gone: Vec<String> = Vec::new();
        let ghost was = self.outputs@;
        let mut i: usize = 0;
        let n = self.outputs.len();
        let ghost keys = self.outputs.keys();
        while i < n
            invariant
                i <= n == keys.len(),
                keys == self.outputs.keys(),
                was == self.outputs@,
                self.properties@ == old(self).properties@,
                self.default == (match old(self).default {
                    Some(a) => if files@.dom().contains(a.path@) {
                        Some(a)
                    } else {
                        None
                    },
                    None => None,
                }),
                crate::strmap::lists_keys(keys, was),
                forall|k: Seq<char>| #[trigger]
                    crate::text::texts(gone@).contains(k) <==> keys.take(i as int).contains(k)
                        && !files@.dom().contains(was[k].path@),
            decreases n - i,
        {
            let ghost before = crate::text::texts(gone@);
            let key = self.outputs.key_at(i);
            let ghost k0 = key@;
            proof {
                assert(keys.take(i + 1) =~= keys.take(i as int).push(k0));
                lemma_push_contains(keys.take(i as int), k0);
            }
            if !files.contains_key(self.outputs.value_at(i).path.as_str()) {
                gone.push(key.clone());
                proof {
                    assert(crate::text::texts(gone@) =~= before.push(k0));
                    lemma_push_contains(before, k0);
                }
            }
            i += 1;
        }
        remove_all(&mut self.outputs, &gone);
        proof {
            assert(keys.take(n as int) =~= keys);
            assert(self.outputs@ =~= with_files(was, files@.dom()));
        }
        let mut gone: Vec<String> = Vec::new();
        let ghost was = self.properties@;
        let mut i: usize = 0;
        let n = self.properties.len();
        let ghost keys = self.properties.keys();
        while i < n
            invariant
                i <= n == keys.len(),
                keys == self.properties.keys(),
                was == self.properties@,
                crate::strmap::lists_keys(keys, was),
                forall|k: Seq<char>| #[trigger]
                    crate::text::texts(gone@).contains(k) <==> keys.take(i as int).contains(k)
                        && !present@.dom().contains(k),
            decreases n - i,
        {
            let ghost before = crate::text::texts(gone@);
            let key = self.properties.key_at(i);
            let ghost k0 = key@;
            proof {
                assert(keys.take(i + 1) =~= keys.take(i as int).push(k0));
                lemma_push_contains(keys.take(i as int), k0);
            }
            if !present.contains_key(key.as_str()) {
                gone.push(key.clone());
                proof {
                    assert(crate::text::texts(gone@) =~= before.push(k0));
                    lemma_push_contains(before, k0);
                }
            }
            i += 1;
        }
        remove_all(&mut self.properties, &gone);
        proof {
            assert(keys.take(n as int) =~= keys);
            assert(self.properties@ =~= was.restrict(present@.dom()));
        }
    }

    /// A wallpaper's user properties with any saved values already applied. `key` is
    /// what its values are filed under, `declared` what it declares, and `finished`
    /// what was made of those saved values that are not settled.
    pub fn properties_for(
        &self,
        key: &str,
        declared: PropertySet,
        finished: &Vec<Option<Json>>,
    ) -> (r: PropertySet)
        requires
            saved_at(self.properties@, key@) matches Some(saved) ==> finished@.len()
                == crate::properties::saved_changes_in(declared@, saved).len(),
        ensures
            r@ == (match saved_at(self.properties@, key@) {
                Some(saved) => crate::properties::changed(
                    declared@,
                    crate::properties::saved_changes_in(declared@, saved),
                    crate::properties::opt_trees(finished@),
                    finished@.len() as int,
                ),
                None => declared@,
            }),
    {
        let mut set = declared;
        if let Some(saved) = self.properties.get(key) {
            set.apply_saved(saved, finished);
        }
        set
    }

    /// Set one property, validating it against the wallpaper's own declaration.
    ///
    /// Returns the value that was stored, which is the coerced one - a caller
    /// that asked for `99` on a `0..1` slider is told `1` rather than left
    /// believing its value took. It is merged into whatever was already saved, so
    /// setting one property does not silently reset the rest.
    pub fn set_property(
        &mut self,
        at: &str,
        declared: &PropertySet,
        key: &str,
        value: &Json,
        finished: Option<Json>,
    ) -> (r: Result<Json, PropertyError>)
        ensures
            answers(r, declared@, key@, value@, opt_tree(finished)),
            final(self).default == old(self).default,
            final(self).outputs == old(self).outputs,
            match r {
                Ok(v) => {
                    &&& final(self).properties@.dom() == old(self).properties@.dom().insert(at@)
                    &&& final(self).properties@[at@]@ == merged(
                        saved_at(old(self).properties@, at@),
                        key@,
                        v@,
                    )
                    &&& forall|k: Seq<char>|
                        k != at@ && old(self).properties@.dom().contains(k)
                            ==> #[trigger] final(self).properties@[k] == old(self).properties@[k]
                },
                Err(_) => final(self).properties == old(self).properties,
            },
    {
        let coerced = match check_property(declared, key, value) {
            Ok(c) => c,
            Err(e) => {
                return Err(e);
            },
        };
        let settled = match coerced {
            Coercion::Value(v) => v,
            _ => match finished {
                Some(v) => v,
                None => {
                    return Err(
                        PropertyError::Invalid(
                            match declared.get(key) {
                                Some(p) => p.kind.copy(),
                                None => PropertyKind::Group,
                            },
                        ),
                    );
                },
            },
        };
        let mut table: StrMap<Json> = match self.properties.get(at) {
            Some(Json::Table(m)) => copy_table(m),
            _ => StrMap::new(),
        };
        let ghost was = crate::effect::trees(table@);
        let mut inner: StrMap<Json> = StrMap::new();
        inner.insert("value".to_string(), settled.copy());
        let entry = Json::Table(inner);
        let ghost e = entry@;
        proof {
            assert(e->Table_0 =~= crate::properties::saved_entry(settled@)->Table_0);
        }
        table.insert(key.to_string(), entry);
        let document = Json::Table(table);
        proof {
            assert(document@->Table_0 =~= was.insert(key@, e));
            let stored = saved_at(old(self).properties@, at@);
            match stored {
                Some(crate::json::JsonTree::Table(m)) => {
                    assert(was =~= m);
                },
                _ => {
                    assert(was =~= Map::<Seq<char>, crate::json::JsonTree>::empty());
                },
            }
        }
        self.properties.insert(at.to_string(), document);
        proof {
            assert(self.properties@.dom() =~= old(self).properties@.dom().insert(at@));
        }
        Ok(settled)
    }
}

fn copy_table(m: &StrMap<Json>) -> (r: StrMap<Json>)
    ensures
        crate::effect::trees(r@) == crate::effect::trees(m@),
{
    let r = m.clone();
    proof {
        assert(crate::effect::trees(r@) =~= crate::effect::trees(m@));
    }
    r
}

proof fn lemma_push_contains(s: Seq<Seq<char>>, x: Seq<char>)
    ensures
        forall|k: Seq<char>| #[trigger] s.push(x).contains(k) <==> s.contains(k) || k == x,
{
    assert forall|k: Seq<char>| #[trigger] s.push(x).contains(k) <==> s.contains(k) || k == x by {
        let t = s.push(x);
        assert(t[s.len() as int] == x);
        if s.contains(k) {
            let j = s.index_of(k);
            assert(t[j] == k);
        }
        if t.contains(k) {
            let j = t.index_of(k);
            if j < s.len() {
                assert(s[j] == k);
            }
        }
    }
}

/// The changes that touch a property.
pub open spec fn touching(changes: Seq<crate::properties::ChangeModel>, i: int) -> Seq<
    crate::properties::ChangeModel,
> {
    changes.filter(|c: crate::properties::ChangeModel| c.index == i)
}

/// The change that a saved table makes to a property.
pub open spec fn own_change(
    list: Seq<crate::properties::PropertyModel>,
    m: Map<Seq<char>, crate::json::JsonTree>,
    i: int,
) -> Seq<crate::properties::ChangeModel> {
    if m.dom().contains(list[i].key) {
        match crate::properties::coerced(
            list[i],
            crate::properties::saved_value(m[list[i].key]),
        ) {
            Some(coercion) => seq![crate::properties::ChangeModel { index: i, coercion }],
            None => Seq::empty(),
        }
    } else {
        Seq::empty()
    }
}

proof fn lemma_entry_touches(
    list: Seq<crate::properties::PropertyModel>,
    key: Seq<char>,
    entry: crate::json::JsonTree,
    i: int,
)
    requires
        crate::properties::distinct_keys(list),
        0 <= i < list.len(),
    ensures
        key == list[i].key ==> touching(crate::properties::entry_change(list, key, entry), i)
            == crate::properties::entry_change(list, key, entry),
        key == list[i].key ==> crate::properties::index_of_key(list, key, 0) == Some(i),
        key != list[i].key ==> touching(crate::properties::entry_change(list, key, entry), i)
            == Seq::<crate::properties::ChangeModel>::empty(),
{
    let changes = crate::properties::entry_change(list, key, entry);
    let keep = |c: crate::properties::ChangeModel| c.index == i;
    reveal(Seq::filter);
    if key == list[i].key {
        crate::properties::lemma_index_of_key(list, i, 0);
    } else {
        lemma_index_has_key(list, key, 0);
    }
    if changes.len() == 1 {
        assert(changes.drop_last() =~= Seq::<crate::properties::ChangeModel>::empty());
        assert(changes.drop_last().filter(keep) =~= Seq::<crate::properties::ChangeModel>::empty());
        assert(touching(changes, i) =~= if keep(changes[0]) {
            changes
        } else {
            Seq::empty()
        });
    } else {
        assert(touching(changes, i) =~= Seq::<crate::properties::ChangeModel>::empty());
    }
}

proof fn lemma_index_has_key(
    list: Seq<crate::properties::PropertyModel>,
    key: Seq<char>,
    from: int,
)
    requires
        0 <= from,
    ensures
        crate::properties::index_of_key(list, key, from) matches Some(i) ==> 0 <= i < list.len()
            && list[i].key == key,
    decreases list.len() - from,
{
    if from < list.len() && list[from].key != key {
        lemma_index_has_key(list, key, from + 1);
    }
}

/// The changes that the first `n` keys make to a property are that of its own key.
proof fn lemma_touching(
    list: Seq<crate::properties::PropertyModel>,
    m: Map<Seq<char>, crate::json::JsonTree>,
    keys: Seq<Seq<char>>,
    n: nat,
    i: int,
)
    requires
        crate::properties::distinct_keys(list),
        0 <= i < list.len(),
        m.dom().finite(),
        !m.dom().contains("general"@),
        n <= keys.len(),
        keys.no_duplicates(),
        forall|j: int| 0 <= j < keys.len() ==> m.dom().contains(#[trigger] keys[j]),
    ensures
        touching(crate::properties::changes_upto(list, m, keys, n), i) == (if keys.take(
            n as int,
        ).contains(list[i].key) {
            own_change(list, m, i)
        } else {
            Seq::empty()
        }),
    decreases n,
{
    let keep = |c: crate::properties::ChangeModel| c.index == i;
    let none = Seq::<crate::properties::ChangeModel>::empty();
    if n == 0 {
        reveal(Seq::filter);
        assert(!keys.take(0).contains(list[i].key));
        assert(touching(none, i) =~= none);
    } else {
        let before = (n - 1) as nat;
        lemma_touching(list, m, keys, before, i);
        let key = keys[n - 1];
        assert(m.dom().contains(key));
        let earlier = crate::properties::changes_upto(list, m, keys, before);
        let entry = crate::properties::entry_change(list, key, m[key]);
        assert(crate::properties::changes_upto(list, m, keys, n) == earlier + entry);
        Seq::filter_distributes_over_add(earlier, entry, keep);
        lemma_entry_touches(list, key, m[key], i);
        assert(keys.take(n as int) =~= keys.take(before as int).push(key));
        lemma_push_contains(keys.take(before as int), key);
        if key == list[i].key {
            if keys.take(before as int).contains(key) {
                let j = keys.take(before as int).index_of(key);
                assert(keys[j] == key && keys[n - 1] == key);
            }
            assert(touching(entry, i) == own_change(list, m, i));
            assert(touching(earlier + entry, i) =~= none + own_change(list, m, i));
            assert(none + own_change(list, m, i) =~= own_change(list, m, i));
        } else {
            assert(touching(earlier + entry, i) =~= touching(earlier, i) + none);
            assert(touching(earlier, i) + none =~= touching(earlier, i));
        }
    }
}

/// Of a saved table, only the entry under a property's own key changes it.
proof fn lemma_only_own_change(
    list: Seq<crate::properties::PropertyModel>,
    m: Map<Seq<char>, crate::json::JsonTree>,
    i: int,
)
    requires
        crate::properties::distinct_keys(list),
        0 <= i < list.len(),
        m.dom().finite(),
        !m.dom().contains("general"@),
    ensures
        touching(
            crate::properties::saved_changes_in(list, crate::json::JsonTree::Table(m)),
            i,
        ) == own_change(list, m, i),
{
    let keys = crate::strmap::listing(m.dom());
    crate::strmap::lemma_listing_exists(m.dom());
    assert(crate::strmap::listed(keys, m.dom()));
    assert forall|a: int, b: int| 0 <= a < keys.len() && 0 <= b < keys.len() && a != b implies keys[a]
        != keys[b] by {
        crate::strmap::lemma_before_irreflexive(keys[a]);
        if a < b {
            assert(crate::strmap::before(keys[a], keys[b]));
        } else {
            assert(crate::strmap::before(keys[b], keys[a]));
        }
    }
    assert forall|j: int| 0 <= j < keys.len() implies m.dom().contains(#[trigger] keys[j]) by {
        assert(keys.contains(keys[j]));
    }
    lemma_touching(list, m, keys, keys.len(), i);
    assert(keys.take(keys.len() as int) =~= keys);
    assert(keys.contains(list[i].key) == m.dom().contains(list[i].key));
}

/// A property that one settled change touches, or none, has the value of that change,
/// or its own.
proof fn lemma_one_change(
    list: Seq<crate::properties::PropertyModel>,
    changes: Seq<crate::properties::ChangeModel>,
    finished: Seq<Option<crate::json::JsonTree>>,
    i: int,
    n: int,
)
    requires
        0 <= n <= changes.len(),
        0 <= i < list.len(),
        touching(changes.take(n), i).len() <= 1,
        touching(changes.take(n), i).len() == 1 ==> touching(changes.take(n), i)[0].coercion is Value,
    ensures
        crate::properties::changed(list, changes, finished, n)[i] == (if touching(
            changes.take(n),
            i,
        ).len() == 1 {
            crate::properties::with_value(
                list[i],
                touching(changes.take(n), i)[0].coercion->Value_0,
            )
        } else {
            list[i]
        }),
        crate::properties::changed(list, changes, finished, n).len() == list.len(),
    decreases n,
{
    reveal(Seq::filter);
    crate::properties::lemma_changed_len(list, changes, finished, n);
    if n > 0 {
        crate::properties::lemma_changed_len(list, changes, finished, n - 1);
        let c = changes[n - 1];
        assert(changes.take(n).drop_last() =~= changes.take(n - 1));
        assert(changes.take(n).last() == c);
        let keep = |c: crate::properties::ChangeModel| c.index == i;
        let before = touching(changes.take(n - 1), i);
        if c.index == i {
            assert(touching(changes.take(n), i) == before.push(c));
            assert(before.push(c).len() == before.len() + 1);
            lemma_one_change(list, changes, finished, i, n - 1);
            assert(touching(changes.take(n), i)[0] == c);
        } else {
            assert(touching(changes.take(n), i) == before);
            lemma_one_change(list, changes, finished, i, n - 1);
        }
    } else {
        assert(changes.take(0) =~= Seq::<crate::properties::ChangeModel>::empty());
    }
}

/// The properties with a saved table applied.
pub open spec fn with_saved(
    list: Seq<crate::properties::PropertyModel>,
    m: Map<Seq<char>, crate::json::JsonTree>,
    finished: Seq<Option<crate::json::JsonTree>>,
) -> Seq<crate::properties::PropertyModel> {
    let changes = crate::properties::saved_changes_in(list, crate::json::JsonTree::Table(m));
    crate::properties::changed(list, changes, finished, changes.len() as int)
}

/// A value that was set is the one that is read back. A table in which a whole
/// document stands, under `general`, is left out: what it holds is read too.
pub proof fn law_a_set_value_is_read_back(
    list: Seq<crate::properties::PropertyModel>,
    m: Map<Seq<char>, crate::json::JsonTree>,
    i: int,
    input: crate::json::JsonTree,
    value: crate::json::JsonTree,
    finished: Seq<Option<crate::json::JsonTree>>,
)
    requires
        crate::properties::distinct_keys(list),
        0 <= i < list.len(),
        m.dom().finite(),
        !m.dom().contains("general"@),
        list[i].key != "general"@,
        crate::properties::coerced(list[i], input) == Some(
            crate::properties::CoercionModel::Value(value),
        ),
    ensures
        merged(Some(crate::json::JsonTree::Table(m)), list[i].key, value)
            matches crate::json::JsonTree::Table(now) && with_saved(list, now, finished)[i]
            == crate::properties::with_value(list[i], value),
{
    let now = m.insert(list[i].key, crate::properties::saved_entry(value));
    let changes = crate::properties::saved_changes_in(list, crate::json::JsonTree::Table(now));
    assert(now.dom() =~= m.dom().insert(list[i].key));
    lemma_only_own_change(list, now, i);
    crate::properties::law_coercing_twice_is_coercing_once(list[i], input);
    assert(crate::properties::saved_value(crate::properties::saved_entry(value)) == value);
    assert(changes.take(changes.len() as int) =~= changes);
    lemma_one_change(list, changes, finished, i, changes.len() as int);
}

/// Setting one property does not reset the rest: any other has the value that it had,
/// where its saved value is settled. A table in which a whole document stands, under
/// `general`, is left out.
pub proof fn law_setting_one_keeps_the_others(
    list: Seq<crate::properties::PropertyModel>,
    m: Map<Seq<char>, crate::json::JsonTree>,
    i: int,
    j: int,
    value: crate::json::JsonTree,
    finished: Seq<Option<crate::json::JsonTree>>,
    finished_before: Seq<Option<crate::json::JsonTree>>,
)
    requires
        crate::properties::distinct_keys(list),
        0 <= i < list.len(),
        0 <= j < list.len(),
        i != j,
        m.dom().finite(),
        !m.dom().contains("general"@),
        list[i].key != "general"@,
        own_change(list, m, j).len() == 1 ==> own_change(list, m, j)[0].coercion is Value,
    ensures
        merged(Some(crate::json::JsonTree::Table(m)), list[i].key, value)
            matches crate::json::JsonTree::Table(now) && with_saved(list, now, finished)[j]
            == with_saved(list, m, finished_before)[j],
{
    let now = m.insert(list[i].key, crate::properties::saved_entry(value));
    let changes = crate::properties::saved_changes_in(list, crate::json::JsonTree::Table(now));
    let before = crate::properties::saved_changes_in(list, crate::json::JsonTree::Table(m));
    assert(now.dom() =~= m.dom().insert(list[i].key));
    if i < j {
        assert(list[i].key != list[j].key);
    } else {
        assert(list[j].key != list[i].key);
    }
    lemma_only_own_change(list, now, j);
    lemma_only_own_change(list, m, j);
    assert(own_change(list, now, j) == own_change(list, m, j));
    assert(changes.take(changes.len() as int) =~= changes);
    assert(before.take(before.len() as int) =~= before);
    lemma_one_change(list, changes, finished, j, changes.len() as int);
    lemma_one_change(list, before, finished_before, j, before.len() as int);
}

/// Pruning forgets exactly what is gone, and nothing more the second time.
pub proof fn law_pruning_keeps_what_is_there(
    outputs: Map<Seq<char>, Assignment>,
    files: Set<Seq<char>>,
    name: Seq<char>,
)
    requires
        outputs.dom().contains(name),
    ensures
        with_files(outputs, files).dom().contains(name) <==> files.contains(outputs[name].path@),
        with_files(outputs, files).dom().contains(name) ==> with_files(outputs, files)[name]
            == outputs[name],
        with_files(with_files(outputs, files), files) == with_files(outputs, files),
{
    let once = with_files(outputs, files);
    assert(with_files(once, files) =~= once);
}

/// The files lie where their variable says, and below the user's home where it says
/// nothing; without a home there is none.
pub proof fn law_files_have_their_place(
    named: Option<String>,
    home: Option<String>,
    config: Option<String>,
    state: Option<String>,
)
    requires
        call_ensures(config_path, (&named, &home), config),
        call_ensures(state_path, (&named, &home), state),
        named matches Some(d) ==> d@.len() > 0 && d@.last() != '/',
        home matches Some(d) ==> d@.len() > 0 && d@.last() != '/',
    ensures
        named matches Some(d) ==> crate::text::opt_text(config) == Some(
            d@ + "/hyprwpe/config.toml"@,
        ) && crate::text::opt_text(state) == Some(d@ + "/hyprwpe/state.json"@),
        named is None ==> (home matches Some(d) ==> crate::text::opt_text(config) == Some(
            d@ + "/.config/hyprwpe/config.toml"@,
        ) && crate::text::opt_text(state) == Some(d@ + "/.local/state/hyprwpe/state.json"@)),
        named is None && home is None ==> config is None && state is None,
{
    reveal_strlit("/hyprwpe/config.toml");
    reveal_strlit("hyprwpe/config.toml");
    reveal_strlit("/hyprwpe/state.json");
    reveal_strlit("hyprwpe/state.json");
    reveal_strlit(".config");
    reveal_strlit(".local/state");
    reveal_strlit("/.config/hyprwpe/config.toml");
    reveal_strlit("/.local/state/hyprwpe/state.json");
    if let Some(d) = named {
        assert(d@.push('/') + "hyprwpe/config.toml"@ =~= d@ + "/hyprwpe/config.toml"@);
        assert(d@.push('/') + "hyprwpe/state.json"@ =~= d@ + "/hyprwpe/state.json"@);
    } else if let Some(d) = home {
        let a = d@.push('/') + ".config"@;
        let b = d@.push('/') + ".local/state"@;
        assert(a.push('/') + "hyprwpe/config.toml"@ =~= d@ + "/.config/hyprwpe/config.toml"@);
        assert(b.push('/') + "hyprwpe/state.json"@ =~= d@ + "/.local/state/hyprwpe/state.json"@);
    }
}

/// A path below a tilde lies below the user's home; a path that begins otherwise is left
/// as it is, and so is every path where there is no home.
pub proof fn law_a_tilde_is_the_home(home: Seq<char>, below: Seq<char>, path: Seq<char>, c: char)
    requires
        home.len() > 0 && home.last() != '/',
        below.len() > 0,
        below[0] != '/' && below[0] != '.',
        below.last() != '/' && below.last() != '.',
        path.len() > 0 ==> path[0] != '~',
        c != '/',
    ensures
        expanded("~/"@ + below, Some(home)) == home + seq!['/'] + below,
        expanded("~/"@ + below + "/"@, Some(home)) == home + seq!['/'] + below,
        expanded("~/./"@ + below, Some(home)) == home + seq!['/'] + below,
        expanded("~"@, Some(home)) == home + seq!['/'],
        expanded(seq!['~', c] + below, Some(home)) == seq!['~', c] + below,
        expanded(path, Some(home)) == path,
        expanded("~/"@ + below, None) == "~/"@ + below,
{
    reveal_strlit("~/");
    reveal_strlit("~/./");
    reveal_strlit("/");
    reveal_strlit("~");
    let slash = seq!['/'] + below;
    let trail = slash.push('/');
    let dotted = seq!['/', '.', '/'] + below;
    let none = Seq::<char>::empty();
    assert(("~/"@ + below).skip(1) =~= slash);
    assert(("~/"@ + below + "/"@).skip(1) =~= trail);
    assert(("~/./"@ + below).skip(1) =~= dotted);
    assert("~"@.skip(1) =~= none);
    assert(slash.skip(1) =~= below);
    assert(trail.skip(1) =~= below.push('/'));
    assert(dotted.skip(1) =~= seq!['.', '/'] + below);
    assert((seq!['.', '/'] + below).skip(1) =~= slash);
    assert(without_lead(below) == below);
    assert(without_lead(below.push('/')) == below.push('/'));
    assert(without_lead(slash) == below);
    assert(without_lead(seq!['.', '/'] + below) == without_lead(slash));
    assert(without_lead(dotted) == below);
    assert(without_lead(trail) == below.push('/'));
    assert(below.push('/').drop_last() =~= below);
    assert(without_trail(below) == below);
    assert(without_trail(below.push('/')) == below);
    assert(home.push('/') + below =~= home + seq!['/'] + below);
    assert(home.push('/') + none =~= home + seq!['/']);
    assert((seq!['~', c] + below)[1] == c);
}

/// The configured sources are those that are listed, in their order and each of its own
/// kind; where none is, those that were detected are taken.
pub proof fn law_configured_sources_come_first(
    config: Config,
    home: Option<String>,
    detected: Vec<Source>,
    r: Vec<Source>,
    i: int,
)
    requires
        call_ensures(Config::sources, (&config, &home, &detected), r),
    ensures
        config.sources@.len() == 0 ==> r@.len() == detected@.len() && (0 <= i < r@.len() ==> r@[i]@
            == detected@[i]@),
        config.sources@.len() > 0 ==> r@.len() == config.sources@.len() && (0 <= i < r@.len() ==> {
            &&& config.sources@[i] matches SourceConfig::Workshop { path } ==> r@[i]@
                == crate::catalog::SourceModel::Workshop(
                expanded(path@, crate::text::opt_text(home)),
            )
            &&& config.sources@[i] matches SourceConfig::Directory { path, recursive } ==> r@[i]@
                == (crate::catalog::SourceModel::Directory {
                path: expanded(path@, crate::text::opt_text(home)),
                recursive,
            })
        }),
{
    let views = crate::catalog::source_views(r@);
    assert(views.len() == r@.len());
    assert(crate::catalog::source_views(detected@).len() == detected@.len());
    if 0 <= i < r@.len() {
        assert(views[i] == r@[i]@);
        if config.sources@.len() == 0 {
            assert(crate::catalog::source_views(detected@)[i] == detected@[i]@);
        }
    }
}

/// As many frames as the limit fit into a second, and no shorter interval would do; no
/// limit is no interval. The delay before suspending is so many milliseconds.
pub proof fn law_frames_keep_to_their_limit(g: General, r: Option<u64>, d: u128, s: General)
    requires
        call_ensures(General::frame_interval, (&g,), r),
        call_ensures(General::suspend_delay, (&g,), d),
        call_ensures(<General as Default>::default, (), s),
    ensures
        r is None == (g.fps_limit == 0),
        0 < g.fps_limit <= 1000 ==> (r matches Some(ms) && ms * g.fps_limit <= 1000 && (ms + 1)
            * g.fps_limit > 1000),
        g.fps_limit > 1000 ==> r == Some(1u64),
        d == g.suspend_delay_ms * 1000 * 1000,
        s.fps_limit == 0 && s.pause_on_fullscreen,
{
    let f = g.fps_limit as int;
    if 0 < f <= 1000 {
        let q = 1000int / f;
        assert(q * f <= 1000 && (q + 1) * f > 1000 && 0 <= q <= 1000) by (nonlinear_arith)
            requires
                0 < f <= 1000,
                q == 1000int / f,
        ;
        assert(r == Some(q as u64));
    }
}

/// A value that is saved stands under its key, and what was saved under others stays; what
/// was no table is no loss.
pub proof fn law_saving_keeps_the_rest(
    m: Map<Seq<char>, crate::json::JsonTree>,
    stored: Option<crate::json::JsonTree>,
    key: Seq<char>,
    other: Seq<char>,
    value: crate::json::JsonTree,
)
    requires
        key != other,
        !(stored matches Some(crate::json::JsonTree::Table(_))),
    ensures
        crate::json::field(
            merged(Some(crate::json::JsonTree::Table(m)), key, value),
            other,
        ) == crate::json::field(crate::json::JsonTree::Table(m), other),
        crate::json::field(
            merged(Some(crate::json::JsonTree::Table(m)), key, value),
            key,
        ) matches Some(e) && crate::json::field(e, "value"@) == Some(value),
        crate::json::field(merged(stored, key, value), other) is None,
        crate::json::field(merged(stored, key, value), key) matches Some(e) && crate::json::field(
            e,
            "value"@,
        ) == Some(value),
{
}

/// The keys that a user is told are those of the properties that can be set, in their
/// order.
pub proof fn law_the_keys_told_can_be_set(
    list: Seq<crate::properties::PropertyModel>,
    p: crate::properties::PropertyModel,
)
    ensures
        editable_keys(list.push(p)) == (if p.kind.editable() {
            editable_keys(list).push(p.key)
        } else {
            editable_keys(list)
        }),
        editable_keys(Seq::empty()).len() == 0,
{
    reveal(Seq::filter);
    let keep = |p: crate::properties::PropertyModel| p.kind.editable();
    assert(list.push(p).drop_last() =~= list);
    let none = Seq::<crate::properties::PropertyModel>::empty();
    assert(none.filter(keep).len() == 0);
    if p.kind.editable() {
        assert(list.push(p).filter(keep) == list.filter(keep).push(p));
        assert(editable_keys(list.push(p)) =~= editable_keys(list).push(p.key));
    } else {
        assert(list.push(p).filter(keep) == list.filter(keep));
    }
}

/// Setting a property is answered with its value, or with why not: that the wallpaper has
/// none, that it has none of that key, that it is a label, or that the value does not fit.
pub proof fn law_every_setting_is_answered(
    r: Result<Json, PropertyError>,
    list: Seq<crate::properties::PropertyModel>,
    i: int,
    key: Seq<char>,
    value: crate::json::JsonTree,
    finished: Option<crate::json::JsonTree>,
)
    requires
        answers(r, list, key, value, finished),
    ensures
        list.len() == 0 ==> r matches Err(PropertyError::NoProperties),
        list.len() > 0 && (forall|j: int| 0 <= j < list.len() ==> (#[trigger] list[j]).key != key)
            ==> (r matches Err(PropertyError::Unknown { known }) && crate::text::texts(known@)
            == editable_keys(list)),
        crate::properties::distinct_keys(list) && 0 <= i < list.len() && list[i].key == key ==> {
            &&& !list[i].kind.editable() ==> (r matches Err(PropertyError::NotEditable(kind))
                && kind@ == list[i].kind)
            &&& list[i].kind.editable() && crate::properties::coerced(list[i], value) is None ==> (
            r matches Err(PropertyError::Invalid(kind)) && kind@ == list[i].kind)
            &&& list[i].kind.editable() ==> (crate::properties::coerced(list[i], value) matches Some(
                crate::properties::CoercionModel::Value(v),
            ) ==> (r matches Ok(j) && j@ == v))
        },
{
    if list.len() > 0 {
        lemma_index_has_key(list, key, 0);
        if 0 <= i < list.len() && list[i].key == key && crate::properties::distinct_keys(list) {
            crate::properties::lemma_index_of_key(list, i, 0);
        }
    }
}

} // verus!
