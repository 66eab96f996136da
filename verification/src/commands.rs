//! What the command line client decides and shows.
use vstd::prelude::*;
use crate::catalog::{Catalog, Kind, Problem, Source, Wallpaper, WallpaperId};
use crate::json::{parse_json, Json, JsonNumber};
use crate::numbers::decimal;
use crate::paths::join_path;
use crate::properties::{ComboOption, Property};
use crate::protocol::{OutputStatus, Request, Status, Target};
use crate::text::{join_with, push_chars, push_padded, push_text, quoted, same_text};

verus! {

/// A child of a directory that a user names as a source.
#[derive(Debug, Clone, Copy, PartialEq, Eq)]
pub struct Child {
    pub is_dir: bool,
    /// Whether it holds a `project.json`.
    pub has_project: bool,
}

/// Whether a directory looks like Workshop content.
pub open spec fn is_workshop(children: Seq<Child>) -> bool {
    exists|i: int|
        0 <= i < children.len() && (#[trigger] children[i]).is_dir && children[i].has_project
}

/// A directory holding `project.json` children is a Workshop root; anything else
/// is a plain image directory. Saves the user from stating which is which. An
/// unreadable directory has no children.
pub fn source_for(path: &str, children: &Vec<Child>) -> (r: Source)
    ensures
        r@ == (if is_workshop(children@) {
            crate::catalog::SourceModel::Workshop(path@)
        } else {
            crate::catalog::SourceModel::Directory { path: path@, recursive: true }
        }),
{
    let mut i: usize = 0;
    while i < children.len()
        invariant
            i <= children@.len(),
            forall|j: int|
                0 <= j < i ==> !((#[trigger] children@[j]).is_dir && children@[j].has_project),
        decreases children@.len() - i,
    {
        if children[i].is_dir && children[i].has_project {
            proof {
                assert(children@[i as int].is_dir);
            }
            return Source::Workshop(path.to_string());
        }
        i += 1;
    }
    Source::Directory { path: path.to_string(), recursive: true }
}

/// The first wallpaper, from `i` on, that goes by a name.
pub open spec fn first_named(
    list: Seq<crate::catalog::WallpaperModel>,
    name: Seq<char>,
    i: int,
) -> Option<int>
    decreases list.len() - i,
{
    if i < 0 || i >= list.len() {
        None
    } else if list[i].id.text() == name {
        Some(i)
    } else {
        first_named(list, name, i + 1)
    }
}

/// Where in the catalog the wallpaper of an id, or of a path, stands.
pub fn find_wallpaper(catalog: &Catalog, name: &str) -> (r: Option<usize>)
    ensures
        match r {
            Some(i) => i < catalog.wallpapers@.len() && first_named(
                crate::catalog::wallpaper_views(catalog.wallpapers@),
                name@,
                0,
            ) == Some(i as int),
            None => first_named(
                crate::catalog::wallpaper_views(catalog.wallpapers@),
                name@,
                0,
            ) is None,
        },
{
    let ghost list = crate::catalog::wallpaper_views(catalog.wallpapers@);
    let mut i: usize = 0;
    while i < catalog.wallpapers.len()
        invariant
            i <= catalog.wallpapers@.len(),
            list == crate::catalog::wallpaper_views(catalog.wallpapers@),
            first_named(list, name@, 0) == first_named(list, name@, i as int),
        decreases catalog.wallpapers@.len() - i,
    {
        proof {
            assert(list[i as int] == catalog.wallpapers@[i as int]@);
        }
        if same_text(catalog.wallpapers[i].id.label(), name) {
            return Some(i);
        }
        i += 1;
    }
    None
}

/// Why there is nothing to show.
#[derive(Debug, Clone, PartialEq, Eq)]
pub enum ResolveError {
    /// Neither a readable file nor a known wallpaper.
    Unknown { name: String },
    /// The wallpaper ships no file to play.
    NoMedia { title: String, kind: Kind },
    /// The wallpaper is of a kind that cannot be rendered.
    Unsupported { title: String, kind: Kind },
}

/// What an error stands for.
pub ghost enum ResolveModel {
    Unknown { name: Seq<char> },
    NoMedia { title: Seq<char>, kind: Kind },
    Unsupported { title: Seq<char>, kind: Kind },
}

impl View for ResolveError {
    type V = ResolveModel;

    open spec fn view(&self) -> ResolveModel {
        match self {
            ResolveError::Unknown { name } => ResolveModel::Unknown { name: name@ },
            ResolveError::NoMedia { title, kind } => ResolveModel::NoMedia {
                title: title@,
                kind: *kind,
            },
            ResolveError::Unsupported { title, kind } => ResolveModel::Unsupported {
                title: title@,
                kind: *kind,
            },
        }
    }
}

/// What a user is told of an error.
pub open spec fn resolve_message(e: ResolveModel) -> Seq<char> {
    match e {
        ResolveModel::Unknown { name } => crate::text::in_quotes(name)
            + " is neither a readable file nor a known wallpaper id"@,
        ResolveModel::NoMedia { title, kind } => crate::text::in_quotes(title)
            + " declares itself a "@ + crate::catalog::kind_name(kind)
            + " wallpaper but ships no file to play"@,
        ResolveModel::Unsupported { title, kind } => crate::text::in_quotes(title) + " is a "@
            + crate::catalog::kind_name(kind) + " wallpaper, which hyprwpe cannot render yet"@,
    }
}

impl ResolveError {
    /// What a user is told of it.
    pub fn message(&self) -> (r: String)
        ensures
            r@ == resolve_message(self@),
    {
        let mut out = String::new();
        match self {
            ResolveError::Unknown { name } => {
                push_text(&mut out, quoted(name.as_str()).as_str());
                push_text(&mut out, " is neither a readable file nor a known wallpaper id");
            },
            ResolveError::NoMedia { title, kind } => {
                push_text(&mut out, quoted(title.as_str()).as_str());
                push_text(&mut out, " declares itself a ");
                push_text(&mut out, kind.as_str());
                push_text(&mut out, " wallpaper but ships no file to play");
            },
            ResolveError::Unsupported { title, kind } => {
                push_text(&mut out, quoted(title.as_str()).as_str());
                push_text(&mut out, " is a ");
                push_text(&mut out, kind.as_str());
                push_text(&mut out, " wallpaper, which hyprwpe cannot render yet");
            },
        }
        proof {
            assert(out@ =~= resolve_message(self@));
        }
        out
    }
}

/// The file that what a user typed stands for. `found` is the wallpaper of that name
/// in the catalog, `media` the file inside it that is actually the wallpaper.
pub open spec fn resolved(
    name: Seq<char>,
    is_file: bool,
    found: Option<crate::catalog::WallpaperModel>,
    media: Option<Seq<char>>,
) -> Result<Seq<char>, ResolveModel> {
    if is_file {
        Ok(name)
    } else {
        match found {
            None => Err(ResolveModel::Unknown { name }),
            Some(w) => if w.kind == Kind::Web {
                Err(ResolveModel::Unsupported { title: w.title, kind: w.kind })
            } else {
                match media {
                    Some(file) => Ok(file),
                    None => Err(ResolveModel::NoMedia { title: w.title, kind: w.kind }),
                }
            },
        }
    }
}

/// Turn what the user typed into a file the daemon can render.
///
/// A path is used directly. Anything else is looked up in the catalog, so
/// `hyprwpe set 2904275363` works straight from a `list`. Wallpapers hyprwpe
/// cannot render yet are refused by name rather than silently ignored.
pub fn resolve(
    name: &str,
    is_file: bool,
    found: Option<&Wallpaper>,
    media: &Option<String>,
) -> (r: Result<String, ResolveError>)
    ensures
        match r {
            Ok(path) => resolved(
                name@,
                is_file,
                match found {
                    Some(w) => Some(w@),
                    None => None,
                },
                crate::text::opt_text(*media),
            ) == Ok::<Seq<char>, ResolveModel>(path@),
            Err(e) => resolved(
                name@,
                is_file,
                match found {
                    Some(w) => Some(w@),
                    None => None,
                },
                crate::text::opt_text(*media),
            ) == Err::<Seq<char>, ResolveModel>(e@),
        },
{
    if is_file {
        return Ok(name.to_string());
    }
    match found {
        None => Err(ResolveError::Unknown { name: name.to_string() }),
        Some(w) => {
            if w.kind == Kind::Web {
                return Err(ResolveError::Unsupported { title: w.title.clone(), kind: w.kind });
            }
            match media {
                Some(file) => Ok(file.clone()),
                None => Err(ResolveError::NoMedia { title: w.title.clone(), kind: w.kind }),
            }
        },
    }
}

/// The file that is to be played, where `file` is the one that a Workshop item's
/// project names: a scene's is its package, and a file is played itself.
pub open spec fn media_in(w: crate::catalog::WallpaperModel, file: Option<Seq<char>>) -> Option<
    Seq<char>,
> {
    match w.id {
        crate::catalog::IdModel::File(path) => Some(path),
        crate::catalog::IdModel::Wpe(_) => if w.kind == Kind::Scene {
            Some(crate::paths::joined_path(w.path, "scene.pkg"@))
        } else {
            match file {
                Some(f) => Some(crate::paths::joined_path(w.path, f)),
                None => None,
            }
        },
    }
}

/// The file that is to be played. A Workshop item is a directory; its project names the
/// file inside it that is actually the wallpaper.
pub fn media_of(w: &Wallpaper, file: &Option<String>) -> (r: Option<String>)
    ensures
        crate::text::opt_text(r) == media_in(w@, crate::text::opt_text(*file)),
{
    match &w.id {
        WallpaperId::File(path) => Some(path.clone()),
        WallpaperId::Wpe(_) => if w.kind == Kind::Scene {
            Some(join_path(w.path.as_str(), "scene.pkg"))
        } else {
            match file {
                Some(f) => Some(join_path(w.path.as_str(), f.as_str())),
                None => None,
            }
        },
    }
}

/// The request that shows a wallpaper: on one output, or on all.
pub fn show_request(path: String, output: Option<String>, scaling: String) -> (r: Request)
    ensures
        r matches Request::Show { path: p, target, scaling: s } && p == path && s == scaling
            && target@ == crate::text::opt_text(output),
{
    let target = match output {
        Some(name) => Target::Output(name),
        None => Target::All,
    };
    Request::Show { path, target, scaling }
}

/// The value that a user writes.
pub open spec fn value_written(raw: Seq<char>) -> crate::json::JsonTree {
    match crate::json::json_read(raw) {
        Some(t) => t,
        None => crate::json::JsonTree::Text(raw),
    }
}

/// Parse a value the way a user would write it.
///
/// JSON first, so `0.5`, `true`, `"a string"` and numbers keep their types;
/// a bare word that is not valid JSON is taken as a string, because that is
/// what someone typing `hyprwpe set-property X mode Rain` means.
pub fn parse_value(raw: &str) -> (r: Json)
    ensures
        r@ == value_written(raw@),
{
    match parse_json(raw) {
        Some(j) => j,
        None => Json::Text(raw.to_string()),
    }
}

/// An option of a dropdown, for a listing.
pub open spec fn option_text(o: crate::properties::OptionModel) -> Seq<char> {
    o.label.push('=') + o.value
}

/// The options of a dropdown, for a listing.
pub open spec fn options_text(list: Seq<crate::properties::OptionModel>) -> Seq<char> {
    crate::text::parted(Seq::new(list.len(), |i: int| option_text(list[i])), ", "@)
}

fn write_options(list: &Vec<ComboOption>) -> (r: String)
    ensures
        r@ == options_text(crate::properties::option_views(list@)),
{
    let ghost model = crate::properties::option_views(list@);
    let mut out: Vec<String> = Vec::new();
    let mut i: usize = 0;
    while i < list.len()
        invariant
            i <= list@.len() == model.len(),
            model == crate::properties::option_views(list@),
            out@.len() == i,
            forall|j: int| 0 <= j < i ==> (#[trigger] out@[j])@ == option_text(model[j]),
        decreases list@.len() - i,
    {
        let mut one = String::new();
        push_text(&mut one, list[i].label.as_str());
        one.push('=');
        push_text(&mut one, list[i].value.as_str());
        proof {
            assert(model[i as int] == list@[i as int]@);
            assert(one@ =~= option_text(model[i as int]));
        }
        out.push(one);
        i += 1;
    }
    proof {
        assert(crate::text::texts(out@) =~= Seq::new(
            model.len(),
            |i: int| option_text(model[i]),
        ));
    }
    join_with(&out, ", ")
}

/// A property's line in a listing. `range` is the bounds of a slider as `min..max`.
pub open spec fn property_text(
    p: crate::properties::PropertyModel,
    range: Option<Seq<char>>,
) -> Seq<char> {
    let start = crate::text::padded(p.key, 28).push(' ') + crate::text::padded(
        p.kind.name(),
        9,
    ).push(' ') + crate::json::json_text(p.value);
    let bounds = match range {
        Some(r) => "   ("@ + r + ")"@,
        None => Seq::empty(),
    };
    let choices = if p.options.len() > 0 {
        "   ["@ + options_text(p.options) + "]"@
    } else {
        Seq::empty()
    };
    let note = if p.kind.editable() {
        Seq::empty()
    } else {
        "   (label, not a value)"@
    };
    let label = if p.text.len() > 0 && p.text != p.key {
        "   # "@ + p.text
    } else {
        Seq::empty()
    };
    start + bounds + choices + note + label
}

/// A property's line in a listing.
pub fn property_line(p: &Property, range: &Option<String>) -> (r: String)
    ensures
        r@ == property_text(p@, crate::text::opt_text(*range)),
{
    let mut out = String::new();
    push_padded(&mut out, p.key.as_str(), 28);
    out.push(' ');
    push_padded(&mut out, p.kind.as_str(), 9);
    out.push(' ');
    push_text(&mut out, p.value.written().as_str());
    if let Some(bounds) = range {
        push_text(&mut out, "   (");
        push_text(&mut out, bounds.as_str());
        push_text(&mut out, ")");
    }
    proof {
        assert(p@.options.len() == p.options@.len());
    }
    if p.options.len() > 0 {
        push_text(&mut out, "   [");
        push_text(&mut out, write_options(&p.options).as_str());
        push_text(&mut out, "]");
    }
    if !p.kind.is_editable() {
        push_text(&mut out, "   (label, not a value)");
    }
    if !p.text.as_str().is_empty() && !same_text(p.text.as_str(), p.key.as_str()) {
        push_text(&mut out, "   # ");
        push_text(&mut out, p.text.as_str());
    }
    proof {
        assert(out@ =~= property_text(p@, crate::text::opt_text(*range)));
    }
    out
}

/// A signed number in decimal.
pub open spec fn signed_text(n: int) -> Seq<char> {
    if n < 0 {
        seq!['-'] + crate::numbers::decimal_text((-n) as nat)
    } else {
        crate::numbers::decimal_text(n as nat)
    }
}

/// An output's line in the status.
pub open spec fn output_text(o: OutputStatus) -> Seq<char> {
    crate::text::padded(o.name@, 10).push(' ') + crate::numbers::decimal_text(o.width as nat).push(
        'x',
    ) + crate::numbers::decimal_text(o.height as nat) + " @"@ + signed_text(o.scale as int) + "x  "@
        + crate::text::padded(
        match o.scaling {
            Some(s) => s@,
            None => "-"@,
        },
        8,
    ).push(' ') + match o.wallpaper {
        Some(p) => p@,
        None => "(none)"@,
    }
}

fn output_line(o: &OutputStatus) -> (r: String)
    ensures
        r@ == output_text(*o),
{
    let mut out = String::new();
    push_padded(&mut out, o.name.as_str(), 10);
    out.push(' ');
    push_chars(&mut out, decimal(o.width as u64).as_slice());
    out.push('x');
    push_chars(&mut out, decimal(o.height as u64).as_slice());
    push_text(&mut out, " @");
    push_text(&mut out, JsonNumber::Negative(o.scale as i64).written().as_str());
    push_text(&mut out, "x  ");
    match &o.scaling {
        Some(s) => push_padded(&mut out, s.as_str(), 8),
        None => push_padded(&mut out, "-", 8),
    }
    out.push(' ');
    match &o.wallpaper {
        Some(p) => push_text(&mut out, p.as_str()),
        None => push_text(&mut out, "(none)"),
    }
    proof {
        assert(out@ =~= output_text(*o));
    }
    out
}

/// The lines of a status: the outputs, after whether there are none and whether they
/// are paused.
pub open spec fn status_text(s: Status) -> Seq<Seq<char>> {
    let none = if s.outputs@.len() == 0 {
        seq!["no outputs"@]
    } else {
        Seq::empty()
    };
    let paused = if s.paused {
        seq!["state: paused"@]
    } else {
        Seq::empty()
    };
    none + paused + Seq::new(s.outputs@.len(), |i: int| output_text(s.outputs@[i]))
}

/// The lines of a status.
pub fn status_lines(s: &Status) -> (r: Vec<String>)
    ensures
        crate::text::texts(r@) == status_text(*s),
{
    let mut out: Vec<String> = Vec::new();
    if s.outputs.len() == 0 {
        out.push("no outputs".to_string());
    }
    if s.paused {
        out.push("state: paused".to_string());
    }
    let ghost start = crate::text::texts(out@);
    let mut i: usize = 0;
    proof {
        assert(start =~= start + Seq::new(0, |j: int| output_text(s.outputs@[j])));
    }
    while i < s.outputs.len()
        invariant
            i <= s.outputs@.len(),
            crate::text::texts(out@) == start + Seq::new(
                i as nat,
                |j: int| output_text(s.outputs@[j]),
            ),
        decreases s.outputs@.len() - i,
    {
        let ghost before = crate::text::texts(out@);
        let line = output_line(&s.outputs[i]);
        out.push(line);
        proof {
            assert(crate::text::texts(out@) =~= before.push(line@));
            assert(crate::text::texts(out@) =~= start + Seq::new(
                (i + 1) as nat,
                |j: int| output_text(s.outputs@[j]),
            ));
        }
        i += 1;
    }
    proof {
        assert(crate::text::texts(out@) =~= status_text(*s));
    }
    out
}

/// The places of the wallpapers of a kind among the first `n`; of any kind where none
/// is asked for.
pub open spec fn places_of(
    list: Seq<crate::catalog::WallpaperModel>,
    kind: Option<Kind>,
    n: int,
) -> Seq<usize>
    decreases n,
{
    if n <= 0 {
        Seq::empty()
    } else if kind matches Some(k) && list[n - 1].kind != k {
        places_of(list, kind, n - 1)
    } else {
        places_of(list, kind, n - 1).push((n - 1) as usize)
    }
}

/// Which wallpapers of a catalog are of a kind; all, where none is asked for.
pub fn shown(catalog: &Catalog, kind: Option<Kind>) -> (r: Vec<usize>)
    ensures
        r@ == places_of(
            crate::catalog::wallpaper_views(catalog.wallpapers@),
            kind,
            catalog.wallpapers@.len() as int,
        ),
        forall|i: int| 0 <= i < r@.len() ==> (#[trigger] r@[i]) < catalog.wallpapers@.len(),
{
    let ghost list = crate::catalog::wallpaper_views(catalog.wallpapers@);
    let mut out: Vec<usize> = Vec::new();
    let mut i: usize = 0;
    while i < catalog.wallpapers.len()
        invariant
            i <= catalog.wallpapers@.len(),
            list == crate::catalog::wallpaper_views(catalog.wallpapers@),
            out@ == places_of(list, kind, i as int),
            forall|j: int| 0 <= j < out@.len() ==> (#[trigger] out@[j]) < catalog.wallpapers@.len(),
        decreases catalog.wallpapers@.len() - i,
    {
        proof {
            assert(list[i as int] == catalog.wallpapers@[i as int]@);
        }
        let wanted = match kind {
            Some(k) => catalog.wallpapers[i].kind == k,
            None => true,
        };
        if wanted {
            out.push(i);
        }
        i += 1;
    }
    out
}

/// Exactly the wallpapers of the kind that was asked for are shown, in their order.
pub proof fn law_all_of_a_kind_are_shown(
    list: Seq<crate::catalog::WallpaperModel>,
    kind: Option<Kind>,
    n: int,
    p: usize,
)
    requires
        0 <= n <= list.len() <= usize::MAX,
    ensures
        places_of(list, kind, n).contains(p) <==> p < n && (kind matches Some(k) ==> list[p as int].kind
            == k),
        forall|i: int, j: int|
            0 <= i < j < places_of(list, kind, n).len() ==> (#[trigger] places_of(list, kind, n)[i])
                < (#[trigger] places_of(list, kind, n)[j]),
        forall|i: int| 0 <= i < places_of(list, kind, n).len() ==> (#[trigger] places_of(list, kind, n)[i]) < n,
    decreases n,
{
    if n > 0 {
        law_all_of_a_kind_are_shown(list, kind, n - 1, p);
        let before = places_of(list, kind, n - 1);
        let now = places_of(list, kind, n);
        if now != before {
            assert(now == before.push((n - 1) as usize));
            assert(now[before.len() as int] == n - 1);
            if before.contains(p) {
                let i = before.index_of(p);
                assert(now[i] == p);
            }
            if now.contains(p) {
                let i = now.index_of(p);
                if i < before.len() {
                    assert(before[i] == p);
                }
            }
        }
    }
}

/// A wallpaper's line in a listing. A trailing marker rather than a hidden entry: the
/// user owns this wallpaper, so it should be visible along with the reason it cannot
/// be used yet.
pub open spec fn wallpaper_text(w: crate::catalog::WallpaperModel) -> Seq<char> {
    crate::text::padded(crate::catalog::kind_name(w.kind), 7).push(' ') + w.id.text().push(' ')
        + w.title + if w.kind == Kind::Web {
        "  (unsupported)"@
    } else {
        Seq::empty()
    }
}

/// A wallpaper's line in a listing.
pub fn wallpaper_line(w: &Wallpaper) -> (r: String)
    ensures
        r@ == wallpaper_text(w@),
{
    let mut out = String::new();
    push_padded(&mut out, w.kind.as_str(), 7);
    out.push(' ');
    push_text(&mut out, w.id.label());
    out.push(' ');
    push_text(&mut out, w.title.as_str());
    if !w.supported() {
        push_text(&mut out, "  (unsupported)");
    }
    proof {
        assert(out@ =~= wallpaper_text(w@));
    }
    out
}

/// A count of a kind, for a listing.
pub open spec fn count_text(c: (Kind, usize)) -> Seq<char> {
    crate::numbers::decimal_text(c.1 as nat).push(' ') + crate::catalog::kind_name(c.0)
}

/// How many wallpapers were listed, of how many.
pub open spec fn summary_text(list: Seq<crate::catalog::WallpaperModel>, listed: nat) -> Seq<char> {
    if listed == list.len() {
        let counts = crate::catalog::kind_counts(list);
        crate::numbers::decimal_text(list.len()) + " wallpapers: "@ + crate::text::parted(
            Seq::new(counts.len(), |i: int| count_text(counts[i])),
            ", "@,
        )
    } else {
        crate::numbers::decimal_text(listed) + " of "@ + crate::numbers::decimal_text(list.len())
            + " wallpapers"@
    }
}

/// The line on something that could not be listed.
pub fn skipped_line(p: &Problem) -> (r: String)
    ensures
        r@ == "skipped "@ + p@.place() + ": "@ + p@.told(),
{
    let mut out = "skipped ".to_string();
    push_text(&mut out, p.path());
    push_text(&mut out, ": ");
    push_text(&mut out, p.message().as_str());
    out
}

/// How many wallpapers were listed, of how many.
pub fn summary_line(catalog: &Catalog, listed: usize) -> (r: String)
    ensures
        r@ == summary_text(
            crate::catalog::wallpaper_views(catalog.wallpapers@),
            listed as nat,
        ),
{
    let ghost list = crate::catalog::wallpaper_views(catalog.wallpapers@);
    let total = catalog.wallpapers.len();
    let mut out = String::new();
    if listed == total {
        let counts = catalog.count_by_kind();
        let mut parts: Vec<String> = Vec::new();
        let mut i: usize = 0;
        while i < counts.len()
            invariant
                i <= counts@.len(),
                parts@.len() == i,
                forall|j: int| 0 <= j < i ==> (#[trigger] parts@[j])@ == count_text(counts@[j]),
            decreases counts@.len() - i,
        {
            let (kind, n) = counts[i];
            let mut one = String::new();
            push_chars(&mut one, decimal(n as u64).as_slice());
            one.push(' ');
            push_text(&mut one, kind.as_str());
            proof {
                assert(one@ =~= count_text(counts@[i as int]));
            }
            parts.push(one);
            i += 1;
        }
        proof {
            assert(crate::text::texts(parts@) =~= Seq::new(
                counts@.len(),
                |i: int| count_text(counts@[i]),
            ));
        }
        push_chars(&mut out, decimal(total as u64).as_slice());
        push_text(&mut out, " wallpapers: ");
        push_text(&mut out, join_with(&parts, ", ").as_str());
    } else {
        push_chars(&mut out, decimal(listed as u64).as_slice());
        push_text(&mut out, " of ");
        push_chars(&mut out, decimal(total as u64).as_slice());
        push_text(&mut out, " wallpapers");
    }
    proof {
        assert(out@ =~= summary_text(list, listed as nat));
    }
    out
}

/// A wallpaper that cannot be rendered is refused, and what the user is told begins with
/// its title.
pub proof fn law_refusals_name_the_wallpaper(
    name: Seq<char>,
    w: crate::catalog::WallpaperModel,
    media: Option<Seq<char>>,
)
    requires
        w.kind == Kind::Web || media is None,
    ensures
        resolved(name, false, Some(w), media) is Err,
        crate::text::begins_with(
            resolve_message(resolved(name, false, Some(w), media)->Err_0),
            crate::text::in_quotes(w.title),
        ),
{
    let told = resolve_message(resolved(name, false, Some(w), media)->Err_0);
    let title = crate::text::in_quotes(w.title);
    assert(told.subrange(0, title.len() as int) =~= title);
}

/// A directory is Workshop content where one of its children is a directory with a
/// project, wherever it stands among them.
pub proof fn law_one_project_makes_a_workshop(
    path: &str,
    children: Vec<Child>,
    fewer: Vec<Child>,
    child: Child,
    r: Source,
)
    requires
        children@ == fewer@.push(child),
        call_ensures(source_for, (path, &children), r),
    ensures
        is_workshop(children@) == (is_workshop(fewer@) || (child.is_dir && child.has_project)),
        !is_workshop(Seq::empty()),
        child.is_dir && child.has_project ==> r@ == crate::catalog::SourceModel::Workshop(path@),
        !is_workshop(fewer@) && !(child.is_dir && child.has_project) ==> r@
            == (crate::catalog::SourceModel::Directory { path: path@, recursive: true }),
{
    assert(children@[fewer@.len() as int] == child);
    if is_workshop(fewer@) {
        let i = choose|i: int|
            0 <= i < fewer@.len() && (#[trigger] fewer@[i]).is_dir && fewer@[i].has_project;
        assert(children@[i] == fewer@[i]);
    }
    if is_workshop(children@) {
        let i = choose|i: int|
            0 <= i < children@.len() && (#[trigger] children@[i]).is_dir
                && children@[i].has_project;
        if i < fewer@.len() {
            assert(fewer@[i] == children@[i]);
        }
    }
}

/// A name finds the first wallpaper whose id or path it is, and none where it is none's.
pub proof fn law_names_find_their_wallpaper(
    list: Seq<crate::catalog::WallpaperModel>,
    name: Seq<char>,
    k: int,
)
    requires
        0 <= k <= list.len(),
        forall|j: int| 0 <= j < k ==> (#[trigger] list[j]).id.text() != name,
        k < list.len() ==> list[k].id.text() == name,
    ensures
        first_named(list, name, 0) == (if k < list.len() {
            Some(k)
        } else {
            None
        }),
{
    lemma_first_named(list, name, 0, k);
}

proof fn lemma_first_named(
    list: Seq<crate::catalog::WallpaperModel>,
    name: Seq<char>,
    i: int,
    k: int,
)
    requires
        0 <= i <= k <= list.len(),
        forall|j: int| i <= j < k ==> (#[trigger] list[j]).id.text() != name,
        k < list.len() ==> list[k].id.text() == name,
    ensures
        first_named(list, name, i) == (if k < list.len() {
            Some(k)
        } else {
            None
        }),
    decreases k - i,
{
    if i < k {
        assert(list[i].id.text() != name);
        lemma_first_named(list, name, i + 1, k);
    }
}

/// A file is shown itself; a wallpaper is shown by the file inside it, unless it cannot be
/// rendered; what is neither is refused by its name.
pub proof fn law_what_is_typed_is_resolved(
    name: Seq<char>,
    found: Option<crate::catalog::WallpaperModel>,
    w: crate::catalog::WallpaperModel,
    media: Option<Seq<char>>,
    file: Seq<char>,
)
    ensures
        resolved(name, true, found, media) == Ok::<Seq<char>, ResolveModel>(name),
        resolved(name, false, None, media) == Err::<Seq<char>, ResolveModel>(
            ResolveModel::Unknown { name },
        ),
        w.kind != Kind::Web ==> resolved(name, false, Some(w), Some(file)) == Ok::<
            Seq<char>,
            ResolveModel,
        >(file),
        w.kind != Kind::Web ==> resolved(name, false, Some(w), None) == Err::<
            Seq<char>,
            ResolveModel,
        >(ResolveModel::NoMedia { title: w.title, kind: w.kind }),
        w.kind == Kind::Web ==> resolved(name, false, Some(w), media) == Err::<
            Seq<char>,
            ResolveModel,
        >(ResolveModel::Unsupported { title: w.title, kind: w.kind }),
{
}

/// A file is played itself; of a Workshop item the scene package is played where it is a
/// scene, and otherwise the file that it names, in the item's own directory.
pub proof fn law_items_play_a_file_of_their_own(
    w: crate::catalog::WallpaperModel,
    file: Seq<char>,
    path: Seq<char>,
    named: Option<Seq<char>>,
)
    requires
        w.path.len() > 0 && w.path.last() != '/',
        file.len() > 0 && file[0] != '/',
    ensures
        w.id == crate::catalog::IdModel::File(path) ==> media_in(w, named) == Some(path),
        w.id is Wpe && w.kind == Kind::Scene ==> media_in(w, named) == Some(
            w.path + "/scene.pkg"@,
        ),
        w.id is Wpe && w.kind != Kind::Scene ==> media_in(w, Some(file)) == Some(
            w.path + seq!['/'] + file,
        ) && media_in(w, None) is None,
{
    reveal_strlit("scene.pkg");
    reveal_strlit("/scene.pkg");
    assert(w.path.push('/') + "scene.pkg"@ =~= w.path + "/scene.pkg"@);
    assert(w.path.push('/') + file =~= w.path + seq!['/'] + file);
}

/// A request shows the path with the scaling that it was made with, on the output that it
/// was made for, or on all.
pub proof fn law_requests_are_for_their_output(
    path: String,
    output: String,
    scaling: String,
    one: Request,
    all: Request,
)
    requires
        call_ensures(show_request, (path, Some(output), scaling), one),
        call_ensures(show_request, (path, None, scaling), all),
    ensures
        one matches Request::Show { path: p, target: Target::Output(name), scaling: s } && p@
            == path@ && name@ == output@ && s@ == scaling@,
        all matches Request::Show { path: p, target: Target::All, scaling: s } && p@ == path@ && s@
            == scaling@,
{
}

/// A text that is not JSON is a value as it stands, and one that is, is what it says.
pub proof fn law_words_are_values(raw: Seq<char>, t: crate::json::JsonTree)
    ensures
        crate::json::json_read(raw) is None ==> value_written(raw) == crate::json::JsonTree::Text(
            raw,
        ),
        crate::json::json_read(raw) == Some(t) ==> value_written(raw) == t,
{
}

/// Whether a text is one word.
#[verifier::opaque]
pub open spec fn one_word(s: Seq<char>) -> bool {
    s.len() > 0 && forall|i: int|
        0 <= i < s.len() ==> !crate::text::white_space(#[trigger] s[i])
}

/// Whether a text is blanks.
#[verifier::opaque]
spec fn blanks(s: Seq<char>) -> bool {
    forall|i: int| 0 <= i < s.len() ==> #[trigger] s[i] == ' '
}

proof fn lemma_blanks()
    ensures
        blanks(Seq::empty()),
        blanks(seq![' ']),
        blanks(seq![' ', ' ']),
{
    reveal(blanks);
}

/// The blanks that fill a text up.
spec fn fill(s: Seq<char>, width: nat) -> Seq<char> {
    crate::text::padded(s, width).skip(s.len() as int)
}

proof fn lemma_fill(s: Seq<char>, width: nat)
    ensures
        crate::text::padded(s, width) == s + fill(s, width),
        blanks(fill(s, width).push(' ')),
        fill(s, width).push(' ')[0] == ' ',
{
    reveal(blanks);
    let p = crate::text::padded(s, width);
    assert forall|i: int| 0 <= i < p.len() implies (i < s.len() ==> #[trigger] p[i] == s[i]) && (
    i >= s.len() ==> p[i] == ' ') by {
        crate::text::law_padding_is_behind(s, width, i);
    }
    assert(p.len() >= s.len());
    assert(p =~= s + fill(s, width));
    assert forall|i: int| 0 <= i < fill(s, width).push(' ').len() implies #[trigger] fill(
        s,
        width,
    ).push(' ')[i] == ' ' by {
        if i < fill(s, width).len() {
            assert(fill(s, width)[i] == p[s.len() + i]);
        }
    }
}

proof fn lemma_decimal_word(n: nat)
    ensures
        one_word(crate::numbers::decimal_text(n)),
{
    reveal(one_word);
    crate::numbers::lemma_decimal(n);
    let s = crate::numbers::decimal_text(n);
    assert forall|i: int| 0 <= i < s.len() implies !crate::text::white_space(#[trigger] s[i]) by {
        assert(crate::text::ascii_digit(s[i]));
    }
}

/// An output's line tells its name, its size, its scale, how it is filled and with what,
/// in this order, a word each.
pub proof fn law_an_outputs_line_tells_its_parts(o: OutputStatus, scaling: String, path: String)
    requires
        one_word(o.name@),
        o.scaling == Some(scaling),
        o.wallpaper == Some(path),
        one_word(scaling@),
        one_word(path@),
        o.scale >= 0,
    ensures
        crate::text::words_of(output_text(o)) == seq![
            o.name@,
            crate::numbers::decimal_text(o.width as nat).push('x') + crate::numbers::decimal_text(
                o.height as nat,
            ),
            seq!['@'] + crate::numbers::decimal_text(o.scale as nat).push('x'),
            scaling@,
            path@,
        ],
{
    let w = crate::numbers::decimal_text(o.width as nat);
    let h = crate::numbers::decimal_text(o.height as nat);
    let s = crate::numbers::decimal_text(o.scale as nat);
    lemma_decimal_word(o.width as nat);
    lemma_decimal_word(o.height as nat);
    lemma_decimal_word(o.scale as nat);
    lemma_fill(o.name@, 10);
    lemma_fill(scaling@, 8);
    let a = fill(o.name@, 10).push(' ');
    let b = fill(scaling@, 8).push(' ');
    let size = w.push('x') + h;
    let zoom = seq!['@'] + s.push('x');
    lemma_joined_word(w, 'x', h);
    lemma_framed_word('@', s, 'x');
    lemma_output_parts(o, scaling, path);
    lemma_five_words(o.name@, a, size, zoom, scaling@, b, path@);
}

proof fn lemma_joined_word(a: Seq<char>, c: char, b: Seq<char>)
    requires
        one_word(a),
        one_word(b),
        c == 'x',
    ensures
        one_word(a.push(c) + b),
{
    reveal(one_word);
    let t = a.push(c) + b;
    assert(!crate::text::white_space('x'));
    assert forall|i: int| 0 <= i < t.len() implies !crate::text::white_space(#[trigger] t[i]) by {
        if i < a.len() {
            assert(t[i] == a[i]);
        } else if i > a.len() {
            assert(t[i] == b[i - a.len() - 1]);
        }
    }
}

proof fn lemma_framed_word(c: char, a: Seq<char>, d: char)
    requires
        one_word(a),
        c == '@',
        d == 'x',
    ensures
        one_word(seq![c] + a.push(d)),
{
    reveal(one_word);
    let t = seq![c] + a.push(d);
    assert(!crate::text::white_space('x') && !crate::text::white_space('@'));
    assert forall|i: int| 0 <= i < t.len() implies !crate::text::white_space(#[trigger] t[i]) by {
        if 0 < i <= a.len() {
            assert(t[i] == a[i - 1]);
        }
    }
}

#[verifier::spinoff_prover]
proof fn lemma_output_parts(o: OutputStatus, scaling: String, path: String)
    requires
        o.scaling == Some(scaling),
        o.wallpaper == Some(path),
        o.scale >= 0,
    ensures
        output_text(o) == Seq::<char>::empty() + o.name@ + (fill(o.name@, 10).push(' ') + (
        crate::numbers::decimal_text(o.width as nat).push('x') + crate::numbers::decimal_text(
            o.height as nat,
        )) + (seq![' '] + (seq!['@'] + crate::numbers::decimal_text(o.scale as nat).push('x')) + (
        seq![' ', ' '] + scaling@ + (fill(scaling@, 8).push(' ') + path@)))),
{
    reveal_strlit(" @");
    reveal_strlit("x  ");
    let w = crate::numbers::decimal_text(o.width as nat);
    let h = crate::numbers::decimal_text(o.height as nat);
    let s = crate::numbers::decimal_text(o.scale as nat);
    lemma_fill(o.name@, 10);
    lemma_fill(scaling@, 8);
    let n = o.name@;
    let f = fill(n, 10);
    let g = fill(scaling@, 8);
    let left = (n + f).push(' ') + w.push('x') + h + " @"@ + s + "x  "@ + (scaling@ + g).push(' ')
        + path@;
    assert(output_text(o) == left);
    assert(left =~= Seq::<char>::empty() + n + (f.push(' ') + (w.push('x') + h) + (seq![' '] + (
    seq!['@'] + s.push('x')) + (seq![' ', ' '] + scaling@ + (g.push(' ') + path@)))));
}

#[verifier::spinoff_prover]
proof fn lemma_five_words(
    a: Seq<char>,
    first: Seq<char>,
    b: Seq<char>,
    c: Seq<char>,
    d: Seq<char>,
    last: Seq<char>,
    e: Seq<char>,
)
    requires
        one_word(a) && one_word(b) && one_word(c) && one_word(d) && one_word(e),
        first.len() > 0 && first[0] == ' ' && blanks(first),
        last.len() > 0 && last[0] == ' ' && blanks(last),
    ensures
        crate::text::words_of(
            Seq::<char>::empty() + a + (first + b + (seq![' '] + c + (seq![' ', ' '] + d + (last
                + e)))),
        ) == seq![a, b, c, d, e],
{
    let none = Seq::<char>::empty();
    let gap = seq![' ', ' '];
    lemma_blanks();
    let r4 = last + e;
    let r3 = gap + d + r4;
    let r2 = seq![' '] + c + r3;
    let r1 = first + b + r2;
    assert(r1[0] == ' ' && r2[0] == ' ' && r3[0] == ' ' && r4[0] == ' ');
    assert(last + e + none =~= r4);
    let z = Seq::<Seq<char>>::empty();
    crate::text::lemma_reads_nothing();
    lemma_reads(last, e, none, z);
    lemma_reads(gap, d, r4, seq![e] + z);
    lemma_reads(seq![' '], c, r3, seq![d] + (seq![e] + z));
    lemma_reads(first, b, r2, seq![c] + (seq![d] + (seq![e] + z)));
    lemma_reads(none, a, r1, seq![b] + (seq![c] + (seq![d] + (seq![e] + z))));
    assert(seq![a] + (seq![b] + (seq![c] + (seq![d] + (seq![e] + z)))) =~= seq![a, b, c, d, e]);
    crate::text::lemma_words_read(none + a + r1, seq![a, b, c, d, e]);
}

proof fn lemma_reads(space: Seq<char>, word: Seq<char>, rest: Seq<char>, list: Seq<Seq<char>>)
    requires
        blanks(space),
        one_word(word),
        rest.len() > 0 ==> rest[0] == ' ',
        crate::text::reads(rest, list),
    ensures
        crate::text::reads(space + word + rest, seq![word] + list),
{
    reveal(blanks);
    reveal(one_word);
    assert(crate::text::white_space(' '));
    crate::text::lemma_reads(space, word, rest, list);
}

/// A negative number is the positive one with a sign before it.
pub proof fn law_negative_numbers_have_a_sign(n: int)
    requires
        n > 0,
    ensures
        signed_text(-n) == seq!['-'] + signed_text(n),
        crate::numbers::natural_read(signed_text(n), n as nat) == Some(n as nat),
{
    crate::numbers::law_decimal_is_read_back(n as nat, n as nat);
}

/// A wallpaper's line tells its kind, its id and its title, in this order; a web wallpaper
/// is marked as one that cannot be shown, and no other is.
pub proof fn law_a_wallpapers_line_tells_its_parts(w: crate::catalog::WallpaperModel)
    requires
        one_word(w.id.text()),
        one_word(w.title),
    ensures
        w.kind == Kind::Web ==> crate::text::words_of(wallpaper_text(w)) == seq![
            crate::catalog::kind_name(w.kind),
            w.id.text(),
            w.title,
            "(unsupported)"@,
        ],
        w.kind != Kind::Web ==> crate::text::words_of(wallpaper_text(w)) == seq![
            crate::catalog::kind_name(w.kind),
            w.id.text(),
            w.title,
        ],
{
    reveal_strlit("  (unsupported)");
    reveal_strlit("(unsupported)");
    let none = Seq::<char>::empty();
    let kind = crate::catalog::kind_name(w.kind);
    let id = w.id.text();
    lemma_kind_word(w.kind);
    lemma_blanks();
    lemma_fill(kind, 7);
    let a = fill(kind, 7).push(' ');
    let mark = "(unsupported)"@;
    let gap = seq![' ', ' '];
    assert(one_word(mark)) by {
        reveal(one_word);
    }
    if w.kind == Kind::Web {
        assert(gap + mark =~= "  (unsupported)"@);
        lemma_three_words(kind, a, id, w.title, gap + mark, seq![mark]);
        assert(wallpaper_text(w) =~= kind + (a + id + (seq![' '] + w.title + (gap + mark))));
        assert(seq![kind, id, w.title] + seq![mark] =~= seq![kind, id, w.title, mark]);
    } else {
        lemma_three_words(kind, a, id, w.title, none, Seq::empty());
        assert(wallpaper_text(w) =~= kind + (a + id + (seq![' '] + w.title + none)));
        assert(seq![kind, id, w.title] + Seq::<Seq<char>>::empty() =~= seq![kind, id, w.title]);
    }
}

proof fn lemma_three_words(
    a: Seq<char>,
    first: Seq<char>,
    b: Seq<char>,
    c: Seq<char>,
    end: Seq<char>,
    more: Seq<Seq<char>>,
)
    requires
        one_word(a) && one_word(b) && one_word(c),
        first.len() > 0 && first[0] == ' ' && blanks(first),
        more.len() == 0 ==> end.len() == 0,
        more.len() > 0 ==> more.len() == 1 && one_word(more[0]) && end == seq![' ', ' '] + more[0],
    ensures
        crate::text::words_of(a + (first + b + (seq![' '] + c + end))) == seq![a, b, c] + more,
{
    let none = Seq::<char>::empty();
    let z = Seq::<Seq<char>>::empty();
    let r2 = seq![' '] + c + end;
    let r1 = first + b + r2;
    lemma_blanks();
    crate::text::lemma_reads_nothing();
    if more.len() > 0 {
        lemma_reads(seq![' ', ' '], more[0], none, z);
        assert(seq![' ', ' '] + more[0] + none =~= end);
        assert(seq![more[0]] + z =~= more);
        assert(end[0] == ' ');
    } else {
        assert(end =~= none);
        assert(more =~= z);
    }
    assert(crate::text::reads(end, more));
    lemma_reads(seq![' '], c, end, more);
    assert(r2[0] == ' ' && r1[0] == ' ');
    lemma_reads(first, b, r2, seq![c] + more);
    lemma_reads(none, a, r1, seq![b] + (seq![c] + more));
    assert(none + a + r1 =~= a + r1);
    assert(seq![a] + (seq![b] + (seq![c] + more)) =~= seq![a, b, c] + more);
    crate::text::lemma_words_read(a + r1, seq![a, b, c] + more);
}

proof fn lemma_kind_word(k: Kind)
    ensures
        one_word(crate::catalog::kind_name(k)),
{
    reveal(one_word);
    reveal_strlit("image");
    reveal_strlit("video");
    reveal_strlit("shader");
    reveal_strlit("scene");
    reveal_strlit("web");
}

/// The lines of a status are those of its outputs, in their order, after those that say
/// that there are none, or that they are paused.
pub proof fn law_a_status_tells_its_outputs(s: Status, more: Status, o: OutputStatus, i: int)
    requires
        more.outputs@ == s.outputs@.push(o),
        more.paused == s.paused,
        0 <= i < s.outputs@.len(),
    ensures
        status_text(more) == status_text(s).push(output_text(o)),
        s.paused ==> status_text(s)[0] == "state: paused"@ && status_text(s)[i + 1] == output_text(
            s.outputs@[i],
        ),
        !s.paused ==> status_text(s)[i] == output_text(s.outputs@[i]),
        status_text(s).len() == s.outputs@.len() + (if s.paused {
            1int
        } else {
            0int
        }),
{
    assert(status_text(more) =~= status_text(s).push(output_text(o)));
}

/// A property's label ends its line, and its line is otherwise that of a property without
/// one; a label that says no more than the key is left out.
pub proof fn law_labels_end_their_line(
    p: crate::properties::PropertyModel,
    range: Option<Seq<char>>,
    text: Seq<char>,
)
    requires
        text.len() > 0,
        text != p.key,
    ensures
        ({
            let bare = crate::properties::PropertyModel { text: Seq::empty(), ..p };
            let same = crate::properties::PropertyModel { text: p.key, ..p };
            let told = crate::properties::PropertyModel { text, ..p };
            &&& property_text(told, range) == property_text(bare, range) + "   # "@ + text
            &&& property_text(same, range) == property_text(bare, range)
            &&& crate::text::begins_with(property_text(p, range), p.key)
        }),
{
    let bare = crate::properties::PropertyModel { text: Seq::empty(), ..p };
    let told = crate::properties::PropertyModel { text, ..p };
    assert(property_text(told, range) =~= property_text(bare, range) + "   # "@ + text);
    lemma_fill(p.key, 28);
    assert(property_text(p, range).subrange(0, p.key.len() as int) =~= p.key);
}

/// The options of a dropdown are told one behind the other, a label and its value each.
pub proof fn law_options_are_told_in_order(
    list: Seq<crate::properties::OptionModel>,
    o: crate::properties::OptionModel,
)
    ensures
        options_text(Seq::empty()) == Seq::<char>::empty(),
        options_text(seq![o]) == o.label + "="@ + o.value,
        list.len() > 0 ==> options_text(list.push(o)) == options_text(list) + ", "@ + options_text(
            seq![o],
        ),
{
    reveal_strlit("=");
    let texts = Seq::new(list.len(), |i: int| option_text(list[i]));
    let more = Seq::new(list.push(o).len(), |i: int| option_text(list.push(o)[i]));
    let none = Seq::<Seq<char>>::empty();
    assert(more =~= texts.push(option_text(o)));
    assert(Seq::new(
        Seq::<crate::properties::OptionModel>::empty().len(),
        |i: int| option_text(Seq::<crate::properties::OptionModel>::empty()[i]),
    ) =~= none);
    assert(Seq::new(seq![o].len(), |i: int| option_text(seq![o][i])) =~= none.push(option_text(o)));
    crate::text::law_texts_are_parted(texts, option_text(o), ", "@);
    crate::text::law_texts_are_parted(none, option_text(o), ", "@);
    assert(o.label.push('=') + o.value =~= o.label + "="@ + o.value);
}

} // verus!
