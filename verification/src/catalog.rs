//! What hyprwpe can display, gathered from configured sources.
//!
//! A wallpaper is anything a source can describe: a Steam Workshop item, or an
//! ordinary file on disk. Wallpaper Engine is one source among several, not the
//! centre of the model.
use vstd::prelude::*;
use crate::paths::{extension, file_name, file_stem, join_path};
use crate::strmap::{order_of, Standing};
use crate::text::{chars_of, is_text, lowercase, lowered, push_text, quoted};

verus! {

/// What renders a wallpaper.
#[derive(Debug, Clone, Copy, PartialEq, Eq, Structural)]
pub enum Kind {
    Image,
    Video,
    Shader,
    /// Wallpaper Engine scene package.
    Scene,
    /// Wallpaper Engine HTML wallpaper. Recognised so it can be reported, but
    /// deferred: rendering it needs a browser engine.
    Web,
}

/// Extensions treated as still images. Matches the set the end4 shell family
/// already accepts, so a wallpaper visible in its picker is visible here too.
pub open spec fn image_extensions() -> Seq<Seq<char>> {
    seq!["jpg"@, "jpeg"@, "png"@, "webp"@, "avif"@, "bmp"@, "svg"@, "gif"@]
}

/// Extensions treated as videos.
pub open spec fn video_extensions() -> Seq<Seq<char>> {
    seq!["mp4"@, "webm"@, "mkv"@, "avi"@, "mov"@]
}

/// Extensions treated as shaders.
pub open spec fn shader_extensions() -> Seq<Seq<char>> {
    seq!["glsl"@, "frag"@]
}

/// The kind of a file by its extension, without regard to ASCII case.
pub open spec fn kind_by_extension(path: Seq<char>) -> Option<Kind> {
    match crate::paths::extension_of(path) {
        None => None,
        Some(e) => {
            let ext = crate::text::lower_text(e);
            if image_extensions().contains(ext) {
                Some(Kind::Image)
            } else if video_extensions().contains(ext) {
                Some(Kind::Video)
            } else if shader_extensions().contains(ext) {
                Some(Kind::Shader)
            } else {
                None
            }
        },
    }
}

/// The kind that a project's `type` names, without regard to ASCII case.
pub open spec fn kind_by_type(ty: Seq<char>) -> Option<Kind> {
    let t = crate::text::lower_text(ty);
    if t == "scene"@ {
        Some(Kind::Scene)
    } else if t == "video"@ {
        Some(Kind::Video)
    } else if t == "web"@ {
        Some(Kind::Web)
    } else {
        None
    }
}

/// The name of a kind.
pub open spec fn kind_name(k: Kind) -> Seq<char> {
    match k {
        Kind::Image => "image"@,
        Kind::Video => "video"@,
        Kind::Shader => "shader"@,
        Kind::Scene => "scene"@,
        Kind::Web => "web"@,
    }
}

fn is_image_extension(e: &[char]) -> (r: bool)
    ensures
        r == image_extensions().contains(e@),
{
    let r = is_text(e, "jpg") || is_text(e, "jpeg") || is_text(e, "png") || is_text(e, "webp")
        || is_text(e, "avif") || is_text(e, "bmp") || is_text(e, "svg") || is_text(e, "gif");
    proof {
        let s = image_extensions();
        assert(s[0] == "jpg"@ && s[1] == "jpeg"@ && s[2] == "png"@ && s[3] == "webp"@);
        assert(s[4] == "avif"@ && s[5] == "bmp"@ && s[6] == "svg"@ && s[7] == "gif"@);
    }
    r
}

fn is_video_extension(e: &[char]) -> (r: bool)
    ensures
        r == video_extensions().contains(e@),
{
    let r = is_text(e, "mp4") || is_text(e, "webm") || is_text(e, "mkv") || is_text(e, "avi")
        || is_text(e, "mov");
    proof {
        let s = video_extensions();
        assert(s[0] == "mp4"@ && s[1] == "webm"@ && s[2] == "mkv"@ && s[3] == "avi"@ && s[4]
            == "mov"@);
    }
    r
}

fn is_shader_extension(e: &[char]) -> (r: bool)
    ensures
        r == shader_extensions().contains(e@),
{
    let r = is_text(e, "glsl") || is_text(e, "frag");
    proof {
        let s = shader_extensions();
        assert(s[0] == "glsl"@ && s[1] == "frag"@);
    }
    r
}

impl Kind {
    pub fn as_str(self) -> (r: &'static str)
        ensures
            r@ == kind_name(self),
    {
        match self {
            Kind::Image => "image",
            Kind::Video => "video",
            Kind::Shader => "shader",
            Kind::Scene => "scene",
            Kind::Web => "web",
        }
    }

    pub fn from_extension(path: &str) -> (r: Option<Kind>)
        ensures
            r == kind_by_extension(path@),
    {
        match extension(path) {
            None => None,
            Some(e) => {
                let ext = lowered(e.as_slice());
                if is_image_extension(ext.as_slice()) {
                    Some(Kind::Image)
                } else if is_video_extension(ext.as_slice()) {
                    Some(Kind::Video)
                } else if is_shader_extension(ext.as_slice()) {
                    Some(Kind::Shader)
                } else {
                    None
                }
            },
        }
    }

    /// Wallpaper Engine's own `type` field, which is capitalised inconsistently
    /// across Workshop items.
    pub fn from_project_type(ty: &str) -> (r: Option<Kind>)
        ensures
            r == kind_by_type(ty@),
    {
        let all = chars_of(ty);
        let t = lowered(all.as_slice());
        if is_text(t.as_slice(), "scene") {
            Some(Kind::Scene)
        } else if is_text(t.as_slice(), "video") {
            Some(Kind::Video)
        } else if is_text(t.as_slice(), "web") {
            Some(Kind::Web)
        } else {
            None
        }
    }
}

/// How a wallpaper is addressed. A Workshop item is identified by its id; any
/// other wallpaper is identified by its path.
#[derive(Debug, Clone, PartialEq, Eq)]
pub enum WallpaperId {
    Wpe(String),
    File(String),
}

/// What an identity stands for.
pub ghost enum IdModel {
    Wpe(Seq<char>),
    File(Seq<char>),
}

impl View for WallpaperId {
    type V = IdModel;

    open spec fn view(&self) -> IdModel {
        match self {
            WallpaperId::Wpe(s) => IdModel::Wpe(s@),
            WallpaperId::File(s) => IdModel::File(s@),
        }
    }
}

impl IdModel {
    /// The id or the path.
    pub open spec fn text(self) -> Seq<char> {
        match self {
            IdModel::Wpe(s) => s,
            IdModel::File(s) => s,
        }
    }
}

impl WallpaperId {
    /// The id or the path.
    pub fn label(&self) -> (r: &str)
        ensures
            r@ == self@.text(),
    {
        match self {
            WallpaperId::Wpe(s) => s.as_str(),
            WallpaperId::File(s) => s.as_str(),
        }
    }
}

/// Something that hyprwpe can list.
#[derive(Debug, Clone, PartialEq, Eq)]
pub struct Wallpaper {
    pub id: WallpaperId,
    pub title: String,
    pub kind: Kind,
    /// Directory for a Workshop item, file for anything else.
    pub path: String,
    /// Still image representing the wallpaper, when one exists.
    pub preview: Option<String>,
}

/// What a wallpaper stands for.
#[verifier::ext_equal]
pub ghost struct WallpaperModel {
    pub id: IdModel,
    pub title: Seq<char>,
    pub kind: Kind,
    pub path: Seq<char>,
    pub preview: Option<Seq<char>>,
}

impl View for Wallpaper {
    type V = WallpaperModel;

    open spec fn view(&self) -> WallpaperModel {
        WallpaperModel {
            id: self.id@,
            title: self.title@,
            kind: self.kind,
            path: self.path@,
            preview: crate::text::opt_text(self.preview),
        }
    }
}

impl Wallpaper {
    /// Whether hyprwpe can render this today. Reported rather than hidden: a
    /// wallpaper the user owns should appear in listings even when unsupported,
    /// with the reason visible.
    pub fn supported(&self) -> (r: bool)
        ensures
            r == (self.kind != Kind::Web),
    {
        self.kind != Kind::Web
    }
}

/// Where wallpapers come from.
#[derive(Debug, Clone, PartialEq, Eq)]
pub enum Source {
    /// A directory whose children are Workshop items carrying `project.json`.
    /// Steam does not need to be installed for this to work.
    Workshop(String),
    Directory { path: String, recursive: bool },
}

/// What a source stands for.
pub ghost enum SourceModel {
    Workshop(Seq<char>),
    Directory { path: Seq<char>, recursive: bool },
}

impl View for Source {
    type V = SourceModel;

    open spec fn view(&self) -> SourceModel {
        match self {
            Source::Workshop(p) => SourceModel::Workshop(p@),
            Source::Directory { path, recursive } => SourceModel::Directory {
                path: path@,
                recursive: *recursive,
            },
        }
    }
}

/// What the sources of a list stand for.
pub open spec fn source_views(v: Seq<Source>) -> Seq<SourceModel> {
    Seq::new(v.len(), |i: int| v[i]@)
}

/// The subset of `project.json` hyprwpe reads.
#[derive(Debug, Clone, PartialEq, Eq)]
pub struct Project {
    pub title: Option<String>,
    pub ty: Option<String>,
    pub preview: Option<String>,
}

/// The type of a Workshop item is none that is known.
#[derive(Debug, Clone, PartialEq, Eq)]
pub struct UnknownType {
    /// The type as the item states it.
    pub ty: Option<String>,
}

/// A directory's name, by which a Workshop item is identified.
pub open spec fn item_id(dir: Seq<char>) -> Seq<char> {
    match crate::paths::file_name_of(dir) {
        Some(n) => n,
        None => Seq::empty(),
    }
}

/// The kind of a Workshop item: what its type names; some items omit or misspell
/// `type`, and a scene package is proof enough.
pub open spec fn item_kind(ty: Option<Seq<char>>, has_package: bool) -> Option<Kind> {
    let named = match ty {
        Some(t) => kind_by_type(t),
        None => None,
    };
    match named {
        Some(k) => Some(k),
        None => if has_package {
            Some(Kind::Scene)
        } else {
            None
        },
    }
}

/// The wallpaper that a Workshop item is. `has_package` says whether it has a scene
/// package, `has_preview` whether the preview that it names is there.
pub open spec fn item_model(
    dir: Seq<char>,
    project: Project,
    has_package: bool,
    has_preview: bool,
) -> Option<WallpaperModel> {
    match item_kind(crate::text::opt_text(project.ty), has_package) {
        None => None,
        Some(kind) => Some(
            WallpaperModel {
                id: IdModel::Wpe(item_id(dir)),
                title: match project.title {
                    Some(t) => t@,
                    None => item_id(dir),
                },
                kind,
                path: dir,
                preview: match project.preview {
                    Some(p) => if has_preview {
                        Some(crate::paths::joined_path(dir, p@))
                    } else {
                        None
                    },
                    None => None,
                },
            },
        ),
    }
}

/// The wallpaper that a file is, where its extension is one that is known.
pub open spec fn file_model(path: Seq<char>) -> Option<WallpaperModel> {
    match kind_by_extension(path) {
        None => None,
        Some(kind) => Some(
            WallpaperModel {
                id: IdModel::File(path),
                title: match crate::paths::file_stem_of(path) {
                    Some(s) => s,
                    None => "untitled"@,
                },
                kind,
                path,
                preview: if kind == Kind::Image {
                    Some(path)
                } else {
                    None
                },
            },
        ),
    }
}

/// What to do with an entry of a directory.
#[derive(Debug, Clone, Copy, PartialEq, Eq, Structural)]
pub enum Visit {
    /// Pass it over.
    Skip,
    /// Look through it in turn.
    Descend,
    /// Take it: a Workshop item, or a file.
    Take,
}

/// What to do with an entry of Workshop content: an item is a directory with a
/// `project.json`.
pub fn visit_workshop(is_dir: bool, has_project: bool) -> (r: Visit)
    ensures
        r == (if is_dir && has_project {
            Visit::Take
        } else {
            Visit::Skip
        }),
{
    if is_dir && has_project {
        Visit::Take
    } else {
        Visit::Skip
    }
}

/// What to do with an entry of a directory.
pub fn visit_directory(is_dir: bool, recursive: bool) -> (r: Visit)
    ensures
        r == (if !is_dir {
            Visit::Take
        } else if recursive {
            Visit::Descend
        } else {
            Visit::Skip
        }),
{
    if !is_dir {
        Visit::Take
    } else if recursive {
        Visit::Descend
    } else {
        Visit::Skip
    }
}

/// Something found while looking through the sources.
#[derive(Debug, Clone, PartialEq, Eq)]
pub enum Found {
    /// A Workshop item with a readable `project.json`.
    Item { dir: String, project: Project, has_package: bool, has_preview: bool },
    /// A file in a directory.
    File(String),
    /// Something that could not be read, and why.
    Unreadable { path: String, reason: String },
}

/// What could not be listed, and why.
#[derive(Debug, Clone, PartialEq, Eq)]
pub enum Problem {
    Unreadable { path: String, reason: String },
    UnknownType { path: String, ty: Option<String> },
}

/// What a problem stands for.
pub ghost enum ProblemModel {
    Unreadable { path: Seq<char>, reason: Seq<char> },
    UnknownType { path: Seq<char>, ty: Option<Seq<char>> },
}

impl View for Problem {
    type V = ProblemModel;

    open spec fn view(&self) -> ProblemModel {
        match self {
            Problem::Unreadable { path, reason } => ProblemModel::Unreadable {
                path: path@,
                reason: reason@,
            },
            Problem::UnknownType { path, ty } => ProblemModel::UnknownType {
                path: path@,
                ty: crate::text::opt_text(*ty),
            },
        }
    }
}

impl ProblemModel {
    /// Where the problem is.
    pub open spec fn place(self) -> Seq<char> {
        match self {
            ProblemModel::Unreadable { path, .. } => path,
            ProblemModel::UnknownType { path, .. } => path,
        }
    }

    /// What is wrong there.
    pub open spec fn told(self) -> Seq<char> {
        match self {
            ProblemModel::Unreadable { reason, .. } => reason,
            ProblemModel::UnknownType { ty, .. } => "unknown wallpaper type "@
                + crate::text::in_quotes(
                match ty {
                    Some(t) => t,
                    None => "<missing>"@,
                },
            ),
        }
    }
}

impl Problem {
    /// Where the problem is.
    pub fn path(&self) -> (r: &str)
        ensures
            r@ == self@.place(),
    {
        match self {
            Problem::Unreadable { path, .. } => path.as_str(),
            Problem::UnknownType { path, .. } => path.as_str(),
        }
    }

    /// What is wrong there, as a user is told.
    pub fn message(&self) -> (r: String)
        ensures
            r@ == self@.told(),
    {
        match self {
            Problem::Unreadable { reason, .. } => reason.clone(),
            Problem::UnknownType { ty, .. } => {
                let mut out = "unknown wallpaper type ".to_string();
                let ty: &str = match ty {
                    Some(t) => t.as_str(),
                    None => "<missing>",
                };
                push_text(&mut out, quoted(ty).as_str());
                out
            },
        }
    }
}

/// The wallpaper that something found is.
pub open spec fn found_wallpaper(f: Found) -> Option<WallpaperModel> {
    match f {
        Found::Item { dir, project, has_package, has_preview } => item_model(
            dir@,
            project,
            has_package,
            has_preview,
        ),
        Found::File(path) => file_model(path@),
        Found::Unreadable { .. } => None,
    }
}

/// The problem that something found is.
pub open spec fn found_problem(f: Found) -> Option<ProblemModel> {
    match f {
        Found::Item { dir, project, has_package, has_preview } => if item_kind(
            crate::text::opt_text(project.ty),
            has_package,
        ) is None {
            Some(
                ProblemModel::UnknownType { path: dir@, ty: crate::text::opt_text(project.ty) },
            )
        } else {
            None
        },
        Found::File(path) => None,
        Found::Unreadable { path, reason } => Some(
            ProblemModel::Unreadable { path: path@, reason: reason@ },
        ),
    }
}

/// The wallpapers among the first `n` things found.
pub open spec fn wallpapers_in(found: Seq<Found>, n: int) -> Seq<WallpaperModel>
    decreases n,
{
    if n <= 0 {
        Seq::empty()
    } else {
        match found_wallpaper(found[n - 1]) {
            Some(w) => wallpapers_in(found, n - 1).push(w),
            None => wallpapers_in(found, n - 1),
        }
    }
}

/// The problems among the first `n` things found.
pub open spec fn problems_in(found: Seq<Found>, n: int) -> Seq<ProblemModel>
    decreases n,
{
    if n <= 0 {
        Seq::empty()
    } else {
        match found_problem(found[n - 1]) {
            Some(w) => problems_in(found, n - 1).push(w),
            None => problems_in(found, n - 1),
        }
    }
}

/// Whether a title comes before another: in lower case, and as it is where that is
/// the same.
pub open spec fn title_before(a: Seq<char>, b: Seq<char>) -> bool {
    let x = crate::text::lowercase_of(a);
    let y = crate::text::lowercase_of(b);
    crate::strmap::before(x, y) || (x == y && crate::strmap::before(a, b))
}

/// The wallpapers of a title.
pub open spec fn titled(list: Seq<WallpaperModel>, title: Seq<char>) -> Seq<WallpaperModel> {
    list.filter(|w: WallpaperModel| w.title == title)
}

/// Whether no title comes before one that stands ahead of it.
pub open spec fn by_title(list: Seq<WallpaperModel>) -> bool {
    forall|i: int, j: int|
        0 <= i < j < list.len() ==> !title_before((#[trigger] list[j]).title, (#[trigger] list[i]).title)
}

/// Whether a list holds the wallpapers of another by title; those of one title are
/// in the order that they had.
pub open spec fn is_title_order(list: Seq<WallpaperModel>, of: Seq<WallpaperModel>) -> bool {
    &&& by_title(list)
    &&& forall|title: Seq<char>| #[trigger] titled(list, title) == titled(of, title)
}

/// Everything that was found.
#[derive(Debug)]
pub struct Catalog {
    pub wallpapers: Vec<Wallpaper>,
    /// Entries that could not be read, with the reason. Surfaced rather than
    /// swallowed: a wallpaper silently missing from a listing is the kind of
    /// failure this project exists to avoid.
    pub problems: Vec<Problem>,
}

/// What the wallpapers of a list stand for.
pub open spec fn wallpaper_views(v: Seq<Wallpaper>) -> Seq<WallpaperModel> {
    Seq::new(v.len(), |i: int| v[i]@)
}

/// What the problems of a list stand for.
pub open spec fn problem_views(v: Seq<Problem>) -> Seq<ProblemModel> {
    Seq::new(v.len(), |i: int| v[i]@)
}

/// How many wallpapers of a list are of a kind.
pub open spec fn count_of(list: Seq<WallpaperModel>, kind: Kind) -> nat {
    list.filter(|w: WallpaperModel| w.kind == kind).len()
}

/// A kind with its count, where there are any.
pub open spec fn counted(list: Seq<WallpaperModel>, kind: Kind) -> Seq<(Kind, usize)> {
    if count_of(list, kind) > 0 {
        seq![(kind, count_of(list, kind) as usize)]
    } else {
        Seq::empty()
    }
}

/// The kinds that occur, with how many wallpapers are of each.
pub open spec fn kind_counts(list: Seq<WallpaperModel>) -> Seq<(Kind, usize)> {
    counted(list, Kind::Image) + counted(list, Kind::Video) + counted(list, Kind::Shader) + counted(
        list,
        Kind::Scene,
    ) + counted(list, Kind::Web)
}

proof fn lemma_title_before(a: Seq<char>, b: Seq<char>, c: Seq<char>)
    ensures
        !title_before(a, a),
        title_before(a, b) && title_before(b, c) ==> title_before(a, c),
        a != b ==> title_before(a, b) || title_before(b, a),
        !(title_before(a, b) && title_before(b, a)),
{
    let x = crate::text::lowercase_of(a);
    let y = crate::text::lowercase_of(b);
    let z = crate::text::lowercase_of(c);
    crate::strmap::lemma_before_total(a, b);
    crate::strmap::lemma_before_total(x, y);
    crate::strmap::lemma_before_irreflexive(a);
    crate::strmap::lemma_before_irreflexive(x);
    if title_before(a, b) && title_before(b, c) {
        if crate::strmap::before(x, y) && crate::strmap::before(y, z) {
            crate::strmap::lemma_before_transitive(x, y, z);
        } else if x == y && y == z {
            crate::strmap::lemma_before_transitive(a, b, c);
        }
    }
}

/// A list by title with one more wallpaper in its place is by title, and that
/// wallpaper is the last of its title.
proof fn lemma_placed(list: Seq<WallpaperModel>, w: WallpaperModel, at: int)
    requires
        by_title(list),
        0 <= at <= list.len(),
        forall|i: int| 0 <= i < at ==> !title_before(w.title, (#[trigger] list[i]).title),
        at < list.len() ==> title_before(w.title, list[at].title),
    ensures
        by_title(list.insert(at, w)),
        forall|title: Seq<char>| #[trigger]
            titled(list.insert(at, w), title) == titled(list.push(w), title),
{
    let now = list.insert(at, w);
    assert forall|i: int| at <= i < list.len() implies title_before(
        w.title,
        (#[trigger] list[i]).title,
    ) by {
        if i > at {
            lemma_title_before(w.title, list[at].title, list[i].title);
            lemma_title_before(list[i].title, w.title, list[at].title);
            if !title_before(w.title, list[i].title) {
                lemma_title_before(w.title, list[i].title, w.title);
                if w.title == list[i].title {
                    assert(title_before(list[i].title, list[at].title));
                } else {
                    assert(title_before(list[i].title, w.title));
                }
            }
        }
    }
    assert forall|i: int, j: int| 0 <= i < j < now.len() implies !title_before(
        (#[trigger] now[j]).title,
        (#[trigger] now[i]).title,
    ) by {
        if j < at {
            assert(now[i] == list[i] && now[j] == list[j]);
        } else if j == at {
            assert(now[i] == list[i]);
        } else if i < at {
            assert(now[i] == list[i] && now[j] == list[j - 1]);
        } else if i == at {
            assert(now[j] == list[j - 1]);
            lemma_title_before(w.title, list[j - 1].title, w.title);
        } else {
            assert(now[i] == list[i - 1] && now[j] == list[j - 1]);
        }
    }
    assert forall|title: Seq<char>| #[trigger] titled(now, title) == titled(list.push(w), title) by {
        let keep = |x: WallpaperModel| x.title == title;
        let a = list.take(at);
        let b = list.skip(at);
        assert(list =~= a + b);
        assert(now =~= a + seq![w] + b);
        assert(list.push(w) =~= a + b + seq![w]);
        Seq::filter_distributes_over_add(a + seq![w], b, keep);
        Seq::filter_distributes_over_add(a, seq![w], keep);
        Seq::filter_distributes_over_add(a + b, seq![w], keep);
        Seq::filter_distributes_over_add(a, b, keep);
        if title == w.title {
            assert forall|i: int| 0 <= i < b.len() implies !keep(#[trigger] b[i]) by {
                assert(b[i] == list[at + i]);
                lemma_title_before(w.title, w.title, w.title);
            }
            lemma_none_kept(b, keep);
        } else {
            assert(!keep(seq![w][0]));
            lemma_none_kept(seq![w], keep);
        }
        assert(titled(now, title) =~= titled(list.push(w), title));
    }
}

proof fn lemma_none_kept(list: Seq<WallpaperModel>, keep: spec_fn(WallpaperModel) -> bool)
    requires
        forall|i: int| 0 <= i < list.len() ==> !keep(#[trigger] list[i]),
    ensures
        list.filter(keep) == Seq::<WallpaperModel>::empty(),
    decreases list.len(),
{
    reveal(Seq::filter);
    if list.len() > 0 {
        assert forall|i: int| 0 <= i < list.drop_last().len() implies !keep(
            #[trigger] list.drop_last()[i],
        ) by {
            assert(list.drop_last()[i] == list[i]);
        }
        lemma_none_kept(list.drop_last(), keep);
        assert(!keep(list[list.len() - 1]));
    } else {
        assert(list.filter(keep) =~= Seq::<WallpaperModel>::empty());
    }
}

fn is_title_before(a: &str, b: &str) -> (r: bool)
    ensures
        r == title_before(a@, b@),
{
    let x = lowercase(a);
    let y = lowercase(b);
    proof {
        crate::strmap::lemma_before_total(x@, y@);
        crate::strmap::lemma_before_total(a@, b@);
    }
    match order_of(x.as_str(), y.as_str()) {
        Standing::Before => true,
        Standing::Same => order_of(a, b) == Standing::Before,
        Standing::After => false,
    }
}

impl Catalog {
    /// The wallpaper that a Workshop item is.
    pub fn read_workshop_item(
        dir: &str,
        project: &Project,
        has_package: bool,
        has_preview: bool,
    ) -> (r: Result<Wallpaper, UnknownType>)
        ensures
            match r {
                Ok(w) => item_model(dir@, *project, has_package, has_preview) == Some(w@),
                Err(e) => item_model(dir@, *project, has_package, has_preview) is None
                    && crate::text::opt_text(e.ty) == crate::text::opt_text(project.ty),
            },
    {
        let id = match file_name(dir) {
            Some(n) => n,
            None => String::new(),
        };
        let named = match &project.ty {
            Some(t) => Kind::from_project_type(t.as_str()),
            None => None,
        };
        let kind = match named {
            Some(k) => k,
            None => if has_package {
                Kind::Scene
            } else {
                let ty = match &project.ty {
                    Some(t) => Some(t.clone()),
                    None => None,
                };
                return Err(UnknownType { ty });
            },
        };
        let preview = match &project.preview {
            Some(p) => if has_preview {
                Some(join_path(dir, p.as_str()))
            } else {
                None
            },
            None => None,
        };
        let title = match &project.title {
            Some(t) => t.clone(),
            None => id.clone(),
        };
        let w = Wallpaper { id: WallpaperId::Wpe(id), title, kind, path: dir.to_string(), preview };
        proof {
            assert(w@ =~= item_model(dir@, *project, has_package, has_preview)->Some_0);
        }
        Ok(w)
    }

    /// The wallpaper that a file is.
    pub fn read_file(path: &str) -> (r: Option<Wallpaper>)
        ensures
            match r {
                Some(w) => file_model(path@) == Some(w@),
                None => file_model(path@) is None,
            },
    {
        match Kind::from_extension(path) {
            None => None,
            Some(kind) => {
                let title = match file_stem(path) {
                    Some(s) => s,
                    None => "untitled".to_string(),
                };
                let preview = if kind == Kind::Image {
                    Some(path.to_string())
                } else {
                    None
                };
                let w = Wallpaper {
                    id: WallpaperId::File(path.to_string()),
                    title,
                    kind,
                    path: path.to_string(),
                    preview,
                };
                proof {
                    assert(w@ =~= file_model(path@)->Some_0);
                }
                Some(w)
            },
        }
    }

    fn place(&mut self, w: Wallpaper)
        requires
            by_title(wallpaper_views(old(self).wallpapers@)),
        ensures
            by_title(wallpaper_views(final(self).wallpapers@)),
            forall|title: Seq<char>| #[trigger]
                titled(wallpaper_views(final(self).wallpapers@), title) == titled(
                    wallpaper_views(old(self).wallpapers@).push(w@),
                    title,
                ),
            final(self).problems == old(self).problems,
    {
        let ghost was = wallpaper_views(self.wallpapers@);
        let mut at: usize = 0;
        while at < self.wallpapers.len() && !is_title_before(
            w.title.as_str(),
            self.wallpapers[at].title.as_str(),
        )
            invariant
                at <= self.wallpapers@.len(),
                was == wallpaper_views(self.wallpapers@),
                self.problems == old(self).problems,
                forall|i: int| 0 <= i < at ==> !title_before(w@.title, (#[trigger] was[i]).title),
            decreases self.wallpapers@.len() - at,
        {
            at += 1;
        }
        let ghost placed = w@;
        proof {
            lemma_placed(was, placed, at as int);
        }
        self.wallpapers.insert(at, w);
        proof {
            assert(wallpaper_views(self.wallpapers@) =~= was.insert(at as int, placed));
        }
    }

    /// The catalog of what was found in the sources, in order of finding: wallpapers
    /// by title, problems as they came.
    pub fn scan(found: &Vec<Found>) -> (r: Self)
        ensures
            is_title_order(
                wallpaper_views(r.wallpapers@),
                wallpapers_in(found@, found@.len() as int),
            ),
            problem_views(r.problems@) == problems_in(found@, found@.len() as int),
    {
        let mut cat = Catalog { wallpapers: Vec::new(), problems: Vec::new() };
        let mut i: usize = 0;
        proof {
            assert(wallpaper_views(cat.wallpapers@) =~= Seq::<WallpaperModel>::empty());
            assert(problem_views(cat.problems@) =~= Seq::<ProblemModel>::empty());
        }
        while i < found.len()
            invariant
                i <= found@.len(),
                is_title_order(
                    wallpaper_views(cat.wallpapers@),
                    wallpapers_in(found@, i as int),
                ),
                problem_views(cat.problems@) == problems_in(found@, i as int),
            decreases found@.len() - i,
        {
            let ghost before = wallpapers_in(found@, i as int);
            let ghost list = wallpaper_views(cat.wallpapers@);
            let ghost trouble = problem_views(cat.problems@);
            match &found[i] {
                Found::Item { dir, project, has_package, has_preview } => {
                    match Self::read_workshop_item(
                        dir.as_str(),
                        project,
                        *has_package,
                        *has_preview,
                    ) {
                        Ok(w) => {
                            proof {
                                lemma_push_titled(list, before, w@);
                            }
                            cat.place(w);
                        },
                        Err(e) => {
                            let p = Problem::UnknownType { path: dir.clone(), ty: e.ty };
                            cat.problems.push(p);
                            proof {
                                assert(problem_views(cat.problems@) =~= trouble.push(p@));
                            }
                        },
                    }
                },
                Found::File(path) => {
                    if let Some(w) = Self::read_file(path.as_str()) {
                        proof {
                            lemma_push_titled(list, before, w@);
                        }
                        cat.place(w);
                    }
                },
                Found::Unreadable { path, reason } => {
                    let p = Problem::Unreadable { path: path.clone(), reason: reason.clone() };
                    cat.problems.push(p);
                    proof {
                        assert(problem_views(cat.problems@) =~= trouble.push(p@));
                    }
                },
            }
            i += 1;
        }
        cat
    }

    fn count(&self, kind: Kind) -> (r: usize)
        ensures
            r == count_of(wallpaper_views(self.wallpapers@), kind),
    {
        let ghost list = wallpaper_views(self.wallpapers@);
        let ghost keep = |w: WallpaperModel| w.kind == kind;
        let mut n: usize = 0;
        let mut i: usize = 0;
        proof {
            reveal(Seq::filter);
            assert(list.take(0) =~= Seq::<WallpaperModel>::empty());
        }
        while i < self.wallpapers.len()
            invariant
                i <= self.wallpapers@.len(),
                list == wallpaper_views(self.wallpapers@),
                keep == (|w: WallpaperModel| w.kind == kind),
                n <= i,
                n == list.take(i as int).filter(keep).len(),
            decreases self.wallpapers@.len() - i,
        {
            proof {
                reveal(Seq::filter);
                assert(list.take(i + 1).drop_last() =~= list.take(i as int));
                assert(list.take(i + 1).last() == self.wallpapers@[i as int]@);
            }
            if self.wallpapers[i].kind == kind {
                n += 1;
            }
            i += 1;
        }
        proof {
            assert(list.take(list.len() as int) =~= list);
        }
        n
    }

    /// The kinds that occur, with how many wallpapers are of each.
    pub fn count_by_kind(&self) -> (r: Vec<(Kind, usize)>)
        ensures
            r@ == kind_counts(wallpaper_views(self.wallpapers@)),
    {
        let mut out: Vec<(Kind, usize)> = Vec::new();
        let image = self.count(Kind::Image);
        if image > 0 {
            out.push((Kind::Image, image));
        }
        let video = self.count(Kind::Video);
        if video > 0 {
            out.push((Kind::Video, video));
        }
        let shader = self.count(Kind::Shader);
        if shader > 0 {
            out.push((Kind::Shader, shader));
        }
        let scene = self.count(Kind::Scene);
        if scene > 0 {
            out.push((Kind::Scene, scene));
        }
        let web = self.count(Kind::Web);
        if web > 0 {
            out.push((Kind::Web, web));
        }
        proof {
            assert(out@ =~= kind_counts(wallpaper_views(self.wallpapers@)));
        }
        out
    }
}

proof fn lemma_push_titled(list: Seq<WallpaperModel>, of: Seq<WallpaperModel>, w: WallpaperModel)
    requires
        forall|title: Seq<char>| #[trigger] titled(list, title) == titled(of, title),
    ensures
        forall|title: Seq<char>| #[trigger] titled(list.push(w), title) == titled(of.push(w), title),
{
    assert forall|title: Seq<char>| #[trigger] titled(list.push(w), title) == titled(
        of.push(w),
        title,
    ) by {
        reveal(Seq::filter);
        assert(list.push(w).drop_last() =~= list);
        assert(of.push(w).drop_last() =~= of);
        assert(titled(list, title) == titled(of, title));
    }
}

/// A wallpaper that a list holds is among those of its title.
proof fn lemma_titled_nonempty(list: Seq<WallpaperModel>, i: int)
    requires
        0 <= i < list.len(),
    ensures
        titled(list, list[i].title).len() > 0,
    decreases list.len(),
{
    reveal(Seq::filter);
    if i < list.len() - 1 {
        assert(list.drop_last()[i] == list[i]);
        lemma_titled_nonempty(list.drop_last(), i);
    }
}

/// A title that wallpapers of a list have is that of one of them.
proof fn lemma_titled_in(list: Seq<WallpaperModel>, title: Seq<char>)
    requires
        titled(list, title).len() > 0,
    ensures
        exists|i: int| 0 <= i < list.len() && (#[trigger] list[i]).title == title,
    decreases list.len(),
{
    reveal(Seq::filter);
    if list.len() > 0 {
        if list.last().title == title {
            assert(list[list.len() - 1].title == title);
        } else {
            lemma_titled_in(list.drop_last(), title);
            let i = choose|i: int|
                0 <= i < list.drop_last().len() && (#[trigger] list.drop_last()[i]).title == title;
            assert(list[i].title == title);
        }
    }
}

/// There is only one order by title of the wallpapers that were found.
pub proof fn law_title_order_is_determined(
    a: Seq<WallpaperModel>,
    b: Seq<WallpaperModel>,
    of: Seq<WallpaperModel>,
)
    requires
        is_title_order(a, of),
        is_title_order(b, of),
    ensures
        a == b,
{
    assert forall|title: Seq<char>| #[trigger] titled(a, title) == titled(b, title) by {
        assert(titled(a, title) == titled(of, title));
        assert(titled(b, title) == titled(of, title));
    }
    lemma_same_order(a, b);
}

proof fn lemma_same_order(a: Seq<WallpaperModel>, b: Seq<WallpaperModel>)
    requires
        by_title(a),
        by_title(b),
        forall|title: Seq<char>| #[trigger] titled(a, title) == titled(b, title),
    ensures
        a == b,
    decreases a.len(),
{
    if a.len() == 0 {
        if b.len() > 0 {
            lemma_titled_nonempty(b, 0);
            assert(titled(a, b[0].title) == titled(b, b[0].title));
            lemma_titled_in(a, b[0].title);
        }
        assert(a =~= b);
    } else {
        lemma_titled_nonempty(a, 0);
        assert(titled(a, a[0].title) == titled(b, a[0].title));
        lemma_titled_in(b, a[0].title);
        lemma_last_title(a, b);
        lemma_last_title(b, a);
        let t = a.last().title;
        let u = b.last().title;
        lemma_title_before(t, u, t);
        assert(t == u);
        reveal(Seq::filter);
        assert(titled(a, t) == titled(a.drop_last(), t).push(a.last()));
        assert(titled(b, t) == titled(b.drop_last(), t).push(b.last()));
        assert(titled(a, t).last() == a.last());
        assert(titled(b, t).last() == b.last());
        assert forall|title: Seq<char>| #[trigger]
            titled(a.drop_last(), title) == titled(b.drop_last(), title) by {
            assert(titled(a, title) == titled(b, title));
            if title == t {
                assert(titled(a.drop_last(), t) =~= titled(a, t).drop_last());
                assert(titled(b.drop_last(), t) =~= titled(b, t).drop_last());
            }
        }
        assert(by_title(a.drop_last())) by {
            assert forall|i: int, j: int| 0 <= i < j < a.drop_last().len() implies !title_before(
                (#[trigger] a.drop_last()[j]).title,
                (#[trigger] a.drop_last()[i]).title,
            ) by {
                assert(a.drop_last()[j] == a[j] && a.drop_last()[i] == a[i]);
            }
        }
        assert(by_title(b.drop_last())) by {
            assert forall|i: int, j: int| 0 <= i < j < b.drop_last().len() implies !title_before(
                (#[trigger] b.drop_last()[j]).title,
                (#[trigger] b.drop_last()[i]).title,
            ) by {
                assert(b.drop_last()[j] == b[j] && b.drop_last()[i] == b[i]);
            }
        }
        lemma_same_order(a.drop_last(), b.drop_last());
        assert(a =~= a.drop_last().push(a.last()));
        assert(b =~= b.drop_last().push(b.last()));
    }
}

/// The last title of one order does not come before that of the other.
proof fn lemma_last_title(a: Seq<WallpaperModel>, b: Seq<WallpaperModel>)
    requires
        by_title(b),
        a.len() > 0,
        b.len() > 0,
        forall|title: Seq<char>| #[trigger] titled(a, title) == titled(b, title),
    ensures
        !title_before(b.last().title, a.last().title),
{
    let t = a.last().title;
    lemma_titled_nonempty(a, a.len() - 1);
    assert(titled(a, t) == titled(b, t));
    lemma_titled_in(b, t);
    let i = choose|i: int| 0 <= i < b.len() && (#[trigger] b[i]).title == t;
    if i < b.len() - 1 {
        assert(!title_before(b[b.len() - 1].title, b[i].title));
    } else {
        lemma_title_before(t, t, t);
    }
}

/// Every wallpaper is counted under one kind.
pub proof fn law_counts_add_up(list: Seq<WallpaperModel>)
    ensures
        count_of(list, Kind::Image) + count_of(list, Kind::Video) + count_of(list, Kind::Shader)
            + count_of(list, Kind::Scene) + count_of(list, Kind::Web) == list.len(),
    decreases list.len(),
{
    reveal(Seq::filter);
    if list.len() > 0 {
        law_counts_add_up(list.drop_last());
    }
}

/// Everything found is listed or is a problem, unless it is a file of no known kind.
pub proof fn law_nothing_is_swallowed(f: Found)
    ensures
        found_wallpaper(f) is Some || found_problem(f) is Some || f is File,
        !(found_wallpaper(f) is Some && found_problem(f) is Some),
        f matches Found::File(path) ==> (found_wallpaper(f) is None <==> kind_by_extension(
            path@,
        ) is None),
{
}

/// What is found in two lists one behind the other is what is found in each.
proof fn lemma_found_in_both(a: Seq<Found>, b: Seq<Found>, n: int)
    requires
        0 <= n <= b.len(),
    ensures
        wallpapers_in(a + b, a.len() + n) == wallpapers_in(a, a.len() as int) + wallpapers_in(b, n),
        problems_in(a + b, a.len() + n) == problems_in(a, a.len() as int) + problems_in(b, n),
    decreases n,
{
    if n == 0 {
        lemma_found_in_first(a, b, a.len() as int);
        assert(wallpapers_in(a, a.len() as int) + wallpapers_in(b, 0) =~= wallpapers_in(
            a,
            a.len() as int,
        ));
        assert(problems_in(a, a.len() as int) + problems_in(b, 0) =~= problems_in(
            a,
            a.len() as int,
        ));
    } else {
        lemma_found_in_both(a, b, n - 1);
        assert((a + b)[a.len() + n - 1] == b[n - 1]);
        assert(wallpapers_in(a + b, a.len() + n) =~= wallpapers_in(a, a.len() as int)
            + wallpapers_in(b, n));
        assert(problems_in(a + b, a.len() + n) =~= problems_in(a, a.len() as int) + problems_in(
            b,
            n,
        ));
    }
}

proof fn lemma_found_in_first(a: Seq<Found>, b: Seq<Found>, n: int)
    requires
        0 <= n <= a.len(),
    ensures
        wallpapers_in(a + b, n) == wallpapers_in(a, n),
        problems_in(a + b, n) == problems_in(a, n),
    decreases n,
{
    if n > 0 {
        lemma_found_in_first(a, b, n - 1);
        assert((a + b)[n - 1] == a[n - 1]);
    }
}

/// A wallpaper is as often in a list as among those of its title.
proof fn lemma_count_titled(list: Seq<WallpaperModel>, w: WallpaperModel)
    ensures
        list.to_multiset().count(w) == titled(list, w.title).to_multiset().count(w),
    decreases list.len(),
{
    broadcast use vstd::seq_lib::group_to_multiset_ensures;

    reveal(Seq::filter);
    if list.len() > 0 {
        let short = list.drop_last();
        lemma_count_titled(short, w);
        assert(list =~= short.push(list.last()));
        if list.last().title == w.title {
            assert(titled(list, w.title) == titled(short, w.title).push(list.last()));
        } else {
            assert(titled(list, w.title) == titled(short, w.title));
        }
    } else {
        assert(titled(list, w.title) =~= list);
    }
}

/// Ordering by title keeps every wallpaper, as often as it was found.
pub proof fn law_ordering_loses_nothing(list: Seq<WallpaperModel>, of: Seq<WallpaperModel>)
    requires
        is_title_order(list, of),
    ensures
        list.to_multiset() == of.to_multiset(),
        list.len() == of.len(),
{
    broadcast use vstd::seq_lib::group_to_multiset_ensures;

    assert forall|w: WallpaperModel|
        list.to_multiset().count(w) == #[trigger] of.to_multiset().count(w) by {
        lemma_count_titled(list, w);
        lemma_count_titled(of, w);
        assert(titled(list, w.title) == titled(of, w.title));
    }
    assert(list.to_multiset() =~= of.to_multiset());
    vstd::seq_lib::to_multiset_len(list);
    vstd::seq_lib::to_multiset_len(of);
}

/// Scanning two lists of findings together gives the wallpapers of both results by
/// title, each as often as in the two, and the problems of the first and then of the
/// second. Nothing found gives neither.
pub proof fn law_scans_add_up(
    a: Seq<Found>,
    b: Seq<Found>,
    first: Seq<WallpaperModel>,
    second: Seq<WallpaperModel>,
    all: Seq<WallpaperModel>,
)
    requires
        is_title_order(first, wallpapers_in(a, a.len() as int)),
        is_title_order(second, wallpapers_in(b, b.len() as int)),
        is_title_order(all, wallpapers_in(a + b, (a + b).len() as int)),
    ensures
        is_title_order(all, first + second),
        all.to_multiset() == (first + second).to_multiset(),
        problems_in(a + b, (a + b).len() as int) == problems_in(a, a.len() as int) + problems_in(
            b,
            b.len() as int,
        ),
        wallpapers_in(Seq::empty(), 0) == Seq::<WallpaperModel>::empty(),
        problems_in(Seq::empty(), 0) == Seq::<ProblemModel>::empty(),
{
    lemma_found_in_both(a, b, b.len() as int);
    let x = wallpapers_in(a, a.len() as int);
    let y = wallpapers_in(b, b.len() as int);
    assert forall|title: Seq<char>| #[trigger] titled(all, title) == titled(first + second, title) by {
        let keep = |w: WallpaperModel| w.title == title;
        Seq::filter_distributes_over_add(first, second, keep);
        Seq::filter_distributes_over_add(x, y, keep);
        assert(titled(all, title) == titled(x + y, title));
        assert(titled(first, title) == titled(x, title));
        assert(titled(second, title) == titled(y, title));
    }
    law_ordering_loses_nothing(all, first + second);
}

/// A type names its kind however it is capitalised, and a type that is known decides; an
/// item without one is a scene where it has a scene package.
pub proof fn law_types_name_kinds(ty: Seq<char>, kind: Kind, has_package: bool)
    ensures
        kind != Kind::Image && kind != Kind::Shader && crate::text::lower_text(ty) == kind_name(
            kind,
        ) ==> item_kind(Some(ty), has_package) == Some(kind),
        item_kind(None, true) == Some(Kind::Scene),
        item_kind(None, false) is None,
        crate::text::lower_text(ty) != "scene"@ && crate::text::lower_text(ty) != "video"@
            && crate::text::lower_text(ty) != "web"@ ==> item_kind(Some(ty), has_package)
            == item_kind(None, has_package),
{
    reveal_strlit("scene");
    reveal_strlit("video");
    reveal_strlit("web");
    assert("scene"@[0] != "video"@[0]);
    assert("scene"@.len() == 5 && "web"@.len() == 3 && "video"@.len() == 5);
}

/// A Workshop item is known by the name of its directory, which is its title too where it
/// states none; the preview lies in that directory, where it is there at all.
pub proof fn law_items_are_known_by_their_directory(
    content: Seq<char>,
    id: Seq<char>,
    project: Project,
    has_package: bool,
    has_preview: bool,
)
    requires
        content.len() > 0 && content.last() != '/',
        crate::paths::is_file_name(id),
        id.last() != '/',
        project.preview matches Some(p) ==> crate::paths::is_file_name(p@),
    ensures
        ({
            let dir = content + seq!['/'] + id;
            let item = item_model(dir, project, has_package, has_preview);
            &&& item is Some == item_kind(crate::text::opt_text(project.ty), has_package) is Some
            &&& item matches Some(w) ==> {
                &&& w.id == IdModel::Wpe(id)
                &&& w.path == dir
                &&& project.title is None ==> w.title == id
                &&& project.title matches Some(t) ==> w.title == t@
                &&& Some(w.kind) == item_kind(crate::text::opt_text(project.ty), has_package)
                &&& project.preview is None || !has_preview ==> w.preview is None
                &&& has_preview ==> (project.preview matches Some(p) ==> w.preview == Some(
                    dir + seq!['/'] + p@,
                ))
            }
        }),
{
    let dir = content + seq!['/'] + id;
    crate::paths::law_files_lie_below_their_directory(content, id, seq!['/']);
    assert(dir.last() == id.last());
    if let Some(p) = project.preview {
        crate::paths::law_files_lie_below_their_directory(dir, p@, seq!['/']);
    }
}

/// The names of the extensions of a kind.
pub open spec fn is_extension_of(ext: Seq<char>, kind: Kind) -> bool {
    match kind {
        Kind::Image => ext == "jpg"@ || ext == "jpeg"@ || ext == "png"@ || ext == "webp"@ || ext
            == "avif"@ || ext == "bmp"@ || ext == "svg"@ || ext == "gif"@,
        Kind::Video => ext == "mp4"@ || ext == "webm"@ || ext == "mkv"@ || ext == "avi"@ || ext
            == "mov"@,
        Kind::Shader => ext == "glsl"@ || ext == "frag"@,
        _ => false,
    }
}

/// A file is of the kind that its extension belongs to, however it is capitalised, and of
/// none where it belongs to none. It is known by its path, its stem is its title, and an
/// image is its own preview.
pub proof fn law_files_are_known_by_their_path(
    dir: Seq<char>,
    stem: Seq<char>,
    ext: Seq<char>,
    kind: Kind,
)
    requires
        dir.len() > 0 && dir.last() != '/',
        stem.len() > 0,
        crate::effect::lacks(stem, '/'),
        crate::effect::lacks(ext, '/'),
        crate::effect::lacks(ext, '.'),
        crate::paths::is_file_name(stem + seq!['.'] + ext),
    ensures
        ({
            let path = dir + seq!['/'] + (stem + seq!['.'] + ext);
            let lower = crate::text::lower_text(ext);
            &&& is_extension_of(lower, kind) ==> file_model(path) == Some(
                WallpaperModel {
                    id: IdModel::File(path),
                    title: stem,
                    kind,
                    path,
                    preview: if kind == Kind::Image {
                        Some(path)
                    } else {
                        None
                    },
                },
            )
            &&& !is_extension_of(lower, Kind::Image) && !is_extension_of(lower, Kind::Video)
                && !is_extension_of(lower, Kind::Shader) ==> file_model(path) is None
        }),
{
    let whole = stem + seq!['.'] + ext;
    let path = dir + seq!['/'] + whole;
    let lower = crate::text::lower_text(ext);
    reveal_strlit(".");
    reveal_strlit("..");
    let plain = seq!['a'];
    assert(plain[0] == 'a' && "."@[0] == '.' && ".."@.len() == 2);
    crate::paths::law_files_lie_below_their_directory(dir, whole, seq!['/']);
    crate::paths::law_extensions_stand_behind_the_last_dot(dir, stem, ext, plain);
    lemma_extensions(lower);
    let a = file_model(path);
    if is_extension_of(lower, kind) {
        assert(kind_by_extension(path) == Some(kind));
    }
}

/// The tables of extensions hold the names of their kind, and no name is of two kinds.
proof fn lemma_extensions(e: Seq<char>)
    ensures
        image_extensions().contains(e) == is_extension_of(e, Kind::Image),
        video_extensions().contains(e) == is_extension_of(e, Kind::Video),
        shader_extensions().contains(e) == is_extension_of(e, Kind::Shader),
        is_extension_of(e, Kind::Video) ==> !is_extension_of(e, Kind::Image),
        is_extension_of(e, Kind::Shader) ==> !is_extension_of(e, Kind::Image) && !is_extension_of(
            e,
            Kind::Video,
        ),
{
    let s = image_extensions();
    assert(s[0] == "jpg"@ && s[1] == "jpeg"@ && s[2] == "png"@ && s[3] == "webp"@);
    assert(s[4] == "avif"@ && s[5] == "bmp"@ && s[6] == "svg"@ && s[7] == "gif"@);
    let v = video_extensions();
    assert(v[0] == "mp4"@ && v[1] == "webm"@ && v[2] == "mkv"@ && v[3] == "avi"@ && v[4]
        == "mov"@);
    let g = shader_extensions();
    assert(g[0] == "glsl"@ && g[1] == "frag"@);
    lemma_extension_letters();
}

pub proof fn lemma_extension_letters()
    ensures
        "jpg"@[0] == 'j' && "jpeg"@[0] == 'j' && "png"@[0] == 'p' && "bmp"@[0] == 'b',
        "svg"@[0] == 's' && "gif"@[0] == 'g' && "gif"@.len() == 3,
        "webp"@[0] == 'w' && "webp"@[3] == 'p' && "webm"@[0] == 'w' && "webm"@[3] == 'm',
        "avif"@[0] == 'a' && "avif"@.len() == 4 && "avi"@[0] == 'a' && "avi"@.len() == 3,
        "mp4"@[0] == 'm' && "mkv"@[0] == 'm' && "mov"@[0] == 'm',
        "glsl"@[0] == 'g' && "glsl"@.len() == 4 && "frag"@[0] == 'f',
{
    reveal_strlit("jpg");
    reveal_strlit("jpeg");
    reveal_strlit("png");
    reveal_strlit("webp");
    reveal_strlit("avif");
    reveal_strlit("bmp");
    reveal_strlit("svg");
    reveal_strlit("gif");
    reveal_strlit("mp4");
    reveal_strlit("webm");
    reveal_strlit("mkv");
    reveal_strlit("avi");
    reveal_strlit("mov");
    reveal_strlit("glsl");
    reveal_strlit("frag");
}

/// Titles are ordered by their first letters that differ, without regard to case; a title
/// comes before each that it begins, and of two that differ in case alone the one with the
/// capital comes first.
pub proof fn law_titles_are_ordered_without_case(
    start: Seq<char>,
    other: Seq<char>,
    c: char,
    d: char,
    a: Seq<char>,
    b: Seq<char>,
)
    requires
        crate::text::all_ascii(start.push(c) + a),
        crate::text::all_ascii(other.push(d) + b),
        crate::text::lower_text(start) == crate::text::lower_text(other),
    ensures
        crate::text::lower_char(c) < crate::text::lower_char(d) ==> title_before(
            start.push(c) + a,
            other.push(d) + b,
        ) && !title_before(other.push(d) + b, start.push(c) + a),
        start == other && crate::text::lower_char(c) == d && c != d && crate::text::lower_text(a)
            == crate::text::lower_text(b) ==> title_before(start.push(c) + a, other.push(d) + b),
{
    let s = start.push(c) + a;
    let t = other.push(d) + b;
    let x = crate::text::lower_text(s);
    let y = crate::text::lower_text(t);
    let l = crate::text::lower_text(start);
    assert(start.len() == l.len() == other.len());
    let p = crate::text::lower_char(c);
    let q = crate::text::lower_char(d);
    assert(x =~= l.push(p) + crate::text::lower_text(a)) by {
        assert forall|i: int| 0 <= i < x.len() implies x[i] == (l.push(p)
            + crate::text::lower_text(a))[i] by {
            crate::text::law_lower_case_is_letter_by_letter(s, i);
        }
    }
    assert(y =~= l.push(q) + crate::text::lower_text(b)) by {
        assert forall|i: int| 0 <= i < y.len() implies y[i] == (l.push(q)
            + crate::text::lower_text(b))[i] by {
            assert(l == crate::text::lower_text(other));
            crate::text::law_lower_case_is_letter_by_letter(t, i);
        }
    }
    if p < q {
        crate::strmap::law_the_first_difference_decides(
            l,
            p,
            q,
            crate::text::lower_text(a),
            crate::text::lower_text(b),
        );
    }
    if start == other && p == d && c != d && crate::text::lower_text(a) == crate::text::lower_text(
        b,
    ) {
        assert(crate::text::lower_char(d) == d);
        assert(x == y);
        crate::strmap::law_the_first_difference_decides(start, c, d, a, b);
    }
}

/// Adding a wallpaper to a list counts it under its kind, and changes no other count; the
/// kinds that occur are told in one order, each with its count.
pub proof fn law_kinds_are_counted_one_by_one(
    list: Seq<WallpaperModel>,
    w: WallpaperModel,
    kind: Kind,
    i: int,
    j: int,
)
    requires
        list.len() <= usize::MAX,
    ensures
        count_of(Seq::empty(), kind) == 0,
        count_of(list.push(w), kind) == count_of(list, kind) + (if w.kind == kind {
            1nat
        } else {
            0nat
        }),
        0 <= i < kind_counts(list).len() ==> {
            let (k, n) = kind_counts(list)[i];
            n == count_of(list, k) && n > 0
        },
        count_of(list, kind) > 0 ==> exists|i: int|
            0 <= i < kind_counts(list).len() && (#[trigger] kind_counts(list)[i]).0 == kind,
        0 <= i < j < kind_counts(list).len() ==> kind_rank(kind_counts(list)[i].0) < kind_rank(
            kind_counts(list)[j].0,
        ),
{
    reveal(Seq::filter);
    let keep = |w: WallpaperModel| w.kind == kind;
    assert(list.push(w).drop_last() =~= list);
    assert(Seq::<WallpaperModel>::empty().filter(keep).len() == 0);
    law_counts_add_up(list);
    let a = counted(list, Kind::Image);
    let b = counted(list, Kind::Video);
    let c = counted(list, Kind::Shader);
    let d = counted(list, Kind::Scene);
    let e = counted(list, Kind::Web);
    let all = kind_counts(list);
    assert(all =~= a + b + c + d + e);
    let at = match kind {
        Kind::Image => 0int,
        Kind::Video => a.len() as int,
        Kind::Shader => a.len() + b.len() as int,
        Kind::Scene => a.len() + b.len() + c.len() as int,
        Kind::Web => a.len() + b.len() + c.len() + d.len() as int,
    };
    if count_of(list, kind) > 0 {
        assert(all[at].0 == kind);
    }
}

/// The place of a kind among the kinds.
pub open spec fn kind_rank(k: Kind) -> int {
    match k {
        Kind::Image => 0,
        Kind::Video => 1,
        Kind::Shader => 2,
        Kind::Scene => 3,
        Kind::Web => 4,
    }
}

/// An item of no known type is a problem at its directory that tells the type; what could
/// not be read is one at its path that tells the reason.
pub proof fn law_problems_tell_where_and_why(
    dir: String,
    project: Project,
    has_preview: bool,
    reason: String,
)
    ensures
        item_kind(crate::text::opt_text(project.ty), false) is None ==> {
            &&& found_problem(
                Found::Item { dir, project, has_package: false, has_preview },
            ) matches Some(p)
            &&& p.place() == dir@
            &&& project.ty matches Some(t) ==> p.told() == "unknown wallpaper type "@
                + crate::text::in_quotes(t@)
            &&& project.ty is None ==> p.told() == "unknown wallpaper type "@
                + crate::text::in_quotes("<missing>"@)
        },
        found_problem(Found::Unreadable { path: dir, reason }) matches Some(p) && p.place() == dir@
            && p.told() == reason@,
        found_problem(Found::File(dir)) is None,
{
}

/// Only web wallpapers cannot be rendered; an entry of the Workshop is taken where it is a
/// directory with a project, and one of a directory where it is a file.
pub proof fn law_entries_are_taken_or_passed_over(
    w: Wallpaper,
    is_dir: bool,
    flag: bool,
    r: bool,
    v: Visit,
)
    ensures
        call_ensures(Wallpaper::supported, (&w,), r) ==> r == !(w.kind is Web),
        call_ensures(visit_workshop, (is_dir, flag), v) ==> (v is Take == (is_dir && flag) && !(
        v is Descend)),
        call_ensures(visit_directory, (is_dir, flag), v) ==> (v is Take == !is_dir && v is Descend
            == (is_dir && flag) && v is Skip == (is_dir && !flag)),
{
}

} // verus!
