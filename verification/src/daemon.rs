//! What the daemon decides.
//!
//! The daemon owns the layer surfaces and serves the control socket: one event loop
//! watches both the Wayland connection and the socket, so a client request and a
//! compositor event go through the same state without locking. Here stands what it
//! answers to a request and what it asks of the renderers.
use vstd::prelude::*;
use crate::catalog::Kind;
use crate::paths::file_name;
use crate::policy::{PolicyAction, PolicyEngine};
use crate::protocol::{OutputStatus, Request, Response, Status, Target};
use crate::text::{join_with, push_text, quoted, same_text};

verus! {

/// How a wallpaper is fitted to an output.
#[derive(Debug, Clone, Copy, PartialEq, Eq, Structural)]
pub enum Scaling {
    Fill,
    Fit,
    Stretch,
    Center,
}

/// The name of a scaling mode.
pub open spec fn scaling_name(s: Scaling) -> Seq<char> {
    match s {
        Scaling::Fill => "fill"@,
        Scaling::Fit => "fit"@,
        Scaling::Stretch => "stretch"@,
        Scaling::Center => "center"@,
    }
}

/// The scaling mode of a name.
pub open spec fn scaling_named(name: Seq<char>) -> Option<Scaling> {
    if name == "fill"@ {
        Some(Scaling::Fill)
    } else if name == "fit"@ {
        Some(Scaling::Fit)
    } else if name == "stretch"@ {
        Some(Scaling::Stretch)
    } else if name == "center"@ {
        Some(Scaling::Center)
    } else {
        None
    }
}

impl Scaling {
    pub fn as_str(self) -> (r: &'static str)
        ensures
            r@ == scaling_name(self),
    {
        match self {
            Scaling::Fill => "fill",
            Scaling::Fit => "fit",
            Scaling::Stretch => "stretch",
            Scaling::Center => "center",
        }
    }

    pub fn parse(name: &str) -> (r: Option<Scaling>)
        ensures
            r == scaling_named(name@),
    {
        if same_text(name, "fill") {
            Some(Scaling::Fill)
        } else if same_text(name, "fit") {
            Some(Scaling::Fit)
        } else if same_text(name, "stretch") {
            Some(Scaling::Stretch)
        } else if same_text(name, "center") {
            Some(Scaling::Center)
        } else {
            None
        }
    }
}

/// The name of a scaling mode is read back as that mode.
pub proof fn law_scaling_names_are_read_back(s: Scaling)
    ensures
        scaling_named(scaling_name(s)) == Some(s),
{
    reveal_strlit("fill");
    reveal_strlit("fit");
    reveal_strlit("stretch");
    reveal_strlit("center");
    assert("fill"@.len() == 4 && "fit"@.len() == 3 && "stretch"@.len() == 7 && "center"@.len() == 6);
}

/// A wallpaper to show, and how.
#[derive(Debug, Clone, PartialEq, Eq)]
pub struct WallpaperSpec {
    pub path: String,
    pub scaling: Scaling,
    pub kind: Kind,
}

/// What a wallpaper to show stands for.
pub ghost struct SpecModel {
    pub path: Seq<char>,
    pub scaling: Scaling,
    pub kind: Kind,
}

impl View for WallpaperSpec {
    type V = SpecModel;

    open spec fn view(&self) -> SpecModel {
        SpecModel { path: self.path@, scaling: self.scaling, kind: self.kind }
    }
}

/// Why a wallpaper is not shown.
#[derive(Debug, Clone, PartialEq, Eq)]
pub enum SetError {
    NotAFile { path: String },
    UnknownScaling { scaling: String },
    NotAWallpaper { path: String },
    UnknownOutput { name: String, known: Vec<String> },
}

/// What an error stands for.
pub ghost enum SetErrorModel {
    NotAFile { path: Seq<char> },
    UnknownScaling { scaling: Seq<char> },
    NotAWallpaper { path: Seq<char> },
    UnknownOutput { name: Seq<char>, known: Seq<Seq<char>> },
}

impl View for SetError {
    type V = SetErrorModel;

    open spec fn view(&self) -> SetErrorModel {
        match self {
            SetError::NotAFile { path } => SetErrorModel::NotAFile { path: path@ },
            SetError::UnknownScaling { scaling } => SetErrorModel::UnknownScaling {
                scaling: scaling@,
            },
            SetError::NotAWallpaper { path } => SetErrorModel::NotAWallpaper { path: path@ },
            SetError::UnknownOutput { name, known } => SetErrorModel::UnknownOutput {
                name: name@,
                known: crate::text::texts(known@),
            },
        }
    }
}

/// The names of outputs, for a message.
pub open spec fn outputs_listed(known: Seq<Seq<char>>) -> Seq<char> {
    if known.len() == 0 {
        "none"@
    } else {
        crate::text::parted(known, ", "@)
    }
}

/// What a user is told of an error.
pub open spec fn set_message(e: SetErrorModel) -> Seq<char> {
    match e {
        SetErrorModel::NotAFile { path } => path + " is not a readable file"@,
        SetErrorModel::UnknownScaling { scaling } => "unknown scaling mode "@
            + crate::text::in_quotes(scaling),
        SetErrorModel::NotAWallpaper { path } => path + " is not a wallpaper hyprwpe can render"@,
        SetErrorModel::UnknownOutput { name, known } => "no output named "@
            + crate::text::in_quotes(name) + "; connected outputs: "@ + outputs_listed(known),
    }
}

impl SetError {
    /// What a user is told of it.
    pub fn message(&self) -> (r: String)
        ensures
            r@ == set_message(self@),
    {
        let mut out = String::new();
        match self {
            SetError::NotAFile { path } => {
                push_text(&mut out, path.as_str());
                push_text(&mut out, " is not a readable file");
            },
            SetError::UnknownScaling { scaling } => {
                push_text(&mut out, "unknown scaling mode ");
                push_text(&mut out, quoted(scaling.as_str()).as_str());
            },
            SetError::NotAWallpaper { path } => {
                push_text(&mut out, path.as_str());
                push_text(&mut out, " is not a wallpaper hyprwpe can render");
            },
            SetError::UnknownOutput { name, known } => {
                push_text(&mut out, "no output named ");
                push_text(&mut out, quoted(name.as_str()).as_str());
                push_text(&mut out, "; connected outputs: ");
                if known.len() == 0 {
                    push_text(&mut out, "none");
                } else {
                    push_text(&mut out, join_with(known, ", ").as_str());
                }
            },
        }
        proof {
            assert(out@ =~= set_message(self@));
        }
        out
    }
}

/// What a file is, as something to show: by its extension, or a scene where it is a
/// scene package.
pub open spec fn media_kind_of(path: Seq<char>) -> Option<Kind> {
    match crate::catalog::kind_by_extension(path) {
        Some(k) => Some(k),
        None => if crate::paths::file_name_of(path) == Some("scene.pkg"@) {
            Some(Kind::Scene)
        } else {
            None
        },
    }
}

/// What a file is, as something to show.
pub fn media_kind(path: &str) -> (r: Option<Kind>)
    ensures
        r == media_kind_of(path@),
{
    match Kind::from_extension(path) {
        Some(k) => Some(k),
        None => match file_name(path) {
            Some(name) => if same_text(name.as_str(), "scene.pkg") {
                Some(Kind::Scene)
            } else {
                None
            },
            None => None,
        },
    }
}

/// What a request to show a wallpaper comes to.
pub open spec fn prepared(
    path: Seq<char>,
    target: Option<Seq<char>>,
    scaling: Seq<char>,
    is_file: bool,
    known: Seq<Seq<char>>,
) -> Result<SpecModel, SetErrorModel> {
    if !is_file {
        Err(SetErrorModel::NotAFile { path })
    } else {
        match scaling_named(scaling) {
            None => Err(SetErrorModel::UnknownScaling { scaling }),
            Some(mode) => match media_kind_of(path) {
                None => Err(SetErrorModel::NotAWallpaper { path }),
                Some(kind) => if target matches Some(name) && !known.contains(name) {
                    Err(SetErrorModel::UnknownOutput { name: target->0, known })
                } else {
                    Ok(SpecModel { path, scaling: mode, kind })
                },
            },
        }
    }
}

fn is_listed(list: &Vec<String>, name: &str) -> (r: bool)
    ensures
        r == crate::text::texts(list@).contains(name@),
{
    let ghost all = crate::text::texts(list@);
    let mut i: usize = 0;
    while i < list.len()
        invariant
            i <= list@.len(),
            all == crate::text::texts(list@),
            forall|j: int| 0 <= j < i ==> all[j] != name@,
        decreases list@.len() - i,
    {
        if same_text(list[i].as_str(), name) {
            proof {
                assert(all[i as int] == name@);
            }
            return true;
        }
        i += 1;
    }
    false
}

fn copy_texts(list: &Vec<String>) -> (r: Vec<String>)
    ensures
        crate::text::texts(r@) == crate::text::texts(list@),
{
    let mut out: Vec<String> = Vec::new();
    let mut i: usize = 0;
    while i < list.len()
        invariant
            i <= list@.len(),
            out@.len() == i,
            forall|j: int| 0 <= j < i ==> (#[trigger] out@[j])@ == list@[j]@,
        decreases list@.len() - i,
    {
        out.push(list[i].clone());
        i += 1;
    }
    proof {
        assert(crate::text::texts(out@) =~= crate::text::texts(list@));
    }
    out
}

/// Validate a request to show a wallpaper before it touches state, so a bad request
/// leaves the current wallpaper alone rather than half-applying. `is_file` says
/// whether the path is a readable file, `known` which outputs are connected.
pub fn prepare_set(
    path: &str,
    target: &Target,
    scaling: &str,
    is_file: bool,
    known: &Vec<String>,
) -> (r: Result<(Target, WallpaperSpec), SetError>)
    ensures
        match r {
            Ok((to, spec)) => to@ == target@ && prepared(
                path@,
                target@,
                scaling@,
                is_file,
                crate::text::texts(known@),
            ) == Ok::<SpecModel, SetErrorModel>(spec@),
            Err(e) => prepared(path@, target@, scaling@, is_file, crate::text::texts(known@))
                == Err::<SpecModel, SetErrorModel>(e@),
        },
{
    if !is_file {
        return Err(SetError::NotAFile { path: path.to_string() });
    }
    let mode = match Scaling::parse(scaling) {
        Some(m) => m,
        None => {
            return Err(SetError::UnknownScaling { scaling: scaling.to_string() });
        },
    };
    let kind = match media_kind(path) {
        Some(k) => k,
        None => {
            return Err(SetError::NotAWallpaper { path: path.to_string() });
        },
    };
    let to = match target {
        Target::All => Target::All,
        Target::Output(name) => {
            if !is_listed(known, name.as_str()) {
                return Err(
                    SetError::UnknownOutput { name: name.clone(), known: copy_texts(known) },
                );
            }
            Target::Output(name.clone())
        },
    };
    Ok((to, WallpaperSpec { path: path.to_string(), scaling: mode, kind }))
}

/// What the daemon knows when a request comes in: whether the path that it names is a
/// readable file, and what the renderers and the process say of themselves.
#[derive(Debug)]
pub struct Desk {
    pub is_file: bool,
    pub known: Vec<String>,
    pub outputs: Vec<OutputStatus>,
    pub renderers_paused: bool,
    pub rss_kb: Option<u64>,
}

/// What is to be done besides answering.
#[derive(Debug, PartialEq, Eq)]
pub enum Effect {
    Nothing,
    /// Leave the event loop.
    Exit,
    /// Pass an action on to the renderers.
    Act(PolicyAction),
    /// Show a wallpaper, then save what is shown.
    Show { target: Target, spec: WallpaperSpec },
}

/// Answer a request. The wallpaper of a good request is to be saved after it is
/// applied, so a state file only ever describes something that actually worked.
pub fn handle(req: &Request, policy: &mut PolicyEngine, desk: Desk) -> (r: (Response, Effect))
    ensures
        match req {
            Request::Ping => {
                &&& r.0 is Done
                &&& r.1 is Nothing
                &&& final(policy)@ == old(policy)@
            },
            Request::Stop => {
                &&& r.0 is Done
                &&& r.1 is Exit
                &&& final(policy)@ == old(policy)@
            },
            Request::Pause => {
                &&& r.0 is Done
                &&& r.1 == Effect::Act(old(policy)@.by_hand(true).1)
                &&& final(policy)@ == old(policy)@.by_hand(true).0
            },
            Request::Resume => {
                &&& r.0 is Done
                &&& r.1 == Effect::Act(old(policy)@.by_hand(false).1)
                &&& final(policy)@ == old(policy)@.by_hand(false).0
            },
            Request::Status => {
                &&& r.0 matches Response::Status(s) && s.outputs == desk.outputs && s.rss_kb
                    == desk.rss_kb && s.paused == (old(policy)@.state
                    == crate::policy::PolicyState::Suspended || desk.renderers_paused)
                &&& r.1 is Nothing
                &&& final(policy)@ == old(policy)@
            },
            Request::Show { path, target, scaling } => {
                &&& final(policy)@ == old(policy)@
                &&& match prepared(
                    path@,
                    target@,
                    scaling@,
                    desk.is_file,
                    crate::text::texts(desk.known@),
                ) {
                    Ok(m) => r.0 is Done && (r.1 matches Effect::Show { target: to, spec }
                        && to@ == target@ && spec@ == m),
                    Err(e) => r.1 is Nothing && (r.0 matches Response::Error { message }
                        && message@ == set_message(e)),
                }
            },
        },
        r.0 is Error ==> r.1 is Nothing && final(policy)@ == old(policy)@,
{
    match req {
        Request::Ping => (Response::Done, Effect::Nothing),
        Request::Stop => (Response::Done, Effect::Exit),
        Request::Pause => {
            let action = policy.set_manual_pause(true);
            (Response::Done, Effect::Act(action))
        },
        Request::Resume => {
            let action = policy.set_manual_pause(false);
            (Response::Done, Effect::Act(action))
        },
        Request::Status => {
            let paused = policy.is_paused() || desk.renderers_paused;
            (
                Response::Status(Status { outputs: desk.outputs, paused, rss_kb: desk.rss_kb }),
                Effect::Nothing,
            )
        },
        Request::Show { path, target, scaling } => match prepare_set(
            path.as_str(),
            target,
            scaling.as_str(),
            desk.is_file,
            &desk.known,
        ) {
            Ok((to, spec)) => (Response::Done, Effect::Show { target: to, spec }),
            Err(e) => (Response::Error { message: e.message() }, Effect::Nothing),
        },
    }
}

/// How the daemon takes the control socket.
#[derive(Debug, Clone, Copy, PartialEq, Eq, Structural)]
pub enum Start {
    /// Another daemon owns the display.
    AlreadyRunning,
    /// A daemon that was killed left its socket: it is removed first.
    RemoveStale,
    Bind,
}

/// How to take the control socket. A socket file outlives a daemon that was killed, so
/// its mere presence proves nothing. Connecting does: if someone answers, they own
/// the display.
pub fn start(answered: bool, exists: bool) -> (r: Start)
    ensures
        r == (if answered {
            Start::AlreadyRunning
        } else if exists {
            Start::RemoveStale
        } else {
            Start::Bind
        }),
{
    if answered {
        Start::AlreadyRunning
    } else if exists {
        Start::RemoveStale
    } else {
        Start::Bind
    }
}

/// What is shown is a readable file of a kind that can be rendered, on an output that
/// is connected or on all.
pub proof fn law_only_what_can_be_shown_is_shown(
    path: Seq<char>,
    target: Option<Seq<char>>,
    scaling: Seq<char>,
    is_file: bool,
    known: Seq<Seq<char>>,
)
    ensures
        prepared(path, target, scaling, is_file, known) matches Ok(m) ==> {
            &&& is_file
            &&& m.path == path
            &&& m.kind != Kind::Web
            &&& scaling_name(m.scaling) == scaling
            &&& target matches Some(name) ==> known.contains(name)
        },
{
}

/// A readable file of a kind that can be shown is shown as it was asked for: the path, the
/// mode of that name and the file's own kind, on all outputs or on one that is connected.
pub proof fn law_good_requests_are_shown_as_asked(
    path: Seq<char>,
    mode: Scaling,
    kind: Kind,
    name: Seq<char>,
    known: Seq<Seq<char>>,
)
    requires
        media_kind_of(path) == Some(kind),
    ensures
        prepared(path, None, scaling_name(mode), true, known) == Ok::<SpecModel, SetErrorModel>(
            SpecModel { path, scaling: mode, kind },
        ),
        known.contains(name) ==> prepared(path, Some(name), scaling_name(mode), true, known)
            == Ok::<SpecModel, SetErrorModel>(SpecModel { path, scaling: mode, kind }),
        !known.contains(name) ==> prepared(path, Some(name), scaling_name(mode), true, known)
            == Err::<SpecModel, SetErrorModel>(SetErrorModel::UnknownOutput { name, known }),
{
    law_scaling_names_are_read_back(mode);
}

/// Of several faults the first is told: that the path is no file, then that the mode is
/// none, then that the file is no wallpaper.
pub proof fn law_the_first_fault_is_told(
    path: Seq<char>,
    target: Option<Seq<char>>,
    scaling: Seq<char>,
    mode: Scaling,
    known: Seq<Seq<char>>,
)
    ensures
        prepared(path, target, scaling, false, known) == Err::<SpecModel, SetErrorModel>(
            SetErrorModel::NotAFile { path },
        ),
        scaling != "fill"@ && scaling != "fit"@ && scaling != "stretch"@ && scaling != "center"@
            ==> prepared(path, target, scaling, true, known) == Err::<SpecModel, SetErrorModel>(
            SetErrorModel::UnknownScaling { scaling },
        ),
        media_kind_of(path) is None ==> prepared(path, target, scaling_name(mode), true, known)
            == Err::<SpecModel, SetErrorModel>(SetErrorModel::NotAWallpaper { path }),
{
    law_scaling_names_are_read_back(mode);
}

/// A file is shown as what its extension says; a file of the name of a scene package is a
/// scene, and one of no known extension and another name is nothing to show.
pub proof fn law_files_are_shown_as_what_they_are(
    dir: Seq<char>,
    stem: Seq<char>,
    ext: Seq<char>,
    kind: Kind,
)
    requires
        dir.len() > 0 && dir.last() != '/',
        stem.len() > 0,
        crate::effect::lacks(stem, '/'),
        crate::effect::lacks(ext, '/'),
        crate::effect::lacks(ext, '.'),
        crate::paths::is_file_name(stem + seq!['.'] + ext),
        crate::catalog::is_extension_of(crate::text::lower_text(ext), kind),
    ensures
        media_kind_of(dir + seq!['/'] + (stem + seq!['.'] + ext)) == Some(kind),
        media_kind_of(dir + "/scene.pkg"@) == Some(Kind::Scene),
        media_kind_of(dir + "/other.pkg"@) is None,
{
    reveal_strlit("scene.pkg");
    reveal_strlit("/scene.pkg");
    reveal_strlit("/other.pkg");
    reveal_strlit("scene");
    reveal_strlit("other");
    reveal_strlit("pkg");
    reveal_strlit(".");
    reveal_strlit("..");
    crate::catalog::law_files_are_known_by_their_path(dir, stem, ext, kind);
    let a = "scene"@ + seq!['.'] + "pkg"@;
    let b = "other"@ + seq!['.'] + "pkg"@;
    assert(a.len() == 9 && b.len() == 9);
    assert(a =~= "scene.pkg"@);
    assert(dir + "/scene.pkg"@ =~= dir + seq!['/'] + a);
    assert(dir + "/other.pkg"@ =~= dir + seq!['/'] + b);
    assert(crate::text::lower_text("pkg"@) =~= "pkg"@);
    lemma_no_media();
    crate::catalog::law_files_are_known_by_their_path(dir, "scene"@, "pkg"@, kind);
    crate::catalog::law_files_are_known_by_their_path(dir, "other"@, "pkg"@, kind);
    crate::paths::law_files_lie_below_their_directory(dir, a, seq!['/']);
    crate::paths::law_files_lie_below_their_directory(dir, b, seq!['/']);
    assert(b[0] == 'o' && "scene.pkg"@[0] == 's');
}

proof fn lemma_no_media()
    ensures
        !crate::catalog::is_extension_of("pkg"@, Kind::Image),
        !crate::catalog::is_extension_of("pkg"@, Kind::Video),
        !crate::catalog::is_extension_of("pkg"@, Kind::Shader),
{
    reveal_strlit("pkg");
    crate::catalog::lemma_extension_letters();
    reveal_strlit("png");
    assert("png"@[1] == 'n' && "pkg"@[1] == 'k' && "pkg"@[0] == 'p');
}

/// Whoever answers on the socket keeps it, and a socket that nobody answers on is removed.
pub proof fn law_a_live_socket_is_left_alone(exists: bool, r: Start, s: Start)
    requires
        call_ensures(start, (true, exists), r),
        call_ensures(start, (false, exists), s),
    ensures
        r is AlreadyRunning,
        s is RemoveStale == exists,
        s is Bind == !exists,
{
}

} // verus!
