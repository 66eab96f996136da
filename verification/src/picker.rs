//! What the graphical picker decides and shows.
//!
//! It is a plain client: everything it does goes through the same socket the command
//! line uses, so it cannot reach anything `hyprwpe` cannot.
use vstd::prelude::*;
use crate::catalog::{Kind, Wallpaper};
use crate::client::ClientError;
use crate::commands::show_request;
use crate::daemon::Scaling;
use crate::paths::file_name;
use crate::protocol::{OutputStatus, Request, Response, Status};
use crate::text::{join_with, opt_copy, push_text, same_text};

verus! {

/// What the header selections apply to the next click.
#[derive(Debug, Clone, PartialEq, Eq)]
pub struct Selection {
    pub output: Option<String>,
    pub scaling: String,
}

impl Default for Selection {
    fn default() -> (r: Self)
        ensures
            r.output is None,
            r.scaling@ == "fill"@,
    {
        Selection { output: None, scaling: "fill".to_string() }
    }
}

/// How many categories there are to choose from.
pub const CATEGORIES: usize = 5;

/// How many scaling modes there are to choose from.
pub const SCALINGS: usize = 4;

/// The label of a category, and the kind that it filters by.
pub fn category(i: usize) -> (r: (&'static str, Option<Kind>))
    requires
        i < CATEGORIES,
    ensures
        r.0@ == seq!["All"@, "Images"@, "Scenes"@, "Videos"@, "Web"@][i as int],
        r.1 == seq![
            None::<Kind>,
            Some(Kind::Image),
            Some(Kind::Scene),
            Some(Kind::Video),
            Some(Kind::Web),
        ][i as int],
{
    if i == 0 {
        ("All", None)
    } else if i == 1 {
        ("Images", Some(Kind::Image))
    } else if i == 2 {
        ("Scenes", Some(Kind::Scene))
    } else if i == 3 {
        ("Videos", Some(Kind::Video))
    } else {
        ("Web", Some(Kind::Web))
    }
}

/// A scaling mode to choose from.
pub fn scaling_choice(i: usize) -> (r: Scaling)
    requires
        i < SCALINGS,
    ensures
        r == seq![Scaling::Fill, Scaling::Fit, Scaling::Stretch, Scaling::Center][i as int],
{
    if i == 0 {
        Scaling::Fill
    } else if i == 1 {
        Scaling::Fit
    } else if i == 2 {
        Scaling::Stretch
    } else {
        Scaling::Center
    }
}

/// The output that a place in the list of outputs stands for: the first stands for
/// all of them.
pub open spec fn chosen_output(outputs: Seq<Seq<char>>, i: int) -> Option<Seq<char>> {
    if 1 <= i <= outputs.len() {
        Some(outputs[i - 1])
    } else {
        None
    }
}

/// The entries of the list of outputs.
pub open spec fn items_for(outputs: Seq<Seq<char>>) -> Seq<Seq<char>> {
    seq!["All outputs"@] + outputs
}

/// The output that a place in the list of outputs stands for.
pub fn output_choice(outputs: &Vec<String>, i: usize) -> (r: Option<String>)
    ensures
        crate::text::opt_text(r) == chosen_output(crate::text::texts(outputs@), i as int),
{
    if 1 <= i && i <= outputs.len() {
        Some(outputs[i - 1].clone())
    } else {
        None
    }
}

/// The entries of the list of outputs.
pub fn output_items(outputs: &Vec<String>) -> (r: Vec<String>)
    ensures
        crate::text::texts(r@) == items_for(crate::text::texts(outputs@)),
{
    let mut out: Vec<String> = Vec::new();
    out.push("All outputs".to_string());
    let mut i: usize = 0;
    while i < outputs.len()
        invariant
            i <= outputs@.len(),
            out@.len() == i + 1,
            out@[0]@ == "All outputs"@,
            forall|j: int| 0 <= j < i ==> (#[trigger] outputs@[j])@ == out@[j + 1]@,
        decreases outputs@.len() - i,
    {
        out.push(outputs[i].clone());
        i += 1;
    }
    proof {
        let all = seq!["All outputs"@] + crate::text::texts(outputs@);
        assert forall|k: int| 0 <= k < all.len() implies crate::text::texts(out@)[k] == all[k] by {
            if k > 0 {
                assert(outputs@[k - 1]@ == out@[k]@);
            }
        }
        assert(crate::text::texts(out@) =~= all);
    }
    out
}

/// The names of the outputs in a status.
pub open spec fn names_in(outputs: Seq<OutputStatus>) -> Seq<Seq<char>> {
    Seq::new(outputs.len(), |i: int| outputs[i].name@)
}

/// The names of the outputs in a status.
pub fn output_names(status: &Status) -> (r: Vec<String>)
    ensures
        crate::text::texts(r@) == names_in(status.outputs@),
{
    let mut out: Vec<String> = Vec::new();
    let mut i: usize = 0;
    while i < status.outputs.len()
        invariant
            i <= status.outputs@.len(),
            out@.len() == i,
            forall|j: int| 0 <= j < i ==> (#[trigger] out@[j])@ == status.outputs@[j].name@,
        decreases status.outputs@.len() - i,
    {
        out.push(status.outputs[i].name.clone());
        i += 1;
    }
    proof {
        assert(crate::text::texts(out@) =~= names_in(status.outputs@));
    }
    out
}

/// Whether two lists of names differ, so that the list of outputs has to be built anew.
pub fn outputs_changed(old_names: &Vec<String>, new_names: &Vec<String>) -> (r: bool)
    ensures
        r == (crate::text::texts(old_names@) != crate::text::texts(new_names@)),
{
    let ghost a = crate::text::texts(old_names@);
    let ghost b = crate::text::texts(new_names@);
    if old_names.len() != new_names.len() {
        proof {
            assert(a.len() != b.len());
        }
        return true;
    }
    let mut i: usize = 0;
    while i < old_names.len()
        invariant
            i <= old_names@.len() == new_names@.len(),
            a == crate::text::texts(old_names@),
            b == crate::text::texts(new_names@),
            forall|j: int| 0 <= j < i ==> a[j] == b[j],
        decreases old_names@.len() - i,
    {
        if !same_text(old_names[i].as_str(), new_names[i].as_str()) {
            proof {
                assert(a[i as int] != b[i as int]);
            }
            return true;
        }
        i += 1;
    }
    proof {
        assert(a =~= b);
    }
    false
}

/// What stands under the title of a tile.
pub open spec fn subtitle_text(kind: Kind) -> Seq<char> {
    if kind == Kind::Web {
        crate::catalog::kind_name(kind) + " · unsupported"@
    } else {
        crate::catalog::kind_name(kind)
    }
}

/// What stands under the title of a tile.
pub fn subtitle(w: &Wallpaper) -> (r: String)
    ensures
        r@ == subtitle_text(w.kind),
{
    let mut out = String::new();
    push_text(&mut out, w.kind.as_str());
    if !w.supported() {
        push_text(&mut out, " · unsupported");
    }
    proof {
        assert(out@ =~= subtitle_text(w.kind));
    }
    out
}

/// What a click on a tile comes to: the request to send, or why there is none. Every
/// tile stays clickable, including kinds that cannot be shown from here: a click that
/// explains itself does not look broken.
pub fn apply(w: &Wallpaper, selection: &Selection) -> (r: Result<Request, String>)
    ensures
        match r {
            Ok(request) => w.kind == Kind::Image && (request matches Request::Show {
                path,
                target,
                scaling,
            } && path@ == w.path@ && scaling@ == selection.scaling@ && target@
                == crate::text::opt_text(selection.output)),
            Err(message) => w.kind != Kind::Image && message@ == "hyprwpe cannot render "@
                + crate::catalog::kind_name(w.kind) + " wallpapers yet"@,
        },
{
    if w.kind != Kind::Image {
        let mut out = String::new();
        push_text(&mut out, "hyprwpe cannot render ");
        push_text(&mut out, w.kind.as_str());
        push_text(&mut out, " wallpapers yet");
        proof {
            assert(out@ =~= "hyprwpe cannot render "@ + crate::catalog::kind_name(w.kind)
                + " wallpapers yet"@);
        }
        return Err(out);
    }
    let output = opt_copy(selection.output.as_ref());
    Ok(show_request(w.path.clone(), output, selection.scaling.clone()))
}

/// What the user is told of the reply to a click; `failure` says what went wrong where
/// there was none.
pub fn applied_message(
    title: &str,
    reply: &Result<Response, ClientError>,
    failure: &str,
) -> (r: String)
    ensures
        r@ == (match reply {
            Ok(Response::Done) => "Set "@ + title@,
            Ok(Response::Error { message }) => message@,
            Ok(Response::Status(_)) => "Unexpected response from the daemon"@,
            Err(_) => failure@,
        }),
{
    let mut out = String::new();
    match reply {
        Ok(Response::Done) => {
            push_text(&mut out, "Set ");
            push_text(&mut out, title);
        },
        Ok(Response::Error { message }) => {
            push_text(&mut out, message.as_str());
        },
        Ok(Response::Status(_)) => {
            push_text(&mut out, "Unexpected response from the daemon");
        },
        Err(_) => {
            push_text(&mut out, failure);
        },
    }
    proof {
        match reply {
            Ok(Response::Done) => {
                assert(out@ =~= "Set "@ + title@);
            },
            Ok(Response::Error { message }) => {
                assert(out@ =~= message@);
            },
            Ok(Response::Status(_)) => {
                assert(out@ =~= "Unexpected response from the daemon"@);
            },
            Err(_) => {
                assert(out@ =~= failure@);
            },
        }
    }
    out
}

/// What is said of one output.
pub open spec fn output_described(o: OutputStatus) -> Seq<char> {
    let name = match o.wallpaper {
        Some(p) => match crate::paths::file_name_of(p@) {
            Some(n) => n,
            None => "nothing"@,
        },
        None => "nothing"@,
    };
    o.name@ + ": "@ + name
}

/// What is said of the daemon's memory.
pub open spec fn memory_described(megabytes: Option<Seq<char>>) -> Seq<Seq<char>> {
    match megabytes {
        Some(mb) => seq!["daemon "@ + mb + " MB"@],
        None => Seq::empty(),
    }
}

/// What is said of a status; `megabytes` is the daemon's memory, rounded.
pub open spec fn described(outputs: Seq<OutputStatus>, megabytes: Option<Seq<char>>) -> Seq<char> {
    crate::text::parted(
        Seq::new(outputs.len(), |i: int| output_described(outputs[i])) + memory_described(
            megabytes,
        ),
        "   ·   "@,
    )
}

/// What is said of a status.
pub fn describe(status: &Status, megabytes: &Option<String>) -> (r: String)
    ensures
        r@ == described(status.outputs@, crate::text::opt_text(*megabytes)),
{
    let mut parts: Vec<String> = Vec::new();
    let mut i: usize = 0;
    while i < status.outputs.len()
        invariant
            i <= status.outputs@.len(),
            parts@.len() == i,
            forall|j: int|
                0 <= j < i ==> (#[trigger] parts@[j])@ == output_described(status.outputs@[j]),
        decreases status.outputs@.len() - i,
    {
        let o = &status.outputs[i];
        let name = match &o.wallpaper {
            Some(p) => match file_name(p.as_str()) {
                Some(n) => n,
                None => "nothing".to_string(),
            },
            None => "nothing".to_string(),
        };
        let mut one = String::new();
        push_text(&mut one, o.name.as_str());
        push_text(&mut one, ": ");
        push_text(&mut one, name.as_str());
        proof {
            assert(one@ =~= output_described(*o));
        }
        parts.push(one);
        i += 1;
    }
    let ghost start = crate::text::texts(parts@);
    if let Some(mb) = megabytes {
        let mut one = String::new();
        push_text(&mut one, "daemon ");
        push_text(&mut one, mb.as_str());
        push_text(&mut one, " MB");
        proof {
            assert(one@ =~= "daemon "@ + mb@ + " MB"@);
        }
        parts.push(one);
    }
    proof {
        assert(crate::text::texts(parts@) =~= Seq::new(
            status.outputs@.len(),
            |i: int| output_described(status.outputs@[i]),
        ) + memory_described(crate::text::opt_text(*megabytes)));
    }
    join_with(&parts, "   ·   ")
}

/// Choosing an entry of the list of outputs chooses the output that it names, and the
/// first chooses all.
pub proof fn law_entries_choose_what_they_name(outputs: Seq<Seq<char>>, i: int)
    requires
        0 <= i < items_for(outputs).len(),
    ensures
        i == 0 ==> chosen_output(outputs, i) is None,
        i > 0 ==> chosen_output(outputs, i) == Some(items_for(outputs)[i]),
{
}

/// The first category is all, and each other is of a kind of its own, whose name its label
/// begins with.
pub proof fn law_categories_are_named_for_their_kind(
    i: usize,
    j: usize,
    a: (&'static str, Option<Kind>),
    b: (&'static str, Option<Kind>),
)
    requires
        i < CATEGORIES,
        j < CATEGORIES,
        call_ensures(category, (i,), a),
        call_ensures(category, (j,), b),
    ensures
        a.1 is None == (i == 0),
        a.1 matches Some(k) ==> crate::text::begins_with(
            crate::text::lower_text(a.0@),
            crate::catalog::kind_name(k),
        ),
        i != j ==> a.1 != b.1,
{
    reveal_strlit("All");
    reveal_strlit("Images");
    reveal_strlit("Scenes");
    reveal_strlit("Videos");
    reveal_strlit("Web");
    reveal_strlit("image");
    reveal_strlit("scene");
    reveal_strlit("video");
    reveal_strlit("web");
    if let Some(k) = a.1 {
        let name = crate::catalog::kind_name(k);
        let low = crate::text::lower_text(a.0@);
        assert(low.subrange(0, name.len() as int) =~= name);
    }
}

/// Every scaling mode can be chosen, each in one place; the one that is chosen at first is
/// that of the first place.
pub proof fn law_every_scaling_can_be_chosen(i: usize, j: usize, a: Scaling, b: Scaling, s: Selection)
    requires
        i < SCALINGS,
        j < SCALINGS,
        call_ensures(scaling_choice, (i,), a),
        call_ensures(scaling_choice, (j,), b),
        call_ensures(<Selection as Default>::default, (), s),
    ensures
        i != j ==> a != b,
        i == 0 ==> s.scaling@ == crate::daemon::scaling_name(a),
        s.output is None,
{
}

/// The names of the outputs are told in their order, and a list of outputs is built anew
/// where a name has come, gone or moved.
pub proof fn law_outputs_are_listed_in_order(
    outputs: Seq<OutputStatus>,
    o: OutputStatus,
    a: Vec<String>,
    b: Vec<String>,
    r: bool,
)
    requires
        call_ensures(outputs_changed, (&a, &b), r),
    ensures
        names_in(outputs.push(o)) == names_in(outputs).push(o.name@),
        names_in(Seq::empty()).len() == 0,
        !r ==> crate::text::texts(a@) == crate::text::texts(b@),
        crate::text::texts(a@) == crate::text::texts(b@) ==> !r,
        items_for(names_in(outputs.push(o))).last() == o.name@,
        items_for(names_in(outputs)).len() == outputs.len() + 1,
{
    assert(names_in(outputs.push(o)) =~= names_in(outputs).push(o.name@));
}

/// An image is shown as it was selected; a wallpaper of any other kind is refused, and
/// what the user is told names the kind.
pub proof fn law_a_click_shows_or_explains(
    w: Wallpaper,
    selection: Selection,
    r: Result<Request, String>,
)
    requires
        call_ensures(apply, (&w, &selection), r),
    ensures
        r is Ok == (w.kind is Image),
        r matches Ok(q) ==> (q matches Request::Show { path, target, scaling } && path@ == w.path@
            && scaling@ == selection.scaling@ && (target@ is None == selection.output is None) && (
        selection.output matches Some(name) ==> target@ == Some(name@))),
        r matches Err(told) ==> crate::text::occurs_at(
            told@,
            crate::catalog::kind_name(w.kind),
            "hyprwpe cannot render "@.len() as int,
        ),
{
    if let Err(told) = r {
        let at = "hyprwpe cannot render "@.len() as int;
        let name = crate::catalog::kind_name(w.kind);
        assert(told@.subrange(at, at + name.len()) =~= name);
    }
}

/// An output is told with the file that it shows, by the file's own name, and as showing
/// nothing where there is none.
pub proof fn law_outputs_are_told_with_their_file(
    o: OutputStatus,
    dir: Seq<char>,
    file: Seq<char>,
    path: String,
)
    requires
        dir.len() > 0 && dir.last() != '/',
        crate::paths::is_file_name(file),
        path@ == dir + seq!['/'] + file,
    ensures
        o.wallpaper == Some(path) ==> output_described(o) == o.name@ + ": "@ + file,
        o.wallpaper is None ==> output_described(o) == o.name@ + ": nothing"@,
{
    reveal_strlit(": ");
    reveal_strlit("nothing");
    reveal_strlit(": nothing");
    crate::paths::law_files_lie_below_their_directory(dir, file, seq!['/']);
    if o.wallpaper is None {
        assert(output_described(o) =~= o.name@ + ": nothing"@);
    }
}

/// The outputs are told in their order, and the daemon's memory behind them.
pub proof fn law_a_status_is_told_output_by_output(
    outputs: Seq<OutputStatus>,
    o: OutputStatus,
    megabytes: Seq<char>,
)
    requires
        outputs.len() > 0,
    ensures
        described(outputs.push(o), None) == described(outputs, None) + "   ·   "@ + output_described(
            o,
        ),
        described(seq![o], None) == output_described(o),
        described(outputs, Some(megabytes)) == described(outputs, None) + "   ·   "@ + "daemon "@
            + megabytes + " MB"@,
        described(Seq::empty(), None) == Seq::<char>::empty(),
{
    let none = Seq::<Seq<char>>::empty();
    let sep = "   ·   "@;
    let mb = "daemon "@ + megabytes + " MB"@;
    let a = Seq::new(outputs.len(), |i: int| output_described(outputs[i]));
    let b = Seq::new(outputs.push(o).len(), |i: int| output_described(outputs.push(o)[i]));
    let c = Seq::new(seq![o].len(), |i: int| output_described(seq![o][i]));
    let z = Seq::<OutputStatus>::empty();
    let e = Seq::new(z.len(), |i: int| output_described(z[i]));
    assert(b =~= a.push(output_described(o)));
    assert(a + none =~= a);
    assert(b + none =~= b);
    assert(c + none =~= seq![output_described(o)]);
    assert(e + none =~= none);
    assert(a + seq![mb] =~= a.push(mb));
    crate::text::law_texts_are_parted(a, output_described(o), sep);
    crate::text::law_texts_are_parted(a, mb, sep);
    assert(described(outputs, Some(megabytes)) == described(outputs, None) + sep + mb);
    assert(described(outputs, None) + sep + mb =~= described(outputs, None) + sep + "daemon "@
        + megabytes + " MB"@);
}

/// Every reply to a click is told: what was set, what the daemon says is wrong, or what
/// failed.
pub proof fn law_replies_are_told(
    title: &str,
    message: String,
    failure: &str,
    e: ClientError,
    done: String,
    refused: String,
    failed: String,
)
    requires
        call_ensures(applied_message, (title, &Ok(Response::Done), failure), done),
        call_ensures(
            applied_message,
            (title, &Ok(Response::Error { message }), failure),
            refused,
        ),
        call_ensures(applied_message, (title, &Err(e), failure), failed),
    ensures
        done@.len() == title@.len() + 4,
        done@.skip(4) == title@,
        refused@ == message@,
        failed@ == failure@,
{
    reveal_strlit("Set ");
    assert(done@.skip(4) =~= title@);
}

} // verus!
