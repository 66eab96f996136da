//! Where hyprwpe looks for wallpapers.
//!
//! Every path is user-overridable; the Steam location is a default that is
//! detected, not an assumption. Steam libraries move between drives and a user
//! may keep Workshop content anywhere.
//!
//! The functions here name the places to look at and choose among them, given which
//! of them are directories.
use vstd::prelude::*;
use crate::assets::{pick_present, steam_roots};
use crate::catalog::Source;
use crate::paths::join_path;

verus! {

/// The Workshop content of Wallpaper Engine below a Steam root: its Steam app id
/// names the directory.
pub open spec fn workshop_below(root: Seq<char>) -> Seq<char> {
    crate::paths::joined_path(
        crate::paths::joined_path(root, "steamapps/workshop/content"@),
        "431960"@,
    )
}

/// The Workshop content directories worth checking, most conventional first.
pub open spec fn workshop_dirs(home: Option<Seq<char>>) -> Seq<Seq<char>> {
    Seq::new(
        crate::assets::steam_root_paths(home).len(),
        |i: int| workshop_below(crate::assets::steam_root_paths(home)[i]),
    )
}

/// The Workshop content directories worth checking, most conventional first.
pub fn workshop_candidates(home: &Option<String>) -> (r: Vec<String>)
    ensures
        crate::text::texts(r@) == workshop_dirs(crate::text::opt_text(*home)),
{
    let roots = steam_roots(home);
    let ghost model = crate::assets::steam_root_paths(crate::text::opt_text(*home));
    let mut out: Vec<String> = Vec::new();
    let mut i: usize = 0;
    proof {
        assert(crate::text::texts(roots@).len() == roots@.len());
    }
    while i < roots.len()
        invariant
            i <= roots@.len() == model.len(),
            model == crate::text::texts(roots@),
            out@.len() == i,
            forall|j: int| 0 <= j < i ==> (#[trigger] out@[j])@ == workshop_below(model[j]),
        decreases roots@.len() - i,
    {
        let content = join_path(roots[i].as_str(), "steamapps/workshop/content");
        out.push(join_path(content.as_str(), "431960"));
        proof {
            assert(model[i as int] == roots@[i as int]@);
        }
        i += 1;
    }
    proof {
        assert(crate::text::texts(out@) =~= workshop_dirs(crate::text::opt_text(*home)));
    }
    out
}

/// The Workshop content directory, if one exists: the first candidate that is a
/// directory.
pub fn detect_workshop_dir(candidates: &Vec<String>, is_dir: &Vec<bool>) -> (r: Option<String>)
    ensures
        crate::text::opt_text(r) == crate::assets::first_present(
            crate::text::texts(candidates@),
            is_dir@,
        ),
{
    pick_present(candidates, is_dir)
}

/// The picture directories worth scanning, below the user's home.
pub open spec fn picture_dirs(home: Option<Seq<char>>) -> Seq<Seq<char>> {
    match home {
        None => Seq::empty(),
        Some(h) => seq![
            crate::paths::joined_path(h, "Pictures/Wallpapers"@),
            crate::paths::joined_path(h, "Pictures"@),
        ],
    }
}

/// Picture directories worth scanning when the user has not configured any.
pub fn picture_candidates(home: &Option<String>) -> (r: Vec<String>)
    ensures
        crate::text::texts(r@) == picture_dirs(crate::text::opt_text(*home)),
{
    let mut out: Vec<String> = Vec::new();
    if let Some(h) = home {
        out.push(join_path(h.as_str(), "Pictures/Wallpapers"));
        out.push(join_path(h.as_str(), "Pictures"));
    }
    proof {
        assert(crate::text::texts(out@) =~= picture_dirs(crate::text::opt_text(*home)));
    }
    out
}

/// Sources for those of the first `n` picture directories that are there; one of which
/// that is not said is not.
pub open spec fn picture_sources(dirs: Seq<Seq<char>>, present: Seq<bool>, n: int) -> Seq<
    crate::catalog::SourceModel,
>
    decreases n,
{
    if n <= 0 {
        Seq::empty()
    } else if n <= present.len() && present[n - 1] {
        picture_sources(dirs, present, n - 1).push(
            crate::catalog::SourceModel::Directory { path: dirs[n - 1], recursive: true },
        )
    } else {
        picture_sources(dirs, present, n - 1)
    }
}

/// The sources of a user who has configured none: the Workshop, if it was found, and
/// the picture directories that are there.
pub open spec fn detected_sources(
    workshop: Option<Seq<char>>,
    dirs: Seq<Seq<char>>,
    present: Seq<bool>,
) -> Seq<crate::catalog::SourceModel> {
    let found = match workshop {
        Some(dir) => seq![crate::catalog::SourceModel::Workshop(dir)],
        None => Seq::empty(),
    };
    found + picture_sources(dirs, present, dirs.len() as int)
}

/// Sources to use when the user has not configured any. Deliberately quiet
/// about what it finds: absent directories are simply not returned.
pub fn default_sources(
    workshop: &Option<String>,
    pictures: &Vec<String>,
    is_dir: &Vec<bool>,
) -> (r: Vec<Source>)
    ensures
        crate::catalog::source_views(r@) == detected_sources(
            crate::text::opt_text(*workshop),
            crate::text::texts(pictures@),
            is_dir@,
        ),
{
    let mut out: Vec<Source> = Vec::new();
    if let Some(dir) = workshop {
        out.push(Source::Workshop(dir.clone()));
    }
    let ghost found = crate::catalog::source_views(out@);
    let ghost dirs = crate::text::texts(pictures@);
    let mut i: usize = 0;
    proof {
        assert(found + picture_sources(dirs, is_dir@, 0) =~= found);
    }
    while i < pictures.len()
        invariant
            i <= pictures@.len(),
            dirs == crate::text::texts(pictures@),
            crate::catalog::source_views(out@) == found + picture_sources(dirs, is_dir@, i as int),
        decreases pictures@.len() - i,
    {
        let ghost was = crate::catalog::source_views(out@);
        if i < is_dir.len() && is_dir[i] {
            let s = Source::Directory { path: pictures[i].clone(), recursive: true };
            out.push(s);
            proof {
                assert(crate::catalog::source_views(out@) =~= was.push(s@));
                assert(s@ == crate::catalog::SourceModel::Directory {
                    path: dirs[i as int],
                    recursive: true,
                });
                assert(crate::catalog::source_views(out@) =~= found + picture_sources(
                    dirs,
                    is_dir@,
                    i + 1,
                ));
            }
        }
        i += 1;
    }
    proof {
        assert(found =~= (match crate::text::opt_text(*workshop) {
            Some(dir) => seq![crate::catalog::SourceModel::Workshop(dir)],
            None => Seq::empty(),
        }));
    }
    out
}

/// The Workshop content lies below each Steam root under the engine's own number, and the
/// pictures below the user's home.
pub proof fn law_content_is_looked_for_in_its_places(home: Seq<char>, root: Seq<char>, i: int)
    requires
        root.len() > 0 && root.last() != '/',
        home.len() > 0 && home.last() != '/',
        0 <= i < 4,
    ensures
        workshop_below(root) == root + "/steamapps/workshop/content/431960"@,
        workshop_dirs(Some(home)).len() == 4,
        workshop_dirs(Some(home))[i] == crate::assets::steam_root_paths(Some(home))[i]
            + "/steamapps/workshop/content/431960"@,
        workshop_dirs(None).len() == 0,
        picture_dirs(Some(home)) == seq![home + "/Pictures/Wallpapers"@, home + "/Pictures"@],
        picture_dirs(None).len() == 0,
{
    reveal_strlit("Pictures/Wallpapers");
    reveal_strlit("/Pictures/Wallpapers");
    reveal_strlit("Pictures");
    reveal_strlit("/Pictures");
    reveal_strlit(".steam/root");
    reveal_strlit(".steam/steam");
    reveal_strlit(".local/share/Steam");
    reveal_strlit(".var/app/com.valvesoftware.Steam/data/Steam");
    let at = crate::assets::steam_root_paths(Some(home))[i];
    let end = crate::assets::steam_dirs()[i];
    assert(end.len() > 0 && end[0] == '.' && end.last() != '/');
    assert(at == home.push('/') + end);
    lemma_workshop(at);
    lemma_workshop(root);
    assert(picture_dirs(Some(home))[0] =~= home + "/Pictures/Wallpapers"@);
    assert(picture_dirs(Some(home))[1] =~= home + "/Pictures"@);
}

proof fn lemma_workshop(root: Seq<char>)
    requires
        root.len() > 0 && root.last() != '/',
    ensures
        workshop_below(root) == root + "/steamapps/workshop/content/431960"@,
{
    reveal_strlit("steamapps/workshop/content");
    reveal_strlit("431960");
    reveal_strlit("/steamapps/workshop/content/431960");
    let a = crate::paths::joined_path(root, "steamapps/workshop/content"@);
    assert(a == root.push('/') + "steamapps/workshop/content"@);
    assert(workshop_below(root) =~= root + "/steamapps/workshop/content/431960"@);
}

/// The Workshop comes before the pictures, which keep their order; each directory that is
/// there is a source, read with all below it, and one that is not there is none.
pub proof fn law_directories_that_are_there_are_sources(
    workshop: Seq<char>,
    dirs: Seq<Seq<char>>,
    present: Seq<bool>,
    dir: Seq<char>,
    there: bool,
)
    requires
        present.len() == dirs.len(),
    ensures
        detected_sources(None, Seq::empty(), Seq::empty()).len() == 0,
        detected_sources(Some(workshop), dirs, present) == seq![
            crate::catalog::SourceModel::Workshop(workshop),
        ] + detected_sources(None, dirs, present),
        detected_sources(None, dirs.push(dir), present.push(there)) == (if there {
            detected_sources(None, dirs, present).push(
                crate::catalog::SourceModel::Directory { path: dir, recursive: true },
            )
        } else {
            detected_sources(None, dirs, present)
        }),
{
    let n = dirs.len() as int;
    lemma_first_pictures(dirs, present, dir, there, n);
    let none = Seq::<crate::catalog::SourceModel>::empty();
    assert(none + picture_sources(dirs, present, n) =~= picture_sources(dirs, present, n));
    assert(none + picture_sources(dirs.push(dir), present.push(there), n + 1)
        =~= picture_sources(dirs.push(dir), present.push(there), n + 1));
}

proof fn lemma_first_pictures(
    dirs: Seq<Seq<char>>,
    present: Seq<bool>,
    dir: Seq<char>,
    there: bool,
    n: int,
)
    requires
        0 <= n <= dirs.len() == present.len(),
    ensures
        picture_sources(dirs.push(dir), present.push(there), n) == picture_sources(
            dirs,
            present,
            n,
        ),
    decreases n,
{
    if n > 0 {
        lemma_first_pictures(dirs, present, dir, there, n - 1);
    }
}

} // verus!
