//! Where a wallpaper's content actually lives.
//!
//! A `scene.pkg` is only half the story. Wallpaper Engine's editor lets a creator
//! reference its **built-in asset library** (particle sprites, shader preludes,
//! the fonts text objects use), and those files are not copied into the package:
//! they are resolved from the engine's own installation at runtime.
//!
//! So content is resolved in order:
//!
//! 1. the package itself (a creator who overrode an asset ships it),
//! 2. `assets/` of the user's Wallpaper Engine install.
//!
//! When the second is absent the package is still used and the caller simply gets
//! `None`. The functions here say which file of the assets answers for a name, and
//! take what was read there.
use vstd::prelude::*;
use crate::paths::{join_path, leads_to};
use crate::pkg::{Package, PackageModel, PkgError};
use crate::text::{chars_of, decode_lossy, lists, pieces, push_text, Class};

verus! {

/// The directories that Steam is conventionally installed in, below the user's
/// home, most conventional first.
pub open spec fn steam_dirs() -> Seq<Seq<char>> {
    seq![
        ".steam/root"@,
        ".steam/steam"@,
        ".local/share/Steam"@,
        ".var/app/com.valvesoftware.Steam/data/Steam"@,
    ]
}

/// Every Steam root worth checking; none where there is no home.
pub open spec fn steam_root_paths(home: Option<Seq<char>>) -> Seq<Seq<char>> {
    match home {
        None => Seq::empty(),
        Some(h) => Seq::new(
            steam_dirs().len(),
            |i: int| crate::paths::joined_path(h, steam_dirs()[i]),
        ),
    }
}

/// Every Steam root worth checking, most conventional first.
///
/// A Steam library can live on any drive, in which case the user points
/// `HYPRWPE_WE_ASSETS` at it (or configures it) rather than relying on detection.
pub fn steam_roots(home: &Option<String>) -> (r: Vec<String>)
    ensures
        crate::text::texts(r@) == steam_root_paths(crate::text::opt_text(*home)),
{
    let mut out: Vec<String> = Vec::new();
    if let Some(h) = home {
        out.push(join_path(h.as_str(), ".steam/root"));
        out.push(join_path(h.as_str(), ".steam/steam"));
        out.push(join_path(h.as_str(), ".local/share/Steam"));
        out.push(join_path(h.as_str(), ".var/app/com.valvesoftware.Steam/data/Steam"));
    }
    proof {
        assert(crate::text::texts(out@) =~= steam_root_paths(crate::text::opt_text(*home)));
    }
    out
}

/// The assets of an install below a Steam root.
pub open spec fn install_assets(root: Seq<char>) -> Seq<char> {
    crate::paths::joined_path(
        crate::paths::joined_path(
            crate::paths::joined_path(root, "steamapps/common"@),
            "wallpaper_engine"@,
        ),
        "assets"@,
    )
}

/// The directories that may hold the engine's assets, in the order in which they
/// are tried: the one that the user names alone, or those of the Steam roots.
pub open spec fn asset_dirs(chosen: Option<Seq<char>>, home: Option<Seq<char>>) -> Seq<Seq<char>> {
    match chosen {
        Some(dir) => if crate::paths::last_component(dir) == Some("assets"@) {
            seq![dir]
        } else {
            seq![crate::paths::joined_path(dir, "assets"@)]
        },
        None => Seq::new(
            steam_root_paths(home).len(),
            |i: int| install_assets(steam_root_paths(home)[i]),
        ),
    }
}

/// The directories that may hold the engine's assets.
///
/// `chosen` (the value of `HYPRWPE_WE_ASSETS`) overrides detection, and may point
/// either at the install directory or straight at its `assets` folder.
pub fn asset_candidates(chosen: &Option<String>, home: &Option<String>) -> (r: Vec<String>)
    ensures
        crate::text::texts(r@) == asset_dirs(
            crate::text::opt_text(*chosen),
            crate::text::opt_text(*home),
        ),
{
    let mut out: Vec<String> = Vec::new();
    if let Some(dir) = chosen {
        if leads_to(dir.as_str(), "assets") {
            out.push(dir.clone());
        } else {
            out.push(join_path(dir.as_str(), "assets"));
        }
    } else {
        let roots = steam_roots(home);
        let ghost model = steam_root_paths(crate::text::opt_text(*home));
        let mut i: usize = 0;
        proof {
            assert(crate::text::texts(roots@).len() == roots@.len());
        }
        while i < roots.len()
            invariant
                i <= roots@.len() == model.len(),
                model == crate::text::texts(roots@),
                out@.len() == i,
                forall|j: int| 0 <= j < i ==> (#[trigger] out@[j])@ == install_assets(model[j]),
            decreases roots@.len() - i,
        {
            let common = join_path(roots[i].as_str(), "steamapps/common");
            let install = join_path(common.as_str(), "wallpaper_engine");
            out.push(join_path(install.as_str(), "assets"));
            proof {
                assert(model[i as int] == roots@[i as int]@);
            }
            i += 1;
        }
    }
    proof {
        assert(crate::text::texts(out@) =~= asset_dirs(
            crate::text::opt_text(*chosen),
            crate::text::opt_text(*home),
        ));
    }
    out
}

/// The first of the candidates from `n` on that is there, given which are; one of which
/// that is not said is not.
pub open spec fn first_there(
    candidates: Seq<Seq<char>>,
    present: Seq<bool>,
    n: int,
) -> Option<Seq<char>>
    decreases present.len() - n,
{
    if n < 0 || n >= present.len() || n >= candidates.len() {
        None
    } else if present[n] {
        Some(candidates[n])
    } else {
        first_there(candidates, present, n + 1)
    }
}

/// The first of the candidates that is there, given which are.
pub open spec fn first_present(candidates: Seq<Seq<char>>, present: Seq<bool>) -> Option<Seq<char>> {
    first_there(candidates, present, 0)
}

/// The first of the candidates that is there, given which are.
pub fn pick_present(candidates: &Vec<String>, present: &Vec<bool>) -> (r: Option<String>)
    ensures
        crate::text::opt_text(r) == first_present(crate::text::texts(candidates@), present@),
{
    let ghost model = crate::text::texts(candidates@);
    let mut i: usize = 0;
    while i < present.len() && i < candidates.len()
        invariant
            i <= present@.len(),
            model == crate::text::texts(candidates@),
            first_there(model, present@, 0) == first_there(model, present@, i as int),
        decreases present@.len() - i,
    {
        if present[i] {
            proof {
                assert(model[i as int] == candidates@[i as int]@);
            }
            return Some(candidates[i].clone());
        }
        i += 1;
    }
    None
}

/// The `assets/` directory of an installed Wallpaper Engine, if one is found:
/// the first candidate that is a directory.
pub fn assets_dir(candidates: &Vec<String>, is_dir: &Vec<bool>) -> (r: Option<String>)
    ensures
        crate::text::opt_text(r) == first_present(crate::text::texts(candidates@), is_dir@),
{
    pick_present(candidates, is_dir)
}

/// A wallpaper's content: its package, plus the engine's assets as a fallback.
pub struct Resources {
    package: Package,
    assets: Option<String>,
}

/// What content there is.
pub ghost struct ResourcesModel {
    pub package: PackageModel,
    pub assets: Option<Seq<char>>,
}

impl View for Resources {
    type V = ResourcesModel;

    closed spec fn view(&self) -> ResourcesModel {
        ResourcesModel { package: self.package@, assets: crate::text::opt_text(self.assets) }
    }
}

/// Whether a name leads out of the tree of assets: it begins at the root, or one of
/// its parts is two dots.
pub open spec fn leaves_tree(name: Seq<char>) -> bool {
    (name.len() > 0 && name[0] == '/') || crate::text::pieces_of(
        name,
        Class::Separator,
        Class::Segment,
    ).contains(".."@)
}

impl ResourcesModel {
    /// The file of the assets that answers for a name: none where the package
    /// does, where there are no assets, or where the name leads out of them.
    pub open spec fn asset_file(self, name: Seq<char>) -> Option<Seq<char>> {
        match self.assets {
            Some(dir) => if self.package.contents(name) is Some || leaves_tree(name) {
                None
            } else {
                Some(crate::paths::joined_path(dir, name))
            },
            None => None,
        }
    }

    /// The bytes under a name, given what was read where the assets answer for it.
    pub open spec fn bytes(self, name: Seq<char>, asset: Option<Seq<u8>>) -> Option<Seq<u8>> {
        match self.package.contents(name) {
            Some(b) => Some(b),
            None => if self.asset_file(name) is Some {
                asset
            } else {
                None
            },
        }
    }
}

/// The bytes of an optional vector.
pub open spec fn opt_bytes(b: Option<Vec<u8>>) -> Option<Seq<u8>> {
    match b {
        Some(v) => Some(v@),
        None => None,
    }
}

/// The name of the description that goes with a texture.
pub open spec fn sidecar_of(name: Seq<char>) -> Seq<char> {
    name + "-json"@
}

/// The name of the description that goes with a texture. It lives next to the file
/// (assets) or as a `<name>-json` entry (inside a package).
pub fn sidecar_name(name: &str) -> (r: String)
    ensures
        r@ == sidecar_of(name@),
{
    let mut out = String::new();
    push_text(&mut out, name);
    push_text(&mut out, "-json");
    proof {
        assert(out@ =~= sidecar_of(name@));
    }
    out
}

fn climbs(name: &str) -> (r: bool)
    ensures
        r == leaves_tree(name@),
{
    let all = chars_of(name);
    if all.len() > 0 && all[0] == '/' {
        return true;
    }
    let parts = pieces(all.as_slice(), Class::Separator, Class::Segment);
    let dots = chars_of("..");
    lists(&parts, dots.as_slice())
}

impl Resources {
    /// A package's bytes with the engine's assets found among the candidates.
    pub fn open(bytes: Vec<u8>, candidates: &Vec<String>, is_dir: &Vec<bool>) -> (r: Result<
        Self,
        PkgError,
    >)
        ensures
            match r {
                Ok(s) => crate::pkg::package_read(bytes@) == Ok::<PackageModel, PkgError>(
                    s@.package,
                ) && s@.assets == first_present(crate::text::texts(candidates@), is_dir@),
                Err(e) => crate::pkg::package_read(bytes@) == Err::<PackageModel, PkgError>(e),
            },
    {
        Self::with_assets(bytes, assets_dir(candidates, is_dir))
    }

    /// A package's bytes with an explicit assets directory (or none).
    pub fn with_assets(bytes: Vec<u8>, assets: Option<String>) -> (r: Result<Self, PkgError>)
        ensures
            match r {
                Ok(s) => crate::pkg::package_read(bytes@) == Ok::<PackageModel, PkgError>(
                    s@.package,
                ) && s@.assets == crate::text::opt_text(assets),
                Err(e) => crate::pkg::package_read(bytes@) == Err::<PackageModel, PkgError>(e),
            },
    {
        match Package::parse(bytes) {
            Ok(package) => Ok(Resources { package, assets }),
            Err(e) => Err(e),
        }
    }

    /// Wrap an already-parsed package.
    pub fn from_package(package: Package, assets: Option<String>) -> (r: Self)
        ensures
            r@.package == package@,
            r@.assets == crate::text::opt_text(assets),
    {
        Resources { package, assets }
    }

    /// The underlying package, for name listing.
    pub fn package(&self) -> (r: &Package)
        ensures
            r@ == self@.package,
    {
        &self.package
    }

    pub fn has_assets(&self) -> (r: bool)
        ensures
            r == (self@.assets is Some),
    {
        self.assets.is_some()
    }

    /// The file of the assets that is to be read for a name, if any is.
    pub fn asset_path(&self, name: &str) -> (r: Option<String>)
        ensures
            crate::text::opt_text(r) == self@.asset_file(name@),
    {
        match &self.assets {
            None => None,
            Some(dir) => {
                // Asset names are relative; refuse anything that climbs out of the tree.
                if self.package.get(name).is_some() || climbs(name) {
                    None
                } else {
                    Some(join_path(dir.as_str(), name))
                }
            },
        }
    }

    /// Read an entry: the package first, then what was read of the engine's assets.
    pub fn get(&self, name: &str, asset: Option<Vec<u8>>) -> (r: Option<Vec<u8>>)
        ensures
            opt_bytes(r) == self@.bytes(name@, opt_bytes(asset)),
    {
        match self.package.get(name) {
            Some(bytes) => Some(crate::bytes::bytes_copy(bytes)),
            None => if self.asset_path(name).is_some() {
                asset
            } else {
                None
            },
        }
    }

    /// Read a text entry (JSON, GLSL, …).
    pub fn get_str(&self, name: &str, asset: Option<Vec<u8>>) -> (r: Option<String>)
        ensures
            crate::text::opt_text(r) == match self@.bytes(name@, opt_bytes(asset)) {
                Some(b) => Some(crate::text::utf8_lossy(b)),
                None => None,
            },
    {
        match self.get(name, asset) {
            Some(bytes) => Some(decode_lossy(bytes.as_slice())),
            None => None,
        }
    }

    /// Read a `.tex` together with its `.tex-json` sidecar.
    ///
    /// The engine's asset textures state their pixel format in the sidecar, so a
    /// decoder needs both.
    pub fn texture(
        &self,
        name: &str,
        asset: Option<Vec<u8>>,
        sidecar_asset: Option<Vec<u8>>,
    ) -> (r: Option<(Vec<u8>, Option<Vec<u8>>)>)
        ensures
            match r {
                Some((bytes, sidecar)) => self@.bytes(name@, opt_bytes(asset)) == Some(bytes@)
                    && opt_bytes(sidecar) == self@.bytes(
                    sidecar_of(name@),
                    opt_bytes(sidecar_asset),
                ),
                None => self@.bytes(name@, opt_bytes(asset)) is None,
            },
    {
        match self.get(name, asset) {
            None => None,
            Some(bytes) => {
                let beside = sidecar_name(name);
                Some((bytes, self.get(beside.as_str(), sidecar_asset)))
            },
        }
    }
}

/// What the package holds is never looked for elsewhere.
pub proof fn law_the_package_comes_first(
    m: ResourcesModel,
    name: Seq<char>,
    asset: Option<Seq<u8>>,
)
    requires
        m.package.contents(name) is Some,
    ensures
        m.asset_file(name) is None,
        m.bytes(name, asset) == m.package.contents(name),
{
}

/// Nothing outside the assets is read: the file that answers for a name is the name
/// below the directory of the assets, and no part of the name leads back up.
pub proof fn law_assets_stay_in_their_tree(m: ResourcesModel, name: Seq<char>, file: Seq<char>)
    requires
        m.asset_file(name) == Some(file),
    ensures
        m.assets matches Some(dir) && (file == dir + name || file == dir.push('/') + name),
        !crate::text::pieces_of(name, Class::Separator, Class::Segment).contains(".."@),
{
}

/// Steam is looked for below the user's home alone, in four places; the engine's assets
/// are those of the app of that name among the common apps, and a directory that the user
/// names is taken as it is where it leads to the assets, and their parent otherwise.
pub proof fn law_assets_are_looked_for_in_their_places(
    home: Seq<char>,
    dir: Seq<char>,
    root: Seq<char>,
    i: int,
)
    requires
        home.len() > 0 && home.last() != '/',
        dir.len() > 0 && dir.last() != '/',
        root.len() > 0 && root.last() != '/',
        0 <= i < 4,
    ensures
        install_assets(root) == root + "/steamapps/common/wallpaper_engine/assets"@,
        asset_dirs(None, Some(home)).len() == 4,
        crate::text::begins_with(steam_root_paths(Some(home))[i], home.push('/')),
        asset_dirs(None, Some(home))[i] == steam_root_paths(Some(home))[i]
            + "/steamapps/common/wallpaper_engine/assets"@,
        asset_dirs(None, None).len() == 0,
        asset_dirs(Some(dir + "/assets"@), Some(home)) == seq![dir + "/assets"@],
        crate::paths::last_component(dir) != Some("assets"@) ==> asset_dirs(Some(dir), Some(home))
            == seq![dir + "/assets"@],
{
    reveal_strlit("steamapps/common");
    reveal_strlit("wallpaper_engine");
    reveal_strlit("assets");
    reveal_strlit("/assets");
    reveal_strlit("/steamapps/common/wallpaper_engine/assets");
    reveal_strlit(".steam/root");
    reveal_strlit(".steam/steam");
    reveal_strlit(".local/share/Steam");
    reveal_strlit(".var/app/com.valvesoftware.Steam/data/Steam");
    reveal_strlit(".");
    reveal_strlit("..");
    lemma_install(root);
    let at = steam_root_paths(Some(home))[i];
    let end = steam_dirs()[i];
    assert(end.len() > 0 && end[0] == '.' && end.last() != '/');
    assert(at == home.push('/') + end);
    assert(at.subrange(0, home.len() as int + 1) =~= home.push('/'));
    lemma_install(at);
    assert(dir + "/assets"@ =~= dir + seq!['/'] + "assets"@);
    assert(dir.push('/') + "assets"@ =~= dir + "/assets"@);
    assert("assets"@ != "."@ && "assets"@ != ".."@);
    crate::paths::law_files_lie_below_their_directory(dir, "assets"@, seq!['/']);
}

proof fn lemma_install(root: Seq<char>)
    requires
        root.len() > 0 && root.last() != '/',
    ensures
        install_assets(root) == root + "/steamapps/common/wallpaper_engine/assets"@,
{
    reveal_strlit("steamapps/common");
    reveal_strlit("wallpaper_engine");
    reveal_strlit("assets");
    reveal_strlit("/steamapps/common/wallpaper_engine/assets");
    let a = crate::paths::joined_path(root, "steamapps/common"@);
    assert(a == root.push('/') + "steamapps/common"@);
    let b = crate::paths::joined_path(a, "wallpaper_engine"@);
    assert(b == a.push('/') + "wallpaper_engine"@);
    assert(install_assets(root) =~= root + "/steamapps/common/wallpaper_engine/assets"@);
}

/// Of the candidates the first that is there is taken, and none where none is.
pub proof fn law_the_first_that_is_there_is_taken(
    candidates: Seq<Seq<char>>,
    present: Seq<bool>,
    k: int,
)
    requires
        0 <= k <= present.len() == candidates.len(),
        forall|j: int| 0 <= j < k ==> !#[trigger] present[j],
        k < present.len() ==> present[k],
    ensures
        first_present(candidates, present) == (if k < present.len() {
            Some(candidates[k])
        } else {
            None
        }),
{
    lemma_first_there(candidates, present, 0, k);
}

proof fn lemma_first_there(candidates: Seq<Seq<char>>, present: Seq<bool>, n: int, k: int)
    requires
        0 <= n <= k <= present.len() == candidates.len(),
        forall|j: int| n <= j < k ==> !#[trigger] present[j],
        k < present.len() ==> present[k],
    ensures
        first_there(candidates, present, n) == (if k < present.len() {
            Some(candidates[k])
        } else {
            None
        }),
    decreases k - n,
{
    if n < k {
        assert(!present[n]);
        lemma_first_there(candidates, present, n + 1, k);
    }
}

/// A name with a part of two dots leads out of the assets, wherever the part stands, and
/// so does one from the root; what does not is read below them, and only what the package
/// does not hold.
pub proof fn law_names_that_climb_are_refused(
    m: ResourcesModel,
    before: Seq<char>,
    name: Seq<char>,
    dir: Seq<char>,
    asset: Option<Seq<u8>>,
)
    requires
        m.assets == Some(dir),
        m.package.contents(name) is None,
        name.len() > 0,
        crate::effect::lacks(name, '/'),
        crate::effect::lacks(name, '\\'),
        name != ".."@,
        dir.len() > 0 && dir.last() != '/',
    ensures
        leaves_tree(before + "/.."@),
        leaves_tree(before + "\\.."@),
        leaves_tree(".."@),
        leaves_tree(seq!['/'] + name),
        !leaves_tree(name),
        m.asset_file(name) == Some(dir + seq!['/'] + name),
        m.bytes(name, asset) == asset,
        leaves_tree(before) == leaves_tree(before + seq!['/'] + name) || before.len() == 0,
        sidecar_of(name) == name + "-json"@,
{
    let gap = Class::Separator;
    let ink = Class::Segment;
    let none = Seq::<char>::empty();
    reveal_strlit("..");
    reveal_strlit("/..");
    reveal_strlit("\\..");
    assert(before + "/.."@ =~= before + seq!['/'] + ".."@);
    assert(before + "\\.."@ =~= before + seq!['\\'] + ".."@);
    crate::paths::lemma_last_piece(before, '/', ".."@, gap, ink);
    crate::paths::lemma_last_piece(before, '\\', ".."@, gap, ink);
    crate::paths::lemma_last_piece(before, '/', name, gap, ink);
    let all = crate::text::pieces_of(before, gap, ink);
    assert(all.push(".."@).last() == ".."@);
    assert(all.push(".."@)[all.len() as int] == ".."@);
    if all.contains(".."@) {
        let k = choose|k: int| 0 <= k < all.len() && all[k] == ".."@;
        assert(all.push(name)[k] == ".."@);
    }
    if all.push(name).contains(".."@) {
        let k = choose|k: int| 0 <= k < all.push(name).len() && all.push(name)[k] == ".."@;
        assert(k < all.len());
        assert(all[k] == ".."@);
    }
    crate::text::law_pieces_follow_each_other(none, ".."@, none, gap, ink);
    crate::text::law_pieces_follow_each_other(none, name, none, gap, ink);
    crate::text::law_gaps_are_no_pieces(none, gap, ink);
    assert(none + ".."@ + none =~= ".."@);
    assert(none + name + none =~= name);
    assert((seq![".."@] + Seq::<Seq<char>>::empty())[0] == ".."@);
    assert(seq![name] + Seq::<Seq<char>>::empty() =~= seq![name]);
    assert(dir.push('/') + name =~= dir + seq!['/'] + name);
}

} // verus!
