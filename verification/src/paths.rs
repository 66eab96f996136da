//! Unix paths as text.
use vstd::prelude::*;
use crate::text::{
    chars_of, copy_chars, find_last, head, is_text, pieces, push_text, rest, string_of, Class,
};

verus! {

/// A path below a directory, by the rule of the standard library's `Path::join`: a
/// path that begins at the root stands for itself.
pub open spec fn joined_path(dir: Seq<char>, path: Seq<char>) -> Seq<char> {
    if path.len() > 0 && path[0] == '/' {
        path
    } else if dir.len() > 0 && dir.last() != '/' {
        dir.push('/') + path
    } else {
        dir + path
    }
}

/// A path below a directory.
pub fn join_path(dir: &str, path: &str) -> (r: String)
    ensures
        r@ == joined_path(dir@, path@),
{
    let d = chars_of(dir);
    let p = chars_of(path);
    let mut out = String::new();
    if p.len() > 0 && p[0] == '/' {
        push_text(&mut out, path);
        proof {
            assert(out@ =~= path@);
        }
    } else {
        push_text(&mut out, dir);
        if d.len() > 0 && d[d.len() - 1] != '/' {
            out.push('/');
        }
        push_text(&mut out, path);
        proof {
            assert(out@ =~= joined_path(dir@, path@));
        }
    }
    out
}

/// The last of the parts of a path that is not a dot.
pub open spec fn last_part(parts: Seq<Seq<char>>) -> Option<Seq<char>>
    decreases parts.len(),
{
    if parts.len() == 0 {
        None
    } else if parts.last() == "."@ {
        last_part(parts.drop_last())
    } else {
        Some(parts.last())
    }
}

/// The last component of a path: what stands behind the last separator, without
/// regard to separators and dots at the end.
pub open spec fn last_component(path: Seq<char>) -> Option<Seq<char>> {
    last_part(crate::text::pieces_of(path, Class::Slash, Class::NotSlash))
}

/// The name of the file that a path leads to.
pub open spec fn file_name_of(path: Seq<char>) -> Option<Seq<char>> {
    match last_component(path) {
        Some(n) => if n == ".."@ {
            None
        } else {
            Some(n)
        },
        None => None,
    }
}

/// Where the extension of a file name begins: at its last dot, unless that is its
/// first character.
pub open spec fn extension_dot(name: Seq<char>) -> Option<int> {
    match crate::text::last_index(name, '.') {
        Some(k) => if k > 0 {
            Some(k)
        } else {
            None
        },
        None => None,
    }
}

/// The extension of the file that a path leads to.
pub open spec fn extension_of(path: Seq<char>) -> Option<Seq<char>> {
    match file_name_of(path) {
        Some(n) => match extension_dot(n) {
            Some(k) => Some(n.skip(k + 1)),
            None => None,
        },
        None => None,
    }
}

/// The name of the file that a path leads to, without its extension.
pub open spec fn file_stem_of(path: Seq<char>) -> Option<Seq<char>> {
    match file_name_of(path) {
        Some(n) => match extension_dot(n) {
            Some(k) => Some(n.take(k)),
            None => Some(n),
        },
        None => None,
    }
}

fn find_last_component(path: &str) -> (r: Option<Vec<char>>)
    ensures
        match r {
            Some(n) => last_component(path@) == Some(n@),
            None => last_component(path@) is None,
        },
{
    let all = chars_of(path);
    let parts = pieces(all.as_slice(), Class::Slash, Class::NotSlash);
    let ghost model = crate::text::spelled(parts@);
    let mut n: usize = parts.len();
    proof {
        assert(model.len() == parts@.len());
        assert(model.take(n as int) =~= model);
    }
    while n > 0
        invariant
            n <= parts@.len() == model.len(),
            model == crate::text::spelled(parts@),
            model == crate::text::pieces_of(path@, Class::Slash, Class::NotSlash),
            last_part(model) == last_part(model.take(n as int)),
        decreases n,
    {
        proof {
            assert(model.take(n as int).last() == parts@[n - 1]@);
            assert(model.take(n as int).drop_last() =~= model.take(n - 1));
        }
        if !is_text(parts[n - 1].as_slice(), ".") {
            return Some(copy_chars(parts[n - 1].as_slice()));
        }
        n -= 1;
    }
    None
}

fn find_file_name(path: &str) -> (r: Option<Vec<char>>)
    ensures
        match r {
            Some(n) => file_name_of(path@) == Some(n@),
            None => file_name_of(path@) is None,
        },
{
    match find_last_component(path) {
        Some(n) => if is_text(n.as_slice(), "..") {
            None
        } else {
            Some(n)
        },
        None => None,
    }
}

/// Whether the last component of a path is `name`.
pub fn leads_to(path: &str, name: &str) -> (r: bool)
    ensures
        r == (last_component(path@) == Some(name@)),
{
    match find_last_component(path) {
        Some(n) => is_text(n.as_slice(), name),
        None => false,
    }
}

/// The name of the file that a path leads to.
pub fn file_name(path: &str) -> (r: Option<String>)
    ensures
        crate::text::opt_text(r) == file_name_of(path@),
{
    match find_file_name(path) {
        Some(n) => Some(string_of(n.as_slice())),
        None => None,
    }
}

/// The extension of the file that a path leads to.
pub fn extension(path: &str) -> (r: Option<Vec<char>>)
    ensures
        match r {
            Some(e) => extension_of(path@) == Some(e@),
            None => extension_of(path@) is None,
        },
{
    match find_file_name(path) {
        None => None,
        Some(n) => match find_last(n.as_slice(), '.') {
            None => None,
            Some(k) => if k > 0 {
                let len = n.len();
                Some(copy_chars(rest(n.as_slice(), k + 1)))
            } else {
                None
            },
        },
    }
}

/// The name of the file that a path leads to, without its extension.
pub fn file_stem(path: &str) -> (r: Option<String>)
    ensures
        crate::text::opt_text(r) == file_stem_of(path@),
{
    match find_file_name(path) {
        None => None,
        Some(n) => match find_last(n.as_slice(), '.') {
            None => Some(string_of(n.as_slice())),
            Some(k) => if k > 0 {
                Some(string_of(head(n.as_slice(), k)))
            } else {
                Some(string_of(n.as_slice()))
            },
        },
    }
}

/// The last piece of a text is what stands behind its last gap, whatever comes before.
pub proof fn lemma_last_piece(before: Seq<char>, sep: char, name: Seq<char>, gap: Class, ink: Class)
    requires
        crate::text::of_class(sep, gap),
        forall|c: char| #[trigger] crate::text::of_class(c, gap) == !crate::text::of_class(c, ink),
        name.len() > 0,
        forall|i: int| 0 <= i < name.len() ==> crate::text::of_class(#[trigger] name[i], ink),
    ensures
        ({
            let all = crate::text::pieces_of(before + seq![sep] + name, gap, ink);
            all.len() > 0 && all.last() == name
        }),
        crate::text::pieces_of(before + seq![sep] + name, gap, ink) == crate::text::pieces_of(
            before,
            gap,
            ink,
        ).push(name),
    decreases before.len(),
{
    let s = before + seq![sep] + name;
    let none = Seq::<char>::empty();
    assert(crate::text::of_class(name[0], ink));
    crate::text::lemma_run_end(before, 0, gap);
    let a = crate::text::run_end(before, 0, gap);
    if a == before.len() {
        let space = before + seq![sep];
        assert forall|i: int| 0 <= i < space.len() implies crate::text::of_class(
            #[trigger] space[i],
            gap,
        ) by {
            if i < a {
                assert(space[i] == before[i]);
            }
        }
        crate::text::law_pieces_follow_each_other(space, name, none, gap, ink);
        crate::text::law_gaps_are_no_pieces(none, gap, ink);
        crate::text::law_gaps_are_no_pieces(before, gap, ink);
        assert(space + name + none =~= s);
        assert(seq![name] + Seq::<Seq<char>>::empty() =~= seq![name]);
        assert(Seq::<Seq<char>>::empty().push(name) =~= seq![name]);
    } else {
        crate::text::lemma_run_end(before, a, ink);
        let b = crate::text::run_end(before, a, ink);
        let space = before.take(a);
        let word = before.subrange(a, b);
        let rest = before.skip(b);
        assert(crate::text::of_class(before[a], ink));
        assert(b > a);
        assert forall|i: int| 0 <= i < space.len() implies crate::text::of_class(
            #[trigger] space[i],
            gap,
        ) by {
            assert(space[i] == before[i]);
        }
        assert forall|i: int| 0 <= i < word.len() implies crate::text::of_class(
            #[trigger] word[i],
            ink,
        ) by {
            assert(word[i] == before[a + i]);
        }
        let tail = rest + seq![sep] + name;
        assert(tail[0] == (if rest.len() > 0 {
            before[b]
        } else {
            sep
        }));
        lemma_last_piece(rest, sep, name, gap, ink);
        crate::text::law_pieces_follow_each_other(space, word, tail, gap, ink);
        crate::text::law_pieces_follow_each_other(space, word, rest, gap, ink);
        assert(space + word + tail =~= s);
        assert(space + word + rest =~= before);
        assert(seq![word] + crate::text::pieces_of(rest, gap, ink).push(name) =~= (seq![word]
            + crate::text::pieces_of(rest, gap, ink)).push(name));
    }
}

/// Whether a text can name a file: it is no dot and no two dots, and has no slash.
pub open spec fn is_file_name(name: Seq<char>) -> bool {
    name.len() > 0 && crate::effect::lacks(name, '/') && name != "."@ && name != ".."@
}

/// What lies below a directory is the directory's path, a slash and the file's name, and
/// that path leads to the file of that name; a path from the root stands for itself.
pub proof fn law_files_lie_below_their_directory(dir: Seq<char>, name: Seq<char>, path: Seq<char>)
    requires
        is_file_name(name),
        dir.len() > 0 && dir.last() != '/',
        path.len() > 0 && path[0] == '/',
    ensures
        joined_path(dir, name) == dir + seq!['/'] + name,
        joined_path(dir.push('/'), name) == dir + seq!['/'] + name,
        joined_path(dir, path) == path,
        file_name_of(joined_path(dir, name)) == Some(name),
        last_component(joined_path(dir, name)) == Some(name),
        file_name_of(joined_path(dir, name).push('/')) == Some(name),
        file_name_of(joined_path(dir, ".."@)) is None,
        file_name_of(name) == Some(name),
{
    let none = Seq::<char>::empty();
    reveal_strlit("..");
    reveal_strlit(".");
    assert(dir.push('/') + name =~= dir + seq!['/'] + name);
    lemma_last_piece(dir, '/', name, Class::Slash, Class::NotSlash);
    lemma_last_piece(dir, '/', ".."@, Class::Slash, Class::NotSlash);
    assert(".."@ != "."@);
    assert(dir.push('/') + ".."@ =~= dir + seq!['/'] + ".."@);
    crate::text::law_pieces_follow_each_other(none, name, none, Class::Slash, Class::NotSlash);
    crate::text::law_gaps_are_no_pieces(none, Class::Slash, Class::NotSlash);
    assert(none + name + none =~= name);
    assert((seq![name] + Seq::<Seq<char>>::empty()).last() == name);
    lemma_trailing(dir + seq!['/'] + name);
}

/// Separators at the end of a path make no part of it.
proof fn lemma_trailing(path: Seq<char>)
    ensures
        crate::text::pieces_of(path.push('/'), Class::Slash, Class::NotSlash)
            == crate::text::pieces_of(path, Class::Slash, Class::NotSlash),
    decreases path.len(),
{
    let gap = Class::Slash;
    let ink = Class::NotSlash;
    crate::text::lemma_run_end(path, 0, gap);
    let a = crate::text::run_end(path, 0, gap);
    if a == path.len() {
        crate::text::law_gaps_are_no_pieces(path, gap, ink);
        assert forall|i: int| 0 <= i < path.push('/').len() implies crate::text::of_class(
            #[trigger] path.push('/')[i],
            gap,
        ) by {
            if i < a {
                assert(path.push('/')[i] == path[i]);
            }
        }
        crate::text::law_gaps_are_no_pieces(path.push('/'), gap, ink);
    } else {
        crate::text::lemma_run_end(path, a, ink);
        let b = crate::text::run_end(path, a, ink);
        let space = path.take(a);
        let word = path.subrange(a, b);
        let rest = path.skip(b);
        assert(crate::text::of_class(path[a], ink));
        assert forall|i: int| 0 <= i < space.len() implies crate::text::of_class(
            #[trigger] space[i],
            gap,
        ) by {
            assert(space[i] == path[i]);
        }
        assert forall|i: int| 0 <= i < word.len() implies crate::text::of_class(
            #[trigger] word[i],
            ink,
        ) by {
            assert(word[i] == path[a + i]);
        }
        if rest.len() > 0 {
            assert(rest[0] == path[b]);
        }
        lemma_trailing(rest);
        crate::text::law_pieces_follow_each_other(space, word, rest, gap, ink);
        crate::text::law_pieces_follow_each_other(space, word, rest.push('/'), gap, ink);
        assert(space + word + rest =~= path);
        assert(space + word + rest.push('/') =~= path.push('/'));
    }
}

/// The extension of a file is what stands behind the last dot of its name, and the stem is
/// what stands before it; a name whose only dot is its first character has no extension.
pub proof fn law_extensions_stand_behind_the_last_dot(
    dir: Seq<char>,
    stem: Seq<char>,
    ext: Seq<char>,
    name: Seq<char>,
)
    requires
        stem.len() > 0,
        crate::effect::lacks(stem, '/'),
        crate::effect::lacks(ext, '/'),
        crate::effect::lacks(ext, '.'),
        is_file_name(stem + seq!['.'] + ext),
        is_file_name(name),
        crate::effect::lacks(name.skip(1), '.'),
        dir.len() > 0 && dir.last() != '/',
    ensures
        extension_of(joined_path(dir, stem + seq!['.'] + ext)) == Some(ext),
        file_stem_of(joined_path(dir, stem + seq!['.'] + ext)) == Some(stem),
        extension_of(joined_path(dir, name)) is None,
        file_stem_of(joined_path(dir, name)) == Some(name),
{
    let root = seq!['/'];
    let whole = stem + seq!['.'] + ext;
    law_files_lie_below_their_directory(dir, whole, root);
    law_files_lie_below_their_directory(dir, name, root);
    crate::text::lemma_last_index_is(whole, '.', stem.len() as int);
    assert(whole.skip(stem.len() as int + 1) =~= ext);
    assert(whole.take(stem.len() as int) =~= stem);
    if name[0] == '.' {
        assert forall|j: int| 0 < j < name.len() implies #[trigger] name[j] != '.' by {
            assert(name.skip(1)[j - 1] == name[j]);
        }
        crate::text::lemma_last_index_is(name, '.', 0);
    } else {
        assert forall|j: int| 0 <= j < name.len() implies #[trigger] name[j] != '.' by {
            if j > 0 {
                assert(name.skip(1)[j - 1] == name[j]);
            }
        }
        crate::text::lemma_last_index_none(name, '.');
    }
}

/// The executable functions tell the same: what leads to a file below a directory has the
/// name, the stem and the extension that it was joined of.
pub proof fn law_joined_paths_are_taken_apart(
    dir: &str,
    name: &str,
    stem: Seq<char>,
    ext: Seq<char>,
    path: String,
)
    requires
        name@ == stem + seq!['.'] + ext,
        stem.len() > 0,
        crate::effect::lacks(stem, '/'),
        crate::effect::lacks(ext, '/'),
        crate::effect::lacks(ext, '.'),
        is_file_name(name@),
        dir@.len() > 0 && dir@.last() != '/',
        call_ensures(join_path, (dir, name), path),
    ensures
        path@ == dir@ + seq!['/'] + name@,
        forall|at: &str, r: Option<String>|
            at@ == path@ && #[trigger] call_ensures(file_name, (at,), r)
                ==> crate::text::opt_text(r) == Some(name@),
        forall|at: &str, r: Option<String>|
            at@ == path@ && #[trigger] call_ensures(file_stem, (at,), r)
                ==> crate::text::opt_text(r) == Some(stem),
        forall|at: &str, r: Option<Vec<char>>|
            at@ == path@ && #[trigger] call_ensures(extension, (at,), r) ==> (r matches Some(e)
                && e@ == ext),
{
    reveal_strlit(".");
    reveal_strlit("..");
    let plain = seq!['a'];
    assert(plain[0] == 'a' && "."@[0] == '.' && ".."@.len() == 2);
    law_extensions_stand_behind_the_last_dot(dir@, stem, ext, plain);
    law_files_lie_below_their_directory(dir@, name@, seq!['/']);
}

} // verus!
