//! Wallpaper Engine effect shaders.
use vstd::prelude::*;
use crate::json::{parse_json, Json, JsonTree};
use crate::numbers::decimal;
use crate::strmap::StrMap;
use crate::text::{
    chars_of, copy_chars, drop_mark, drop_marks, drop_returns, ends_with, find_char, find_last, head,
    is_ascii_digit, is_text, join, lines, lists, opt_copy, part, pieces, push_chars, push_text, rest,
    same, skip_run, starts_with, string_of, strip_prefix, trim_start, words, Class,
};

verus! {

/// The stage of a shader.
#[derive(Debug, Clone, Copy, PartialEq, Eq, Structural)]
pub enum Stage {
    Vertex,
    Fragment,
}

/// Why a shader's headers could not be brought in.
#[derive(Debug, Clone, PartialEq, Eq)]
pub enum IncludeError {
    /// The files name each other too deep.
    TooDeep,
    /// A file that is named was not found.
    Missing(String),
}

/// What a line of a shader asks for.
pub ghost enum Directive {
    /// Nothing: the line stands as it is.
    Plain,
    /// The file of that name.
    File(Seq<char>),
}

/// Where the first quotation mark or opening angle bracket stands.
pub open spec fn delimiter_from(s: Seq<char>, i: int) -> Option<int>
    decreases s.len() - i,
{
    if !(0 <= i < s.len()) {
        None
    } else if s[i] == '"' || s[i] == '<' {
        Some(i)
    } else {
        delimiter_from(s, i + 1)
    }
}

/// What a line of a shader asks for: `#include` and a name in quotation marks or
/// angle brackets.
pub open spec fn directive_of(line: Seq<char>) -> Directive {
    match crate::text::without_prefix(crate::text::trimmed_start(line), "#include"@) {
        None => Directive::Plain,
        Some(a) => {
            let r = crate::text::trimmed_start(a);
            match delimiter_from(r, 0) {
                None => Directive::Plain,
                Some(open) => match crate::text::index_from(
                    r,
                    if r[open] == '"' {
                        '"'
                    } else {
                        '>'
                    },
                    open + 1,
                ) {
                    None => Directive::Plain,
                    Some(close) => Directive::File(r.subrange(open + 1, close)),
                },
            }
        },
    }
}

fn find_delimiter(s: &[char]) -> (r: Option<usize>)
    ensures
        match r {
            Some(k) => delimiter_from(s@, 0) == Some(k as int) && k < s@.len() <= usize::MAX,
            None => delimiter_from(s@, 0) is None,
        },
{
    let mut i: usize = 0;
    while i < s.len()
        invariant
            i <= s@.len(),
            delimiter_from(s@, 0) == delimiter_from(s@, i as int),
        decreases s@.len() - i,
    {
        if s[i] == '"' || s[i] == '<' {
            return Some(i);
        }
        i += 1;
    }
    None
}

/// The file that a line asks for.
fn file_of(line: &[char]) -> (r: Option<Vec<char>>)
    ensures
        match r {
            Some(name) => directive_of(line@) == Directive::File(name@),
            None => directive_of(line@) == Directive::Plain,
        },
{
    let after = match strip_prefix(trim_start(line), "#include") {
        Some(a) => trim_start(a),
        None => return None,
    };
    match find_delimiter(after) {
        None => None,
        Some(open) => {
            let mark = if after[open] == '"' {
                '"'
            } else {
                '>'
            };
            match find_char(after, mark, open + 1) {
                None => None,
                Some(close) => Some(copy_chars(part(after, open + 1, close))),
            }
        },
    }
}

/// What bringing in the headers gives: the text, or why there is none; and which
/// files have been brought in by then.
#[verifier::ext_equal]
pub ghost struct Expansion {
    pub text: Result<Seq<char>, ExpansionFault>,
    pub seen: Set<Seq<char>>,
}

/// Why there is no text.
pub ghost enum ExpansionFault {
    TooDeep,
    Missing(Seq<char>),
}

/// An expansion with a text before its own.
pub open spec fn prefixed(before: Seq<char>, e: Expansion) -> Expansion {
    match e.text {
        Ok(t) => Expansion { text: Ok(before + t), seen: e.seen },
        Err(_) => e,
    }
}

/// How deep files may name each other.
pub const MAX_DEPTH: u32 = 16;

/// The lines of a shader with the files they ask for in place of the lines that
/// ask; each file once. `files` gives the text of a file, where there is one.
pub open spec fn expansion(
    list: Seq<Seq<char>>,
    files: spec_fn(Seq<char>) -> Option<Seq<char>>,
    seen: Set<Seq<char>>,
    depth: nat,
) -> Expansion
    decreases MAX_DEPTH + 1 - depth, list.len(),
{
    if list.len() == 0 {
        Expansion { text: Ok(Seq::empty()), seen }
    } else {
        match directive_of(list[0]) {
            Directive::Plain => prefixed(
                list[0].push('\n'),
                expansion(list.skip(1), files, seen, depth),
            ),
            Directive::File(name) => {
                if name.len() == 0 || seen.contains(name) {
                    expansion(list.skip(1), files, seen, depth)
                } else {
                    match files(name) {
                        None => Expansion {
                            text: Err(ExpansionFault::Missing(name)),
                            seen: seen.insert(name),
                        },
                        Some(body) => if depth >= MAX_DEPTH {
                            Expansion { text: Err(ExpansionFault::TooDeep), seen: seen.insert(name) }
                        } else {
                            let inner = expansion(
                                crate::text::lines_of(body),
                                files,
                                seen.insert(name),
                                depth + 1,
                            );
                            match inner.text {
                                Err(_) => inner,
                                Ok(t) => prefixed(
                                    t.push('\n'),
                                    expansion(list.skip(1), files, inner.seen, depth),
                                ),
                            }
                        },
                    }
                }
            },
        }
    }
}

/// Whether `files` says what the function `lookup` answers.
pub open spec fn answers<F: Fn(&str) -> Option<String>>(
    lookup: F,
    files: spec_fn(Seq<char>) -> Option<Seq<char>>,
) -> bool {
    forall|name: &str, r: Option<String>| #[trigger]
        call_ensures(lookup, (name,), r) ==> match r {
            Some(text) => files(name@) == Some(text@),
            None => files(name@) is None,
        }
}

/// Whether an outcome is the one an expansion says.
pub open spec fn expands_to(r: Result<String, IncludeError>, text: Result<Seq<char>, ExpansionFault>) -> bool {
    match r {
        Ok(s) => text == Ok::<Seq<char>, ExpansionFault>(s@),
        Err(IncludeError::TooDeep) => text == Err::<Seq<char>, ExpansionFault>(
            ExpansionFault::TooDeep,
        ),
        Err(IncludeError::Missing(name)) => text == Err::<Seq<char>, ExpansionFault>(
            ExpansionFault::Missing(name@),
        ),
    }
}

/// Whether the function `lookup` answered for each of some names what `files` says.
pub open spec fn answered<F: Fn(&str) -> Option<String>>(
    lookup: F,
    files: spec_fn(Seq<char>) -> Option<Seq<char>>,
    names: Set<Seq<char>>,
) -> bool {
    forall|n: Seq<char>| #[trigger] names.contains(n) ==> was_told(lookup, n, files(n))
}

/// Whether `lookup` may answer so for a name.
pub open spec fn was_told<F: Fn(&str) -> Option<String>>(
    lookup: F,
    name: Seq<char>,
    answer: Option<Seq<char>>,
) -> bool {
    exists|s: &str, a: Option<String>|
        s@ == name && #[trigger] call_ensures(lookup, (s,), a) && crate::text::opt_text(a) == answer
}

/// Whether two functions say the same of some names.
pub open spec fn agree(
    f: spec_fn(Seq<char>) -> Option<Seq<char>>,
    g: spec_fn(Seq<char>) -> Option<Seq<char>>,
    names: Set<Seq<char>>,
) -> bool {
    forall|n: Seq<char>| #[trigger] names.contains(n) ==> f(n) == g(n)
}

/// Whether an outcome is that of the answers that `files` says were given: whatever
/// agrees with them gives it.
pub open spec fn follows<F: Fn(&str) -> Option<String>>(
    lookup: F,
    files: spec_fn(Seq<char>) -> Option<Seq<char>>,
    list: Seq<Seq<char>>,
    seen: Set<Seq<char>>,
    depth: nat,
    r: Result<String, IncludeError>,
    after: Set<Seq<char>>,
) -> bool {
    &&& answered(lookup, files, after.difference(seen))
    &&& forall|g: spec_fn(Seq<char>) -> Option<Seq<char>>| #[trigger]
        agree(files, g, after.difference(seen)) ==> {
            let e = expansion(list, g, seen, depth);
            expands_to(r, e.text) && e.seen == after
        }
}

/// Expand `#include "x.h"` recursively.
///
/// `lookup` resolves a name to the file's text (the package first, then the
/// engine's assets). A missing file is reported rather than dropped, because a
/// shader that silently loses `common.h` fails to compile in a much less obvious
/// way. Each file is brought in at most once, and recursion is depth-bounded.
///
/// The outcome is the expansion by what `lookup` answered for the names that it was
/// asked for; where its answers are a function of the name, by that function.
pub fn expand_includes<F: Fn(&str) -> Option<String>>(source: &str, lookup: &F) -> (r: Result<
    String,
    IncludeError,
>)
    requires
        forall|name: &str| call_requires(*lookup, (name,)),
    ensures
        exists|files: spec_fn(Seq<char>) -> Option<Seq<char>>| #[trigger]
            answered(
                *lookup,
                files,
                expansion(crate::text::lines_of(source@), files, Set::empty(), 0).seen,
            ) && expands_to(
                r,
                expansion(crate::text::lines_of(source@), files, Set::empty(), 0).text,
            ),
        forall|files: spec_fn(Seq<char>) -> Option<Seq<char>>| #[trigger]
            answers(*lookup, files) ==> expands_to(
                r,
                expansion(crate::text::lines_of(source@), files, Set::empty(), 0).text,
            ),
{
    let mut seen: Vec<Vec<char>> = Vec::new();
    let ghost none = Set::<Seq<char>>::empty();
    proof {
        assert(crate::text::spelled(seen@).to_set() =~= none);
    }
    let r = expand_inner(source, lookup, &mut seen, 0);
    proof {
        let list = crate::text::lines_of(source@);
        let after = crate::text::spelled(seen@).to_set();
        let files = choose|files: spec_fn(Seq<char>) -> Option<Seq<char>>| #[trigger]
            follows(*lookup, files, list, none, 0, r, after);
        assert(agree(files, files, after.difference(none)));
        assert(after.difference(none) =~= after);
        assert(answered(*lookup, files, expansion(list, files, none, 0).seen));
        assert forall|g: spec_fn(Seq<char>) -> Option<Seq<char>>| #[trigger]
            answers(*lookup, g) implies expands_to(r, expansion(list, g, none, 0).text) by {
            assert forall|n: Seq<char>| #[trigger]
                after.difference(none).contains(n) implies files(n) == g(n) by {
                assert(was_told(*lookup, n, files(n)));
                let (s, a) = choose|s: &str, a: Option<String>|
                    s@ == n && #[trigger] call_ensures(*lookup, (s,), a) && crate::text::opt_text(a)
                        == files(n);
                assert(call_ensures(*lookup, (s,), a));
            }
            assert(agree(files, g, after.difference(none)));
        }
    }
    r
}

fn expand_inner<F: Fn(&str) -> Option<String>>(
    source: &str,
    lookup: &F,
    seen: &mut Vec<Vec<char>>,
    depth: u32,
) -> (r: Result<String, IncludeError>)
    requires
        depth <= MAX_DEPTH,
        forall|name: &str| call_requires(*lookup, (name,)),
    ensures
        crate::text::spelled(old(seen)@).to_set().subset_of(
            crate::text::spelled(final(seen)@).to_set(),
        ),
        exists|files: spec_fn(Seq<char>) -> Option<Seq<char>>| #[trigger]
            follows(
                *lookup,
                files,
                crate::text::lines_of(source@),
                crate::text::spelled(old(seen)@).to_set(),
                depth as nat,
                r,
                crate::text::spelled(final(seen)@).to_set(),
            ),
    decreases MAX_DEPTH + 1 - depth,
{
    let all = chars_of(source);
    let list = lines(all.as_slice());
    let ghost model = crate::text::lines_of(source@);
    let ghost seen0 = crate::text::spelled(seen@).to_set();
    let ghost mut files = |n: Seq<char>| None::<Seq<char>>;
    let mut out = String::new();
    let mut i: usize = 0;
    proof {
        assert(crate::text::spelled(list@).len() == list@.len());
        assert(model.skip(0) =~= model);
        assert forall|g: spec_fn(Seq<char>) -> Option<Seq<char>>| #[trigger]
            agree(files, g, seen0.difference(seen0)) implies expansion(
            model,
            g,
            seen0,
            depth as nat,
        ) == prefixed(out@, expansion(model.skip(0), g, seen0, depth as nat)) by {
            let e = expansion(model, g, seen0, depth as nat);
            if e.text is Ok {
                assert(out@ + e.text->Ok_0 =~= e.text->Ok_0);
            }
        }
    }
    while i < list.len()
        invariant
            i <= list@.len(),
            depth <= MAX_DEPTH,
            forall|name: &str| call_requires(*lookup, (name,)),
            model == crate::text::lines_of(source@),
            model == crate::text::spelled(list@),
            seen0 == crate::text::spelled(old(seen)@).to_set(),
            seen0.subset_of(crate::text::spelled(seen@).to_set()),
            answered(*lookup, files, crate::text::spelled(seen@).to_set().difference(seen0)),
            forall|g: spec_fn(Seq<char>) -> Option<Seq<char>>| #[trigger]
                agree(files, g, crate::text::spelled(seen@).to_set().difference(seen0))
                    ==> expansion(model, g, seen0, depth as nat) == prefixed(
                    out@,
                    expansion(
                        model.skip(i as int),
                        g,
                        crate::text::spelled(seen@).to_set(),
                        depth as nat,
                    ),
                ),
        decreases list@.len() - i,
    {
        let line = list[i].as_slice();
        let ghost before = out@;
        let ghost known = crate::text::spelled(seen@).to_set();
        let ghost from = model.skip(i as int);
        proof {
            assert(line@ == from[0]);
            assert(from.skip(1) =~= model.skip(i + 1));
        }
        match file_of(line) {
            None => {
                push_chars(&mut out, line);
                out.push('\n');
                proof {
                    assert(out@ =~= before + line@.push('\n'));
                    assert forall|g: spec_fn(Seq<char>) -> Option<Seq<char>>| #[trigger]
                        agree(files, g, known.difference(seen0)) implies expansion(
                        model,
                        g,
                        seen0,
                        depth as nat,
                    ) == prefixed(out@, expansion(model.skip(i + 1), g, known, depth as nat)) by {
                        lemma_prefixed(
                            before,
                            line@.push('\n'),
                            expansion(model.skip(i + 1), g, known, depth as nat),
                        );
                    }
                }
            },
            Some(name) => {
                if name.len() > 0 && !lists(&*seen, name.as_slice()) {
                    let text = string_of(name.as_slice());
                    let ghost seen_names = crate::text::spelled(seen@);
                    seen.push(name);
                    let ghost known1 = crate::text::spelled(seen@).to_set();
                    proof {
                        assert(crate::text::spelled(seen@) =~= seen_names.push(name@));
                        lemma_push_set(seen_names, name@);
                    }
                    let found = lookup(text.as_str());
                    let ghost answer = crate::text::opt_text(found);
                    let ghost files1 = |n: Seq<char>|
                        if n == name@ {
                            answer
                        } else {
                            files(n)
                        };
                    proof {
                        assert(was_told(*lookup, name@, answer));
                        lemma_one_more(*lookup, files, files1, seen0, known, name@);
                    }
                    let body = match found {
                        Some(body) => body,
                        None => {
                            let r = Err(IncludeError::Missing(text));
                            proof {
                                assert forall|g: spec_fn(Seq<char>) -> Option<Seq<char>>| #[trigger]
                                    agree(files1, g, known1.difference(seen0)) implies ({
                                    let e = expansion(model, g, seen0, depth as nat);
                                    expands_to(r, e.text) && e.seen == known1
                                }) by {
                                    lemma_agree_less(files, files1, g, seen0, known, name@);
                                }
                                assert(follows(
                                    *lookup,
                                    files1,
                                    model,
                                    seen0,
                                    depth as nat,
                                    r,
                                    known1,
                                ));
                            }
                            return r;
                        },
                    };
                    if depth >= MAX_DEPTH {
                        let r = Err(IncludeError::TooDeep);
                        proof {
                            assert forall|g: spec_fn(Seq<char>) -> Option<Seq<char>>| #[trigger]
                                agree(files1, g, known1.difference(seen0)) implies ({
                                let e = expansion(model, g, seen0, depth as nat);
                                expands_to(r, e.text) && e.seen == known1
                            }) by {
                                lemma_agree_less(files, files1, g, seen0, known, name@);
                            }
                            assert(follows(
                                *lookup,
                                files1,
                                model,
                                seen0,
                                depth as nat,
                                r,
                                known1,
                            ));
                        }
                        return r;
                    }
                    let inner = expand_inner(body.as_str(), lookup, seen, depth + 1);
                    let ghost known2 = crate::text::spelled(seen@).to_set();
                    let ghost body_lines = crate::text::lines_of(body@);
                    let ghost files2 = choose|f: spec_fn(Seq<char>) -> Option<Seq<char>>| #[trigger]
                        follows(
                            *lookup,
                            f,
                            body_lines,
                            known1,
                            (depth + 1) as nat,
                            inner,
                            known2,
                        );
                    let ghost both = |n: Seq<char>|
                        if known1.contains(n) {
                            files1(n)
                        } else {
                            files2(n)
                        };
                    proof {
                        lemma_both(*lookup, files1, files2, both, seen0, known1, known2);
                        assert forall|g: spec_fn(Seq<char>) -> Option<Seq<char>>| #[trigger]
                            agree(both, g, known2.difference(seen0)) implies ({
                            let e = expansion(body_lines, g, known1, (depth + 1) as nat);
                            &&& expands_to(inner, e.text)
                            &&& e.seen == known2
                            &&& g(name@) == answer
                            &&& agree(files, g, known.difference(seen0))
                        }) by {
                            lemma_both_agree(files1, files2, both, g, seen0, known1, known2);
                            lemma_agree_less(files, files1, g, seen0, known, name@);
                        }
                    }
                    match inner {
                        Err(e) => {
                            proof {
                                assert(follows(
                                    *lookup,
                                    both,
                                    model,
                                    seen0,
                                    depth as nat,
                                    Err(e),
                                    known2,
                                ));
                            }
                            return Err(e);
                        },
                        Ok(t) => {
                            push_text(&mut out, t.as_str());
                            out.push('\n');
                            proof {
                                assert(out@ =~= before + t@.push('\n'));
                                assert forall|g: spec_fn(Seq<char>) -> Option<Seq<char>>| #[trigger]
                                    agree(both, g, known2.difference(seen0)) implies expansion(
                                    model,
                                    g,
                                    seen0,
                                    depth as nat,
                                ) == prefixed(
                                    out@,
                                    expansion(model.skip(i + 1), g, known2, depth as nat),
                                ) by {
                                    lemma_prefixed(
                                        before,
                                        t@.push('\n'),
                                        expansion(model.skip(i + 1), g, known2, depth as nat),
                                    );
                                }
                                files = both;
                            }
                        },
                    }
                }
            },
        }
        i += 1;
    }
    let ghost known = crate::text::spelled(seen@).to_set();
    let r = Ok(out);
    proof {
        assert(model.skip(i as int) =~= Seq::<Seq<char>>::empty());
        assert(out@ + Seq::<char>::empty() =~= out@);
        assert(follows(*lookup, files, model, seen0, depth as nat, r, known));
    }
    r
}

/// An answer more is told along with the others.
proof fn lemma_one_more<F: Fn(&str) -> Option<String>>(
    lookup: F,
    files: spec_fn(Seq<char>) -> Option<Seq<char>>,
    more: spec_fn(Seq<char>) -> Option<Seq<char>>,
    seen: Set<Seq<char>>,
    known: Set<Seq<char>>,
    name: Seq<char>,
)
    requires
        answered(lookup, files, known.difference(seen)),
        was_told(lookup, name, more(name)),
        forall|n: Seq<char>| n != name ==> #[trigger] more(n) == files(n),
    ensures
        answered(lookup, more, known.insert(name).difference(seen)),
{
    assert forall|n: Seq<char>| #[trigger]
        known.insert(name).difference(seen).contains(n) implies was_told(lookup, n, more(n)) by {
        if n != name {
            assert(known.difference(seen).contains(n));
        }
    }
}

/// What agrees with one answer more agrees without it.
proof fn lemma_agree_less(
    files: spec_fn(Seq<char>) -> Option<Seq<char>>,
    more: spec_fn(Seq<char>) -> Option<Seq<char>>,
    g: spec_fn(Seq<char>) -> Option<Seq<char>>,
    seen: Set<Seq<char>>,
    known: Set<Seq<char>>,
    name: Seq<char>,
)
    requires
        !known.contains(name),
        seen.subset_of(known),
        agree(more, g, known.insert(name).difference(seen)),
        forall|n: Seq<char>| n != name ==> #[trigger] more(n) == files(n),
    ensures
        agree(files, g, known.difference(seen)),
        g(name) == more(name),
{
    assert(known.insert(name).difference(seen).contains(name));
    assert forall|n: Seq<char>| #[trigger] known.difference(seen).contains(n) implies files(n) == g(
        n,
    ) by {
        assert(known.insert(name).difference(seen).contains(n));
        assert(more(n) == files(n));
    }
}

/// The answers of two stretches are told together.
proof fn lemma_both<F: Fn(&str) -> Option<String>>(
    lookup: F,
    one: spec_fn(Seq<char>) -> Option<Seq<char>>,
    two: spec_fn(Seq<char>) -> Option<Seq<char>>,
    both: spec_fn(Seq<char>) -> Option<Seq<char>>,
    seen: Set<Seq<char>>,
    mid: Set<Seq<char>>,
    end: Set<Seq<char>>,
)
    requires
        answered(lookup, one, mid.difference(seen)),
        answered(lookup, two, end.difference(mid)),
        forall|n: Seq<char>| #[trigger]
            both(n) == (if mid.contains(n) {
                one(n)
            } else {
                two(n)
            }),
    ensures
        answered(lookup, both, end.difference(seen)),
{
    assert forall|n: Seq<char>| #[trigger] end.difference(seen).contains(n) implies was_told(
        lookup,
        n,
        both(n),
    ) by {
        if mid.contains(n) {
            assert(mid.difference(seen).contains(n));
        } else {
            assert(end.difference(mid).contains(n));
        }
    }
}

/// What agrees with both stretches agrees with each.
proof fn lemma_both_agree(
    one: spec_fn(Seq<char>) -> Option<Seq<char>>,
    two: spec_fn(Seq<char>) -> Option<Seq<char>>,
    both: spec_fn(Seq<char>) -> Option<Seq<char>>,
    g: spec_fn(Seq<char>) -> Option<Seq<char>>,
    seen: Set<Seq<char>>,
    mid: Set<Seq<char>>,
    end: Set<Seq<char>>,
)
    requires
        seen.subset_of(mid),
        mid.subset_of(end),
        agree(both, g, end.difference(seen)),
        forall|n: Seq<char>| #[trigger]
            both(n) == (if mid.contains(n) {
                one(n)
            } else {
                two(n)
            }),
    ensures
        agree(one, g, mid.difference(seen)),
        agree(two, g, end.difference(mid)),
{
    assert forall|n: Seq<char>| #[trigger] mid.difference(seen).contains(n) implies one(n) == g(
        n,
    ) by {
        assert(end.difference(seen).contains(n));
        assert(both(n) == one(n));
    }
    assert forall|n: Seq<char>| #[trigger] end.difference(mid).contains(n) implies two(n) == g(n) by {
        assert(end.difference(seen).contains(n));
        assert(both(n) == two(n));
    }
}

proof fn lemma_prefixed(a: Seq<char>, b: Seq<char>, e: Expansion)
    ensures
        prefixed(a, prefixed(b, e)) == prefixed(a + b, e),
{
    match e.text {
        Ok(t) => {
            assert(a + (b + t) =~= a + b + t);
        },
        Err(_) => {},
    }
}

proof fn lemma_push_set(s: Seq<Seq<char>>, x: Seq<char>)
    ensures
        s.push(x).to_set() == s.to_set().insert(x),
{
    let p = s.push(x);
    assert forall|k: Seq<char>| #[trigger] p.to_set().contains(k) == s.to_set().insert(x).contains(k) by {
        if s.contains(k) {
            let i = choose|i: int| 0 <= i < s.len() && s[i] == k;
            assert(p[i] == k);
        }
        assert(p[s.len() as int] == x);
    }
    assert(p.to_set() =~= s.to_set().insert(x));
}

/// What was brought in stays brought in, and where the expansion succeeds every
/// file that it brought in was there.
proof fn lemma_seen(
    list: Seq<Seq<char>>,
    files: spec_fn(Seq<char>) -> Option<Seq<char>>,
    seen: Set<Seq<char>>,
    depth: nat,
)
    ensures
        seen.subset_of(expansion(list, files, seen, depth).seen),
        expansion(list, files, seen, depth).text is Ok ==> forall|n: Seq<char>|
            #![trigger files(n)]
            expansion(list, files, seen, depth).seen.contains(n) && !seen.contains(n) ==> files(
                n,
            ) is Some,
    decreases MAX_DEPTH + 1 - depth, list.len(),
{
    if list.len() > 0 {
        match directive_of(list[0]) {
            Directive::Plain => {
                lemma_seen(list.skip(1), files, seen, depth);
            },
            Directive::File(name) => {
                if name.len() == 0 || seen.contains(name) {
                    lemma_seen(list.skip(1), files, seen, depth);
                } else if files(name) is Some && depth < MAX_DEPTH {
                    let body = crate::text::lines_of(files(name)->Some_0);
                    lemma_seen(body, files, seen.insert(name), depth + 1);
                    let inner = expansion(body, files, seen.insert(name), depth + 1);
                    lemma_seen(list.skip(1), files, inner.seen, depth);
                }
            },
        }
    }
}

/// A file that has been brought in is never read again: what it says from then on
/// makes no difference.
pub proof fn law_each_file_once(
    list: Seq<Seq<char>>,
    files: spec_fn(Seq<char>) -> Option<Seq<char>>,
    others: spec_fn(Seq<char>) -> Option<Seq<char>>,
    seen: Set<Seq<char>>,
    depth: nat,
)
    requires
        forall|n: Seq<char>| #![trigger files(n)] #![trigger others(n)] !seen.contains(n) ==> files(n) == others(n),
    ensures
        expansion(list, files, seen, depth) == expansion(list, others, seen, depth),
    decreases MAX_DEPTH + 1 - depth, list.len(),
{
    if list.len() > 0 {
        match directive_of(list[0]) {
            Directive::Plain => {
                law_each_file_once(list.skip(1), files, others, seen, depth);
            },
            Directive::File(name) => {
                if name.len() == 0 || seen.contains(name) {
                    law_each_file_once(list.skip(1), files, others, seen, depth);
                } else if files(name) is Some && depth < MAX_DEPTH {
                    let body = crate::text::lines_of(files(name)->Some_0);
                    law_each_file_once(body, files, others, seen.insert(name), depth + 1);
                    let inner = expansion(body, files, seen.insert(name), depth + 1);
                    lemma_seen(body, files, seen.insert(name), depth + 1);
                    law_each_file_once(list.skip(1), files, others, inner.seen, depth);
                }
            },
        }
    }
}

/// A missing file is an error, not a silent drop: where a line asks for a file
/// that is not there, the expansion fails.
pub proof fn law_missing_file_is_reported(
    list: Seq<Seq<char>>,
    files: spec_fn(Seq<char>) -> Option<Seq<char>>,
    seen: Set<Seq<char>>,
    depth: nat,
    k: int,
    name: Seq<char>,
)
    requires
        0 <= k < list.len(),
        directive_of(list[k]) == Directive::File(name),
        name.len() > 0,
        !seen.contains(name),
        files(name) is None,
    ensures
        expansion(list, files, seen, depth).text is Err,
    decreases list.len(),
{
    match directive_of(list[0]) {
        Directive::Plain => {
            assert(list.skip(1)[k - 1] == list[k]);
            law_missing_file_is_reported(list.skip(1), files, seen, depth, k - 1, name);
        },
        Directive::File(first) => {
            if first == name {
            } else if first.len() == 0 || seen.contains(first) {
                assert(list.skip(1)[k - 1] == list[k]);
                law_missing_file_is_reported(list.skip(1), files, seen, depth, k - 1, name);
            } else if files(first) is Some && depth < MAX_DEPTH {
                let body = crate::text::lines_of(files(first)->Some_0);
                let inner = expansion(body, files, seen.insert(first), depth + 1);
                lemma_seen(body, files, seen.insert(first), depth + 1);
                if inner.text is Ok {
                    assert(!inner.seen.contains(name));
                    assert(list.skip(1)[k - 1] == list[k]);
                    law_missing_file_is_reported(
                        list.skip(1),
                        files,
                        inner.seen,
                        depth,
                        k - 1,
                        name,
                    );
                }
            }
        },
    }
}

/// A shader that asks for nothing is its own lines, each ended by a line feed.
pub open spec fn ended_lines(list: Seq<Seq<char>>) -> Seq<char>
    decreases list.len(),
{
    if list.len() == 0 {
        Seq::empty()
    } else {
        list[0].push('\n') + ended_lines(list.skip(1))
    }
}

/// Lines that ask for no file are kept as they are.
pub proof fn law_plain_lines_are_kept(
    list: Seq<Seq<char>>,
    files: spec_fn(Seq<char>) -> Option<Seq<char>>,
    seen: Set<Seq<char>>,
    depth: nat,
)
    requires
        forall|k: int| 0 <= k < list.len() ==> directive_of(#[trigger] list[k]) == Directive::Plain,
    ensures
        expansion(list, files, seen, depth) == (Expansion { text: Ok(ended_lines(list)), seen }),
    decreases list.len(),
{
    if list.len() > 0 {
        assert forall|k: int| 0 <= k < list.skip(1).len() implies directive_of(
            #[trigger] list.skip(1)[k],
        ) == Directive::Plain by {
            assert(list.skip(1)[k] == list[k + 1]);
        }
        law_plain_lines_are_kept(list.skip(1), files, seen, depth);
    }
}

/// A uniform the shader reads, and the material constant that fills it.
#[derive(Debug, PartialEq, Eq)]
pub struct UniformBinding {
    /// GLSL name, e.g. `g_Scale`.
    pub name: String,
    /// GLSL type, e.g. `float` or `vec3`.
    pub ty: String,
    /// The material constant key from the JSON comment, when present.
    pub material: Option<String>,
    /// The JSON comment's `default`, when present.
    pub default: Option<Json>,
    /// A combo name, when the uniform is a compile-time option rather than a value.
    pub combo: Option<String>,
    /// Marked `hidden` in the JSON comment (engine-provided, not editor-exposed).
    pub hidden: bool,
}

/// What a binding stands for.
#[verifier::ext_equal]
pub ghost struct BindingModel {
    pub name: Seq<char>,
    pub ty: Seq<char>,
    pub material: Option<Seq<char>>,
    pub default: Option<JsonTree>,
    pub combo: Option<Seq<char>>,
    pub hidden: bool,
}

impl View for UniformBinding {
    type V = BindingModel;

    open spec fn view(&self) -> BindingModel {
        BindingModel {
            name: self.name@,
            ty: self.ty@,
            material: crate::text::opt_text(self.material),
            default: match self.default {
                Some(v) => Some(v@),
                None => None,
            },
            combo: crate::text::opt_text(self.combo),
            hidden: self.hidden,
        }
    }
}

/// The entry of an optional document.
pub open spec fn comment_field(comment: Option<JsonTree>, key: Seq<char>) -> Option<JsonTree> {
    match comment {
        Some(t) => crate::json::field(t, key),
        None => None,
    }
}

/// The text under a key of an optional document.
pub open spec fn comment_text(comment: Option<JsonTree>, key: Seq<char>) -> Option<Seq<char>> {
    match comment_field(comment, key) {
        Some(v) => crate::json::text_in(v),
        None => None,
    }
}

/// The binding of a uniform, given the document in its comment.
pub open spec fn binding_model(ty: Seq<char>, name: Seq<char>, comment: Option<JsonTree>) -> BindingModel {
    BindingModel {
        name,
        ty,
        material: comment_text(comment, "material"@),
        default: comment_field(comment, "default"@),
        combo: comment_text(comment, "combo"@),
        hidden: match comment_field(comment, "hidden"@) {
            Some(v) => crate::json::bool_in(v) == Some(true),
            None => false,
        },
    }
}

/// A `uniform` declaration: its type, its name and the document in its comment,
/// as text.
pub ghost struct Declaration {
    pub ty: Seq<char>,
    pub name: Seq<char>,
    pub comment: Option<Seq<char>>,
}

/// The text from the first opening brace to the last closing one.
pub open spec fn braced(s: Seq<char>) -> Option<Seq<char>> {
    match crate::text::index_from(s, '{', 0) {
        None => None,
        Some(open) => match crate::text::last_index(s.skip(open), '}') {
            None => None,
            Some(close) => Some(s.skip(open).take(close + 1)),
        },
    }
}

/// The declaration that a line is: `uniform <type> <name>;`, and behind it
/// perhaps a comment.
pub open spec fn declaration_of(line: Seq<char>) -> Option<Declaration> {
    match crate::text::without_prefix(crate::text::trimmed_start(line), "uniform "@) {
        None => None,
        Some(r) => match crate::text::index_from(r, ';', 0) {
            None => None,
            Some(semi) => {
                let words = crate::text::words_of(r.take(semi));
                if words.len() < 2 {
                    None
                } else {
                    Some(Declaration { ty: words[0], name: words[1], comment: braced(r.skip(semi)) })
                }
            },
        },
    }
}

/// The document that an optional text is.
pub open spec fn read_comment(text: Option<Seq<char>>) -> Option<JsonTree> {
    match text {
        Some(t) => crate::json::json_read(t),
        None => None,
    }
}

/// The bindings of the lines of a shader.
pub open spec fn bindings_in(list: Seq<Seq<char>>) -> Seq<BindingModel>
    decreases list.len(),
{
    if list.len() == 0 {
        Seq::empty()
    } else {
        let others = bindings_in(list.skip(1));
        match declaration_of(list[0]) {
            Some(d) => seq![binding_model(d.ty, d.name, read_comment(d.comment))] + others,
            None => others,
        }
    }
}

/// What the bindings of a list stand for.
pub open spec fn binding_views(v: Seq<UniformBinding>) -> Seq<BindingModel> {
    Seq::new(v.len(), |i: int| v[i]@)
}

fn find_braced<'a>(s: &'a [char]) -> (r: Option<&'a [char]>)
    ensures
        match r {
            Some(t) => braced(s@) == Some(t@),
            None => braced(s@) is None,
        },
{
    match find_char(s, '{', 0) {
        None => None,
        Some(open) => {
            let text = rest(s, open);
            match find_last(text, '}') {
                None => None,
                Some(close) => {
                    let n = text.len();
                    Some(head(text, close + 1))
                },
            }
        },
    }
}

/// The binding of a uniform, given the document in its comment.
pub fn binding_of(ty: String, name: String, comment: Option<&Json>) -> (r: UniformBinding)
    ensures
        r@ == binding_model(
            ty@,
            name@,
            match comment {
                Some(j) => Some(j@),
                None => None,
            },
        ),
{
    match comment {
        None => UniformBinding {
            name,
            ty,
            material: None,
            default: None,
            combo: None,
            hidden: false,
        },
        Some(j) => {
            let default = match j.get("default") {
                Some(v) => Some(v.copy()),
                None => None,
            };
            let hidden = match j.get("hidden") {
                Some(v) => match v.as_bool() {
                    Some(b) => b,
                    None => false,
                },
                None => false,
            };
            UniformBinding {
                name,
                ty,
                material: opt_copy(j.text_at("material")),
                default,
                combo: opt_copy(j.text_at("combo")),
                hidden,
            }
        },
    }
}

fn binding_on(line: &[char]) -> (r: Option<UniformBinding>)
    ensures
        match declaration_of(line@) {
            Some(d) => r matches Some(b) && b@ == binding_model(
                d.ty,
                d.name,
                read_comment(d.comment),
            ),
            None => r is None,
        },
{
    let after = match strip_prefix(trim_start(line), "uniform ") {
        Some(a) => a,
        None => return None,
    };
    let semi = match find_char(after, ';', 0) {
        Some(k) => k,
        None => return None,
    };
    let parts = words(head(after, semi));
    proof {
        assert(crate::text::spelled(parts@).len() == parts@.len());
    }
    if parts.len() < 2 {
        return None;
    }
    let ty = string_of(parts[0].as_slice());
    let name = string_of(parts[1].as_slice());
    proof {
        assert(crate::text::spelled(parts@)[0] == ty@);
        assert(crate::text::spelled(parts@)[1] == name@);
    }
    let comment = match find_braced(rest(after, semi)) {
        Some(t) => parse_json(string_of(t).as_str()),
        None => None,
    };
    Some(
        match comment {
            Some(j) => binding_of(ty, name, Some(&j)),
            None => binding_of(ty, name, None),
        },
    )
}

/// Parse a shader's `uniform` declarations and their JSON binding comments.
///
/// This is deliberately a textual scan of the declarations rather than a GLSL
/// parse: the comments are the contract, and they only ever appear on a
/// declaration line, which is exactly what is matched here.
pub fn uniform_bindings(source: &str) -> (r: Vec<UniformBinding>)
    ensures
        binding_views(r@) == bindings_in(crate::text::lines_of(source@)),
{
    let all = chars_of(source);
    let list = lines(all.as_slice());
    let ghost model = crate::text::lines_of(source@);
    let mut out: Vec<UniformBinding> = Vec::new();
    let mut i: usize = 0;
    proof {
        assert(crate::text::spelled(list@).len() == list@.len());
        assert(model.skip(0) =~= model);
        assert(binding_views(out@) + bindings_in(model) =~= bindings_in(model));
    }
    while i < list.len()
        invariant
            i <= list@.len(),
            model == crate::text::spelled(list@),
            binding_views(out@) + bindings_in(model.skip(i as int)) == bindings_in(model),
        decreases list@.len() - i,
    {
        let ghost was = binding_views(out@);
        let ghost from = model.skip(i as int);
        proof {
            assert(from[0] == list@[i as int]@);
            assert(from.skip(1) =~= model.skip(i + 1));
        }
        if let Some(b) = binding_on(list[i].as_slice()) {
            out.push(b);
            proof {
                assert(binding_views(out@) =~= was + seq![b@]);
                assert(binding_views(out@) + bindings_in(model.skip(i + 1)) =~= was + (seq![b@]
                    + bindings_in(model.skip(i + 1))));
            }
        }
        i += 1;
    }
    proof {
        assert(model.skip(i as int) =~= Seq::<Seq<char>>::empty());
        assert(binding_views(out@) + Seq::<BindingModel>::empty() =~= binding_views(out@));
    }
    out
}

/// What an `#if` line tests, where the line is one.
pub open spec fn condition_of(line: Seq<char>) -> Option<Seq<char>> {
    let t = crate::text::trimmed_start(line);
    match crate::text::without_prefix(t, "#if "@) {
        Some(r) => Some(r),
        None => crate::text::without_prefix(t, "#if\t"@),
    }
}

/// Whether a word in a condition is the name of a macro: neither a number nor one
/// of GLSL's own words.
pub open spec fn macro_word(w: Seq<char>) -> bool {
    w.len() > 0 && !crate::text::ascii_digit(w[0]) && w != "defined"@ && w != "true"@ && w != "false"@
}

/// The words of a condition.
pub open spec fn condition_words(c: Seq<char>) -> Seq<Seq<char>> {
    crate::text::pieces_of(c, Class::Mark, Class::Word)
}

/// Whether a line tests the macro `n`.
pub open spec fn tests_macro(line: Seq<char>, n: Seq<char>) -> bool {
    match condition_of(line) {
        Some(c) => macro_word(n) && condition_words(c).contains(n),
        None => false,
    }
}

/// The macros that a shader must find defined: the combos of its uniforms and the
/// names that its conditions test.
pub open spec fn combo_names(source: Seq<char>) -> Set<Seq<char>> {
    let list = crate::text::lines_of(source);
    Set::new(
        |n: Seq<char>|
            (exists|i: int|
                0 <= i < bindings_in(list).len() && (#[trigger] bindings_in(list)[i]).combo == Some(n))
                || (exists|k: int| 0 <= k < list.len() && tests_macro(#[trigger] list[k], n)),
    )
}

/// A macro that is zero unless it is defined already.
pub open spec fn zero_default(n: Seq<char>) -> Seq<char> {
    "#ifndef "@ + n + "\n#define "@ + n + " 0\n#endif"@
}

/// The default of each macro, in the order of their names.
pub open spec fn combo_defaults(source: Seq<char>) -> Seq<Seq<char>> {
    let names = crate::strmap::listing(combo_names(source));
    Seq::new(names.len(), |i: int| zero_default(names[i]))
}

/// The words of the conditions among the first `n` lines.
spec fn tested_words(list: Seq<Seq<char>>, n: int) -> Set<Seq<char>>
    decreases n,
{
    if n <= 0 {
        Set::empty()
    } else {
        match condition_of(list[n - 1]) {
            Some(c) => tested_words(list, n - 1).union(condition_words(c).to_set()),
            None => tested_words(list, n - 1),
        }
    }
}

proof fn lemma_tested_words(list: Seq<Seq<char>>, n: int)
    requires
        0 <= n <= list.len(),
    ensures
        tested_words(list, n).finite(),
        forall|k: int, w: Seq<char>|
            0 <= k < n && tests_macro(#[trigger] list[k], w) ==> #[trigger] tested_words(
                list,
                n,
            ).contains(w),
    decreases n,
{
    if n > 0 {
        lemma_tested_words(list, n - 1);
        match condition_of(list[n - 1]) {
            Some(c) => {
                vstd::seq_lib::seq_to_set_is_finite(condition_words(c));
            },
            None => {},
        }
        assert forall|k: int, w: Seq<char>|
            0 <= k < n && tests_macro(#[trigger] list[k], w) implies #[trigger] tested_words(
            list,
            n,
        ).contains(w) by {
            if k < n - 1 {
                assert(tested_words(list, n - 1).contains(w));
            }
        }
    }
}

/// The macros that a shader must find defined are finitely many, so there is an
/// ascending list of them.
pub proof fn lemma_combo_names_listed(source: Seq<char>)
    ensures
        combo_names(source).finite(),
        crate::strmap::listed(crate::strmap::listing(combo_names(source)), combo_names(source)),
{
    let list = crate::text::lines_of(source);
    let bindings = bindings_in(list);
    let combos = Seq::new(
        bindings.len(),
        |i: int|
            match bindings[i].combo {
                Some(n) => n,
                None => Seq::empty(),
            },
    );
    vstd::seq_lib::seq_to_set_is_finite(combos);
    lemma_tested_words(list, list.len() as int);
    let all = combos.to_set().union(tested_words(list, list.len() as int));
    assert forall|n: Seq<char>| #[trigger] combo_names(source).contains(n) implies all.contains(
        n,
    ) by {
        if exists|i: int| 0 <= i < bindings.len() && (#[trigger] bindings[i]).combo == Some(n) {
            let i = choose|i: int| 0 <= i < bindings.len() && (#[trigger] bindings[i]).combo == Some(
                n,
            );
            assert(combos[i] == n);
        } else {
            let k = choose|k: int| 0 <= k < list.len() && tests_macro(#[trigger] list[k], n);
            assert(tested_words(list, list.len() as int).contains(n));
        }
    }
    vstd::set_lib::lemma_len_subset(combo_names(source), all);
    crate::strmap::lemma_listing_exists(combo_names(source));
}

/// Every macro that a shader must find defined has its default, and nothing else has.
pub proof fn law_each_combo_has_a_default(source: Seq<char>, n: Seq<char>, i: int)
    ensures
        combo_names(source).contains(n) ==> combo_defaults(source).contains(zero_default(n)),
        0 <= i < combo_defaults(source).len() ==> exists|m: Seq<char>| #[trigger]
            combo_names(source).contains(m) && combo_defaults(source)[i] == zero_default(m),
{
    lemma_combo_names_listed(source);
    let names = crate::strmap::listing(combo_names(source));
    let defaults = combo_defaults(source);
    if combo_names(source).contains(n) {
        let k = choose|k: int| 0 <= k < names.len() && names[k] == n;
        assert(defaults[k] == zero_default(n));
    }
    if 0 <= i < defaults.len() {
        assert(names.contains(names[i]));
        assert(combo_names(source).contains(names[i]));
        assert(defaults[i] == zero_default(names[i]));
    }
}

fn find_condition<'a>(line: &'a [char]) -> (r: Option<&'a [char]>)
    ensures
        match r {
            Some(c) => condition_of(line@) == Some(c@),
            None => condition_of(line@) is None,
        },
{
    let t = trim_start(line);
    match strip_prefix(t, "#if ") {
        Some(c) => Some(c),
        None => strip_prefix(t, "#if\t"),
    }
}

fn is_macro_word(w: &[char]) -> (r: bool)
    ensures
        r == macro_word(w@),
{
    w.len() > 0 && !is_ascii_digit(w[0]) && !is_text(w, "defined") && !is_text(w, "true")
        && !is_text(w, "false")
}

/// Put the macros that a line tests into the set.
fn note_tested(line: &[char], names: &mut StrMap<()>)
    ensures
        forall|n: Seq<char>| #[trigger]
            final(names)@.dom().contains(n) <==> old(names)@.dom().contains(n) || tests_macro(
                line@,
                n,
            ),
{
    let condition = match find_condition(line) {
        Some(c) => c,
        None => return ,
    };
    let parts = pieces(condition, Class::Mark, Class::Word);
    let ghost all = condition_words(condition@);
    let mut i: usize = 0;
    proof {
        assert(crate::text::spelled(parts@).len() == parts@.len());
    }
    while i < parts.len()
        invariant
            i <= parts@.len(),
            all == crate::text::spelled(parts@),
            all == condition_words(condition@),
            forall|n: Seq<char>| #[trigger]
                names@.dom().contains(n) <==> old(names)@.dom().contains(n) || (macro_word(n)
                    && all.take(i as int).contains(n)),
        decreases parts@.len() - i,
    {
        let w = parts[i].as_slice();
        let ghost was = names@;
        proof {
            assert(all[i as int] == w@);
            assert(all.take(i + 1) =~= all.take(i as int).push(w@));
            assert forall|n: Seq<char>| #[trigger] all.take(i + 1).contains(n) <==> all.take(
                i as int,
            ).contains(n) || n == w@ by {
                let t = all.take(i as int);
                if t.contains(n) {
                    let j = choose|j: int| 0 <= j < t.len() && t[j] == n;
                    assert(all.take(i + 1)[j] == n);
                }
                assert(all.take(i + 1)[i as int] == w@);
            }
        }
        if is_macro_word(w) {
            names.insert(string_of(w), ());
        }
        i += 1;
    }
    proof {
        assert(all.take(all.len() as int) =~= all);
    }
}

/// Combo macros a stage needs defined.
///
/// A shader guards its variants with `#if SOME_COMBO`, naming the combo in each
/// uniform's JSON comment (`{"combo":"SOME_COMBO"}`). GLSL ES rejects an `#if`
/// over an undefined name where HLSL treated it as 0, so a host that does not
/// select a combo must still define it. `0` is the honest default: it is what
/// "this option is off" means, and the shader's own `#else` branch then applies.
pub fn combo_defines(source: &str) -> (r: Vec<String>)
    ensures
        crate::text::texts(r@) == combo_defaults(source@),
{
    let bindings = uniform_bindings(source);
    let all = chars_of(source);
    let list = lines(all.as_slice());
    let ghost model = crate::text::lines_of(source@);
    let ghost bound = bindings_in(model);
    let mut names: StrMap<()> = StrMap::new();
    let mut i: usize = 0;
    proof {
        assert(binding_views(bindings@).len() == bindings@.len());
        assert(crate::text::spelled(list@).len() == list@.len());
    }
    while i < bindings.len()
        invariant
            i <= bindings@.len(),
            bound == binding_views(bindings@),
            forall|n: Seq<char>| #[trigger]
                names@.dom().contains(n) <==> exists|j: int|
                    0 <= j < i && (#[trigger] bound[j]).combo == Some(n),
        decreases bindings@.len() - i,
    {
        proof {
            assert(bound[i as int] == bindings@[i as int]@);
        }
        if let Some(combo) = &bindings[i].combo {
            names.insert(combo.clone(), ());
        }
        i += 1;
    }
    let mut k: usize = 0;
    while k < list.len()
        invariant
            k <= list@.len(),
            model == crate::text::spelled(list@),
            forall|n: Seq<char>| #[trigger]
                names@.dom().contains(n) <==> (exists|j: int|
                    0 <= j < bound.len() && (#[trigger] bound[j]).combo == Some(n)) || (exists|j: int|
                    0 <= j < k && tests_macro(#[trigger] model[j], n)),
        decreases list@.len() - k,
    {
        proof {
            assert(model[k as int] == list@[k as int]@);
        }
        note_tested(list[k].as_slice(), &mut names);
        k += 1;
    }
    let count = names.len();
    let ghost keys = names.keys();
    proof {
        assert(names@.dom() =~= combo_names(source@));
        crate::strmap::lemma_keys_listing(keys, names@);
    }
    let mut out: Vec<String> = Vec::new();
    let mut m: usize = 0;
    while m < count
        invariant
            m <= count == keys.len(),
            keys == names.keys(),
            out@.len() == m,
            forall|j: int| 0 <= j < m ==> (#[trigger] out@[j])@ == zero_default(keys[j]),
        decreases count - m,
    {
        let name = names.key_at(m);
        let mut text = String::new();
        push_text(&mut text, "#ifndef ");
        push_text(&mut text, name.as_str());
        push_text(&mut text, "\n#define ");
        push_text(&mut text, name.as_str());
        push_text(&mut text, " 0\n#endif");
        proof {
            assert(text@ =~= zero_default(keys[m as int]));
        }
        out.push(text);
        m += 1;
    }
    proof {
        assert(crate::text::texts(out@) =~= combo_defaults(source@));
    }
    out
}

/// Engine built-ins a bundled shader assumes exist.
///
/// The engine injects them, so a host must provide them or nothing compiles.
/// Everything here is a **macro**, in three deliberate groups:
///
/// - **HLSL names**, because the shaders are written in Wallpaper Engine's
///   HLSL-ish GLSL: `frac`, `saturate`, `lerp`, `mul`, `atan2`, `mod2`.
/// - **Type-generic forms**, so no overload can collide with the shader's own
///   definitions. The engine's own `common.h` defines `hsv2rgb`, `rgb2hsv`,
///   `rotateVec2` and `greyscale` as *functions*, and a function of the same name
///   in the prelude is a hard error on the driver, so those are not repeated here.
/// - **Sampler aliases**, since GLES3 spells it `texture`/`textureLod`.
///
/// Every definition is `#ifndef`-guarded, so a shader or header that provides its
/// own cannot conflict.
pub const PRELUDE: &'static str = r#"
#ifndef mul
#define mul(a, b) ((b) * (a))
#endif
#ifndef frac
#define frac(x) fract(x)
#endif
#ifndef saturate
#define saturate(x) clamp(x, 0.0, 1.0)
#endif
#ifndef lerp
#define lerp(a, b, t) mix(a, b, t)
#endif
#ifndef atan2
#define atan2(a, b) atan(a, b)
#endif
#ifndef mod2
#define mod2(a, b) mod(a, b)
#endif
// `CASTn` promotes to an n-vector, so it must broadcast: the corpus calls
// `CAST2(1.409)` on a scalar inside a `vec2` expression, which only compiles if
// these are overloaded constructors rather than a plain pass-through.
// Integer overloads matter as much as the float ones: the corpus calls
// `CAST2(3)`, and GLSL will not implicitly widen `int` to `float` the way HLSL
// does, so a missing overload is a hard error rather than a quiet conversion.
vec2 CAST2(int v) { return vec2(float(v)); }
vec2 CAST2(float v) { return vec2(v); }
vec2 CAST2(vec2 v) { return v; }
vec3 CAST3(int v) { return vec3(float(v)); }
vec3 CAST3(float v) { return vec3(v); }
vec3 CAST3(vec3 v) { return v; }
vec4 CAST4(int v) { return vec4(float(v)); }
vec4 CAST4(float v) { return vec4(v); }
vec4 CAST4(vec3 v) { return vec4(v, 1.0); }
vec4 CAST4(vec4 v) { return v; }
#ifndef texSample2D
#define texSample2D(s, uv) texture(s, uv)
#endif
#ifndef texSample2DLevel
#define texSample2DLevel(s, uv, l) textureLod(s, uv, l)
#endif
#ifndef texSample2DLod
#define texSample2DLod(s, uv, l) textureLod(s, uv, l)
#endif
"#;

/// The sampler uniforms the engine declares for every shader.
///
/// A shader's helper may *use* `g_Texture0` while the shader itself declares it
/// further down the file, and GLSL requires declaration before use, so the host
/// declares the whole set first. Any declaration the shader repeats is removed,
/// because a duplicate uniform is an error.
pub const TEXTURE_UNIFORMS: usize = 8;

/// The declarations of the first `n` samplers.
pub open spec fn sampler_block(n: nat) -> Seq<char>
    decreases n,
{
    if n == 0 {
        Seq::empty()
    } else {
        let i = crate::numbers::decimal_text((n - 1) as nat);
        sampler_block((n - 1) as nat) + "uniform sampler2D g_Texture"@ + i
            + ";\nuniform vec4 g_Texture"@ + i + "Resolution;\n"@
    }
}

fn texture_uniform_block() -> (out: String)
    ensures
        out@ == sampler_block(TEXTURE_UNIFORMS as nat),
{
    let mut out = String::new();
    let mut i: usize = 0;
    while i < TEXTURE_UNIFORMS
        invariant
            i <= TEXTURE_UNIFORMS,
            out@ == sampler_block(i as nat),
        decreases TEXTURE_UNIFORMS - i,
    {
        let n = decimal(i as u64);
        push_text(&mut out, "uniform sampler2D g_Texture");
        push_chars(&mut out, n.as_slice());
        push_text(&mut out, ";\nuniform vec4 g_Texture");
        push_chars(&mut out, n.as_slice());
        push_text(&mut out, "Resolution;\n");
        i += 1;
    }
    out
}

/// The name of the sampler of a slot.
pub open spec fn sampler_name(i: nat) -> Seq<char> {
    "g_Texture"@ + crate::numbers::decimal_text(i)
}

/// Whether the host declares a uniform: a sampler of the first eight slots, or the
/// resolution of one.
pub open spec fn host_declares(name: Seq<char>) -> bool {
    exists|i: nat|
        i < TEXTURE_UNIFORMS && (name == #[trigger] sampler_name(i) || name == sampler_name(i)
            + "Resolution"@)
}

/// The identifier that a text begins with.
pub open spec fn leading_name(s: Seq<char>) -> Seq<char> {
    s.take(crate::text::run_end(s, 0, Class::Word))
}

/// Whether a line declares a sampler that the host declares already.
pub open spec fn redeclares_sampler(line: Seq<char>) -> bool {
    match crate::text::without_prefix(crate::text::trimmed_start(line), "uniform "@) {
        None => false,
        Some(r) => {
            let words = crate::text::words_of(r);
            words.len() >= 2 && (words[0] == "sampler2D"@ || words[0] == "vec4"@) && host_declares(
                leading_name(words[1]),
            )
        },
    }
}

fn is_host_name(name: &[char]) -> (r: bool)
    ensures
        r == host_declares(name@),
{
    let mut i: usize = 0;
    while i < TEXTURE_UNIFORMS
        invariant
            i <= TEXTURE_UNIFORMS,
            forall|j: nat|
                j < i ==> name@ != #[trigger] sampler_name(j) && name@ != sampler_name(j)
                    + "Resolution"@,
        decreases TEXTURE_UNIFORMS - i,
    {
        let mut own = chars_of("g_Texture");
        let mut digits = decimal(i as u64);
        own.append(&mut digits);
        proof {
            assert(own@ =~= sampler_name(i as nat));
        }
        if same(name, own.as_slice()) {
            return true;
        }
        let mut word = chars_of("Resolution");
        own.append(&mut word);
        if same(name, own.as_slice()) {
            return true;
        }
        i += 1;
    }
    false
}

fn is_sampler_line(line: &[char]) -> (r: bool)
    ensures
        r == redeclares_sampler(line@),
{
    let after = match strip_prefix(trim_start(line), "uniform ") {
        Some(a) => a,
        None => return false,
    };
    let parts = words(after);
    proof {
        assert(crate::text::spelled(parts@).len() == parts@.len());
    }
    if parts.len() < 2 {
        return false;
    }
    proof {
        assert(crate::text::spelled(parts@)[0] == parts@[0]@);
        assert(crate::text::spelled(parts@)[1] == parts@[1]@);
    }
    let ty = parts[0].as_slice();
    let declared = parts[1].as_slice();
    let name = head(declared, skip_run(declared, 0, Class::Word));
    (is_text(ty, "sampler2D") || is_text(ty, "vec4")) && is_host_name(name)
}

/// Whether a line states a GLSL version.
pub open spec fn states_version(line: Seq<char>) -> bool {
    crate::text::begins_with(crate::text::trimmed_start(line), "#version"@)
}

/// The lines of a body that state no version.
pub open spec fn unversioned(list: Seq<Seq<char>>) -> Seq<Seq<char>> {
    list.filter(|line: Seq<char>| !states_version(line))
}

/// The lines of a body that declare none of the host's samplers.
pub open spec fn unsampled(list: Seq<Seq<char>>) -> Seq<Seq<char>> {
    list.filter(|line: Seq<char>| !redeclares_sampler(line))
}

/// The lines of a shader that are kept: the byte-order marks and the carriage
/// returns at line ends are gone, and so is every line that states a version or
/// declares one of the host's samplers.
pub open spec fn kept_lines(source: Seq<char>) -> Seq<Seq<char>> {
    let plain = crate::text::without_returns(crate::text::without_marks(source));
    let body = crate::text::joined(unversioned(crate::text::lines_of(plain)));
    unsampled(crate::text::lines_of(body))
}

/// What a fragment stage declares before everything else.
pub open spec fn stage_header(stage: Stage) -> Seq<char> {
    if stage == Stage::Fragment {
        "precision highp float;\nprecision highp int;\n"@
            + "layout(location = 0) out vec4 wp_FragColor;\n"@
            + "#define gl_FragColor wp_FragColor\n"@
    } else {
        Seq::empty()
    }
}

/// The defines of a list, each on its line.
pub open spec fn define_lines(defines: Seq<Seq<char>>) -> Seq<char>
    decreases defines.len(),
{
    if defines.len() == 0 {
        Seq::empty()
    } else {
        define_lines(defines.drop_last()) + "#define "@ + defines.last().push('\n')
    }
}

/// The texts of a list, each ended by a line feed.
pub open spec fn text_lines(list: Seq<Seq<char>>) -> Seq<char>
    decreases list.len(),
{
    if list.len() == 0 {
        Seq::empty()
    } else {
        text_lines(list.drop_last()) + list.last().push('\n')
    }
}

/// The source of a stage: the version, the stage's header, the prelude, the
/// samplers, the combo defaults, the given defines, and the body.
pub open spec fn assembled(source: Seq<char>, stage: Stage, defines: Seq<Seq<char>>) -> Seq<char> {
    let body = crate::text::joined(kept_lines(source));
    "#version 300 es\n"@ + stage_header(stage) + PRELUDE@.push('\n') + sampler_block(
        TEXTURE_UNIFORMS as nat,
    ) + text_lines(combo_defaults(body)) + define_lines(defines).push('\n') + body.push('\n')
}

proof fn lemma_filter_step(list: Seq<Seq<char>>, i: int, keep: spec_fn(Seq<char>) -> bool)
    requires
        0 <= i < list.len(),
    ensures
        list.take(i + 1).filter(keep) == (if keep(list[i]) {
            list.take(i).filter(keep).push(list[i])
        } else {
            list.take(i).filter(keep)
        }),
{
    reveal(Seq::filter);
    assert(list.take(i + 1).drop_last() =~= list.take(i));
}

fn drop_versions(list: &Vec<Vec<char>>) -> (r: Vec<Vec<char>>)
    ensures
        crate::text::spelled(r@) == unversioned(crate::text::spelled(list@)),
{
    let ghost all = crate::text::spelled(list@);
    let ghost keep = |line: Seq<char>| !states_version(line);
    let mut out: Vec<Vec<char>> = Vec::new();
    let mut i: usize = 0;
    proof {
        reveal(Seq::filter);
        assert(all.take(0) =~= Seq::<Seq<char>>::empty());
        assert(crate::text::spelled(out@) =~= all.take(0).filter(keep));
    }
    while i < list.len()
        invariant
            i <= list@.len(),
            all == crate::text::spelled(list@),
            keep == (|line: Seq<char>| !states_version(line)),
            crate::text::spelled(out@) == all.take(i as int).filter(keep),
        decreases list@.len() - i,
    {
        let line = list[i].as_slice();
        let ghost was = crate::text::spelled(out@);
        proof {
            assert(all[i as int] == line@);
            lemma_filter_step(all, i as int, keep);
        }
        if !starts_with(trim_start(line), "#version") {
            out.push(copy_chars(line));
            proof {
                assert(crate::text::spelled(out@) =~= was.push(line@));
            }
        }
        i += 1;
    }
    proof {
        assert(all.take(all.len() as int) =~= all);
    }
    out
}

/// Drop the shader's own declarations of the injected samplers.
///
/// Matching on the declaration line is safe here: the injected set has one fixed
/// type per name, so a removed line and the header's version are equivalent.
fn drop_samplers(list: &Vec<Vec<char>>) -> (r: Vec<Vec<char>>)
    ensures
        crate::text::spelled(r@) == unsampled(crate::text::spelled(list@)),
{
    let ghost all = crate::text::spelled(list@);
    let ghost keep = |line: Seq<char>| !redeclares_sampler(line);
    let mut out: Vec<Vec<char>> = Vec::new();
    let mut i: usize = 0;
    proof {
        reveal(Seq::filter);
        assert(all.take(0) =~= Seq::<Seq<char>>::empty());
        assert(crate::text::spelled(out@) =~= all.take(0).filter(keep));
    }
    while i < list.len()
        invariant
            i <= list@.len(),
            all == crate::text::spelled(list@),
            keep == (|line: Seq<char>| !redeclares_sampler(line)),
            crate::text::spelled(out@) == all.take(i as int).filter(keep),
        decreases list@.len() - i,
    {
        let line = list[i].as_slice();
        let ghost was = crate::text::spelled(out@);
        proof {
            assert(all[i as int] == line@);
            lemma_filter_step(all, i as int, keep);
        }
        if !is_sampler_line(line) {
            out.push(copy_chars(line));
            proof {
                assert(crate::text::spelled(out@) =~= was.push(line@));
            }
        }
        i += 1;
    }
    proof {
        assert(all.take(all.len() as int) =~= all);
    }
    out
}

/// The body of a shader without the host's samplers.
pub fn strip_texture_uniforms(body: &[char]) -> (r: Vec<char>)
    ensures
        r@ == crate::text::joined(unsampled(crate::text::lines_of(body@))),
{
    join(&drop_samplers(&lines(body)))
}

/// Build the final, compilable source for one stage.
///
/// The pieces go in the only order GLSL accepts and in the order the engine's
/// own files assume:
///
/// 1. `#version` — first line, once. Any the shader states is dropped, because a
///    `#version` anywhere but the top is itself a compile error.
/// 2. Precision and the fragment output. The shaders write `gl_FragColor`, which
///    is not GLES 3, so it is aliased to a declared `out`.
/// 3. The prelude macros and this stage's combo defaults.
/// 4. The body, with the headers it asks for already in it.
///
/// WE files start with a BOM and use CRLF; both are normalised away, since a
/// stray `\r` inside a `#define` is a genuinely confusing error.
pub fn assemble(source: &str, stage: Stage, defines: &[String]) -> (out: String)
    ensures
        out@ == assembled(source@, stage, crate::text::texts(defines@)),
{
    let all = chars_of(source);
    let plain = drop_returns(drop_marks(all.as_slice()));
    let unversioned_body = join(&drop_versions(&lines(plain.as_slice())));
    let body = strip_texture_uniforms(unversioned_body.as_slice());
    let mut out = String::new();
    push_text(&mut out, "#version 300 es\n");
    if stage == Stage::Fragment {
        push_text(&mut out, "precision highp float;\nprecision highp int;\n");
        push_text(&mut out, "layout(location = 0) out vec4 wp_FragColor;\n");
        push_text(&mut out, "#define gl_FragColor wp_FragColor\n");
    }
    let ghost part1 = "#version 300 es\n"@ + stage_header(stage);
    proof {
        assert(out@ =~= part1);
    }
    push_text(&mut out, PRELUDE);
    out.push('\n');
    // Both stages: a vertex shader's header may sample just as a fragment
    // shader's does (`blend.vert` reads `g_Texture1Resolution`).
    let block = texture_uniform_block();
    push_text(&mut out, block.as_str());
    let ghost part2 = part1 + PRELUDE@.push('\n') + sampler_block(TEXTURE_UNIFORMS as nat);
    proof {
        assert(out@ =~= part2);
    }
    let body_text = string_of(body.as_slice());
    let combos = combo_defines(body_text.as_str());
    let ghost combo_texts = combo_defaults(body@);
    let mut i: usize = 0;
    proof {
        assert(crate::text::texts(combos@).len() == combos@.len());
        assert(combo_texts.take(0) =~= Seq::<Seq<char>>::empty());
        assert(out@ =~= part2 + text_lines(combo_texts.take(0)));
    }
    while i < combos.len()
        invariant
            i <= combos@.len(),
            combo_texts == crate::text::texts(combos@),
            out@ == part2 + text_lines(combo_texts.take(i as int)),
        decreases combos@.len() - i,
    {
        push_text(&mut out, combos[i].as_str());
        out.push('\n');
        proof {
            assert(combo_texts[i as int] == combos@[i as int]@);
            assert(combo_texts.take(i + 1).drop_last() =~= combo_texts.take(i as int));
            assert(out@ =~= part2 + text_lines(combo_texts.take(i + 1)));
        }
        i += 1;
    }
    let ghost part3 = part2 + text_lines(combo_texts);
    let ghost given = crate::text::texts(defines@);
    let mut k: usize = 0;
    proof {
        assert(combo_texts.take(combo_texts.len() as int) =~= combo_texts);
        assert(given.take(0) =~= Seq::<Seq<char>>::empty());
        assert(out@ =~= part3 + define_lines(given.take(0)));
    }
    while k < defines.len()
        invariant
            k <= defines@.len(),
            given == crate::text::texts(defines@),
            out@ == part3 + define_lines(given.take(k as int)),
        decreases defines@.len() - k,
    {
        push_text(&mut out, "#define ");
        push_text(&mut out, defines[k].as_str());
        out.push('\n');
        proof {
            assert(given[k as int] == defines@[k as int]@);
            assert(given.take(k + 1).drop_last() =~= given.take(k as int));
            assert(out@ =~= part3 + define_lines(given.take(k + 1)));
        }
        k += 1;
    }
    out.push('\n');
    push_chars(&mut out, body.as_slice());
    out.push('\n');
    proof {
        assert(given.take(given.len() as int) =~= given);
        assert(out@ =~= part3 + define_lines(given).push('\n') + body@.push('\n'));
    }
    out
}

/// The shader stage a filename denotes.
pub fn stage_of(path: &str) -> (r: Stage)
    ensures
        r == (if crate::text::finishes_with(path@, ".vert"@) {
            Stage::Vertex
        } else {
            Stage::Fragment
        }),
{
    let p = chars_of(path);
    if ends_with(p.as_slice(), ".vert") {
        Stage::Vertex
    } else {
        Stage::Fragment
    }
}

/// One resolved shader pass: the source plus everything needed to bind it.
#[derive(Debug)]
pub struct ShaderPass {
    /// Fragment (or vertex) shader source, headers brought in, prelude prepended.
    pub source: String,
    /// `"normal"`, `"additive"`, `"translucent"`, … as the material states it.
    pub blending: String,
    pub depth_test: bool,
    pub cull: bool,
    /// Texture slots in order; `g_Texture0` is slot 0. `None` is an empty slot,
    /// i.e. the pass samples whatever was rendered before it.
    pub textures: Vec<Option<String>>,
    /// Constant values the material itself sets, before the scene overrides them.
    pub constants: StrMap<Json>,
    /// Whether this is a vertex or fragment stage.
    pub stage: Stage,
}

/// One pass of a material, as the material JSON states it.
#[derive(Debug)]
pub struct MaterialPass {
    pub shader: String,
    pub blending: String,
    pub depth_test: bool,
    pub cull: bool,
    pub textures: Vec<Option<String>>,
    pub constants: StrMap<Json>,
}

/// What a pass of a material stands for.
#[verifier::ext_equal]
pub ghost struct PassModel {
    pub shader: Seq<char>,
    pub blending: Seq<char>,
    pub depth_test: bool,
    pub cull: bool,
    pub textures: Seq<Option<Seq<char>>>,
    pub constants: Map<Seq<char>, JsonTree>,
}

/// The documents that a map holds.
pub open spec fn trees(m: Map<Seq<char>, Json>) -> Map<Seq<char>, JsonTree> {
    Map::new(|k: Seq<char>| m.dom().contains(k), |k: Seq<char>| m[k]@)
}

impl View for MaterialPass {
    type V = PassModel;

    open spec fn view(&self) -> PassModel {
        PassModel {
            shader: self.shader@,
            blending: self.blending@,
            depth_test: self.depth_test,
            cull: self.cull,
            textures: Seq::new(
                self.textures@.len(),
                |i: int| crate::text::opt_text(self.textures@[i]),
            ),
            constants: trees(self.constants@),
        }
    }
}

/// The items of the list under a key; none where there is no list.
pub open spec fn list_field(t: JsonTree, key: Seq<char>) -> Seq<JsonTree> {
    match crate::json::field(t, key) {
        Some(JsonTree::List(l)) => l,
        _ => Seq::empty(),
    }
}

/// The entries of the table under a key; none where there is no table.
pub open spec fn table_field(t: JsonTree, key: Seq<char>) -> Map<Seq<char>, JsonTree> {
    match crate::json::field(t, key) {
        Some(JsonTree::Table(m)) => m,
        _ => Map::empty(),
    }
}

/// The text under a key, or another.
pub open spec fn text_or(t: JsonTree, key: Seq<char>, other: Seq<char>) -> Seq<char> {
    match crate::json::text_field(t, key) {
        Some(s) => s,
        None => other,
    }
}

/// What an entry of a material's `passes` says.
pub open spec fn pass_model(p: JsonTree) -> PassModel {
    PassModel {
        shader: text_or(p, "shader"@, Seq::empty()),
        blending: text_or(p, "blending"@, "normal"@),
        depth_test: crate::json::text_field(p, "depthtest"@) != Some("disabled"@),
        cull: crate::json::text_field(p, "cullmode"@) != Some("nocull"@),
        textures: Seq::new(
            list_field(p, "textures"@).len(),
            |i: int| crate::json::text_in(list_field(p, "textures"@)[i]),
        ),
        constants: table_field(p, "constantshadervalues"@),
    }
}

/// The passes of a material.
pub open spec fn passes_in(t: JsonTree) -> Seq<PassModel> {
    Seq::new(list_field(t, "passes"@).len(), |i: int| pass_model(list_field(t, "passes"@)[i]))
}

/// What the passes of a list stand for.
pub open spec fn pass_views(v: Seq<MaterialPass>) -> Seq<PassModel> {
    Seq::new(v.len(), |i: int| v[i]@)
}

/// Whether the text under a key is another one.
fn text_is(j: &Json, key: &str, text: &str) -> (r: bool)
    ensures
        r == (crate::json::text_field(j@, key@) == Some(text@)),
{
    match j.text_at(key) {
        Some(s) => crate::text::same_text(s.as_str(), text),
        None => false,
    }
}

fn pass_of(p: &Json) -> (r: MaterialPass)
    ensures
        r@ == pass_model(p@),
{
    let shader = match p.text_at("shader") {
        Some(s) => s.clone(),
        None => String::new(),
    };
    let blending = match p.text_at("blending") {
        Some(s) => s.clone(),
        None => "normal".to_string(),
    };
    let mut textures: Vec<Option<String>> = Vec::new();
    let ghost slots = list_field(p@, "textures"@);
    if let Some(Json::List(a)) = p.get("textures") {
        let mut i: usize = 0;
        proof {
            assert(slots.len() == a@.len());
        }
        while i < a.len()
            invariant
                i <= a@.len(),
                slots.len() == a@.len(),
                forall|j: int| 0 <= j < a@.len() ==> #[trigger] slots[j] == a@[j]@,
                textures@.len() == i,
                forall|j: int|
                    0 <= j < i ==> crate::text::opt_text(#[trigger] textures@[j])
                        == crate::json::text_in(slots[j]),
            decreases a@.len() - i,
        {
            textures.push(opt_copy(a[i].as_str()));
            i += 1;
        }
    }
    let ghost values = table_field(p@, "constantshadervalues"@);
    let mut constants: StrMap<Json> = StrMap::new();
    if let Some(Json::Table(m)) = p.get("constantshadervalues") {
        constants = m.clone();
        proof {
            assert forall|k: Seq<char>| #[trigger] constants@.dom().contains(k) implies constants@[k]@
                == m@[k]@ by {
                assert(cloned::<Json>(m@[k], constants@[k]));
            }
            assert(trees(constants@) =~= values);
        }
    } else {
        proof {
            assert(trees(constants@) =~= values);
        }
    }
    let r = MaterialPass {
        shader,
        blending,
        depth_test: !text_is(p, "depthtest", "disabled"),
        cull: !text_is(p, "cullmode", "nocull"),
        textures,
        constants,
    };
    proof {
        assert(r@.textures =~= pass_model(p@).textures);
    }
    r
}

/// The passes of a material document.
pub fn material_passes(v: &Json) -> (r: Vec<MaterialPass>)
    ensures
        pass_views(r@) == passes_in(v@),
{
    let mut out: Vec<MaterialPass> = Vec::new();
    let ghost list = list_field(v@, "passes"@);
    if let Some(Json::List(a)) = v.get("passes") {
        let mut i: usize = 0;
        proof {
            assert(list.len() == a@.len());
        }
        while i < a.len()
            invariant
                i <= a@.len(),
                list.len() == a@.len(),
                forall|j: int| 0 <= j < a@.len() ==> #[trigger] list[j] == a@[j]@,
                out@.len() == i,
                forall|j: int| 0 <= j < i ==> (#[trigger] out@[j])@ == pass_model(list[j]),
            decreases a@.len() - i,
        {
            out.push(pass_of(&a[i]));
            i += 1;
        }
    }
    proof {
        assert(pass_views(out@) =~= passes_in(v@));
    }
    out
}

/// Why a document could not be read.
#[derive(Debug, Clone, Copy, PartialEq, Eq, Structural)]
pub enum JsonError {
    /// The text is not JSON.
    NotJson,
}

/// Parse a material JSON into its passes.
pub fn parse_material(json: &str) -> (r: Result<Vec<MaterialPass>, JsonError>)
    ensures
        match crate::json::json_read(crate::text::without_mark(json@)) {
            Some(t) => r matches Ok(v) && pass_views(v@) == passes_in(t),
            None => r == Err::<Vec<MaterialPass>, JsonError>(JsonError::NotJson),
        },
{
    let all = chars_of(json);
    let text = string_of(drop_mark(all.as_slice()));
    match parse_json(text.as_str()) {
        Some(v) => Ok(material_passes(&v)),
        None => Err(JsonError::NotJson),
    }
}

/// The version is the first line, and no line of the body states one.
pub proof fn law_version_is_stated_once(source: Seq<char>, stage: Stage, defines: Seq<Seq<char>>)
    ensures
        crate::text::begins_with(assembled(source, stage, defines), "#version 300 es\n"@),
        crate::text::finishes_with(
            assembled(source, stage, defines),
            crate::text::joined(kept_lines(source)).push('\n'),
        ),
        forall|i: int| 0 <= i < kept_lines(source).len() ==> !states_version(
            #[trigger] kept_lines(source)[i],
        ),
{
    let all = assembled(source, stage, defines);
    let version = "#version 300 es\n"@;
    let body = crate::text::joined(kept_lines(source)).push('\n');
    assert(all.subrange(0, version.len() as int) =~= version);
    assert(all.subrange(all.len() - body.len(), all.len() as int) =~= body);
    let plain = crate::text::without_returns(crate::text::without_marks(source));
    let first = crate::text::lines_of(plain);
    let list = unversioned(first);
    let keep = |line: Seq<char>| !states_version(line);
    lemma_filtered(first, keep);
    crate::text::lemma_lines_are_lines(plain);
    assert forall|j: int| 0 <= j < list.len() implies crate::text::one_line(#[trigger] list[j]) by {
        assert(first.contains(list[j]));
    }
    let second = crate::text::lines_of(crate::text::joined(list));
    lemma_filtered(second, |line: Seq<char>| !redeclares_sampler(line));
    reveal_strlit("#version");
    assert forall|i: int| 0 <= i < kept_lines(source).len() implies !states_version(
        #[trigger] kept_lines(source)[i],
    ) by {
        let line = kept_lines(source)[i];
        assert(second.contains(line));
        let k = choose|k: int| 0 <= k < second.len() && second[k] == line;
        crate::text::lemma_lines_of_joined(list, k);
        let j = choose|j: int|
            0 <= j < list.len() && (second[k] == #[trigger] list[j] || second[k]
                == crate::text::without_return(list[j]));
        assert(keep(list[j]));
        if states_version(line) && line != list[j] {
            crate::text::lemma_begins_without_return(list[j], "#version"@);
        }
    }
}

/// What a filter keeps was there and passes the filter.
proof fn lemma_filtered(list: Seq<Seq<char>>, keep: spec_fn(Seq<char>) -> bool)
    ensures
        forall|i: int|
            0 <= i < list.filter(keep).len() ==> keep(#[trigger] list.filter(keep)[i])
                && list.contains(list.filter(keep)[i]),
    decreases list.len(),
{
    reveal(Seq::filter);
    if list.len() > 0 {
        let shorter = list.drop_last();
        lemma_filtered(shorter, keep);
        assert forall|i: int| 0 <= i < list.filter(keep).len() implies keep(
            #[trigger] list.filter(keep)[i],
        ) && list.contains(list.filter(keep)[i]) by {
            let x = list.filter(keep)[i];
            if i < shorter.filter(keep).len() {
                assert(x == shorter.filter(keep)[i]);
                assert(shorter.contains(x));
                let j = choose|j: int| 0 <= j < shorter.len() && shorter[j] == x;
                assert(list[j] == x);
            } else {
                assert(x == list.last());
                assert(list[list.len() - 1] == x);
            }
        }
    }
}

/// No line of the body declares a sampler that the host declares.
pub proof fn law_samplers_are_declared_once(source: Seq<char>)
    ensures
        forall|i: int| 0 <= i < kept_lines(source).len() ==> !redeclares_sampler(
            #[trigger] kept_lines(source)[i],
        ),
{
    let plain = crate::text::without_returns(crate::text::without_marks(source));
    let body = crate::text::joined(unversioned(crate::text::lines_of(plain)));
    let list = crate::text::lines_of(body);
    let keep = |line: Seq<char>| !redeclares_sampler(line);
    lemma_filtered(list, keep);
    assert(kept_lines(source) == list.filter(keep));
}

/// What is dropped from the body is declared in the header: a name that the host
/// declares stands there with its type.
pub proof fn law_dropped_samplers_are_in_the_header(name: Seq<char>)
    requires
        host_declares(name),
    ensures
        crate::text::contains(
            sampler_block(TEXTURE_UNIFORMS as nat),
            "uniform sampler2D "@ + name + ";\n"@,
        ) || crate::text::contains(
            sampler_block(TEXTURE_UNIFORMS as nat),
            "uniform vec4 "@ + name + ";\n"@,
        ),
{
    let i = choose|i: nat|
        i < TEXTURE_UNIFORMS && (name == #[trigger] sampler_name(i) || name == sampler_name(i)
            + "Resolution"@);
    let n = crate::numbers::decimal_text(i);
    lemma_block_holds(TEXTURE_UNIFORMS as nat, i);
    let block = sampler_block(TEXTURE_UNIFORMS as nat);
    let (before, after) = choose|before: Seq<char>, after: Seq<char>|
        block == #[trigger] (before + slot_lines(i) + after);
    reveal_strlit("uniform sampler2D g_Texture");
    reveal_strlit("uniform sampler2D ");
    reveal_strlit(";\nuniform vec4 g_Texture");
    reveal_strlit("uniform vec4 ");
    reveal_strlit("g_Texture");
    reveal_strlit(";\n");
    reveal_strlit("Resolution");
    reveal_strlit("Resolution;\n");
    if name == sampler_name(i) {
        let line = "uniform sampler2D "@ + name + ";\n"@;
        let at = before.len() as int;
        assert(block.subrange(at, at + line.len()) =~= line);
        crate::text::lemma_find_from(block, line, 0);
        assert(crate::text::occurs_at(block, line, at));
    } else {
        let line = "uniform vec4 "@ + name + ";\n"@;
        let at = (before.len() + 27 + n.len() + 2) as int;
        assert(block.subrange(at, at + line.len()) =~= line);
        crate::text::lemma_find_from(block, line, 0);
        assert(crate::text::occurs_at(block, line, at));
    }
}

/// The declarations of a slot.
pub open spec fn slot_lines(i: nat) -> Seq<char> {
    let n = crate::numbers::decimal_text(i);
    "uniform sampler2D g_Texture"@ + n + ";\nuniform vec4 g_Texture"@ + n + "Resolution;\n"@
}

proof fn lemma_block_holds(n: nat, i: nat)
    requires
        i < n,
    ensures
        exists|before: Seq<char>, after: Seq<char>|
            sampler_block(n) == #[trigger] (before + slot_lines(i) + after),
    decreases n,
{
    let m = (n - 1) as nat;
    let none = Seq::<char>::empty();
    assert(sampler_block(n) =~= sampler_block(m) + slot_lines(m));
    if i == m {
        assert(sampler_block(n) =~= sampler_block(m) + slot_lines(i) + none);
    } else {
        lemma_block_holds(m, i);
        let (before, after) = choose|before: Seq<char>, after: Seq<char>|
            sampler_block(m) == #[trigger] (before + slot_lines(i) + after);
        assert(sampler_block(n) =~= before + slot_lines(i) + (after + slot_lines(m)));
    }
}

/// A text with a carriage return before each of its line feeds.
pub open spec fn with_returns(s: Seq<char>) -> Seq<char>
    decreases s.len(),
{
    if s.len() == 0 {
        Seq::empty()
    } else if s[0] == '\n' {
        seq!['\r', '\n'] + with_returns(s.skip(1))
    } else {
        seq![s[0]] + with_returns(s.skip(1))
    }
}

/// A byte-order mark and carriage returns do not change what a shader becomes.
pub proof fn law_marks_and_returns_do_not_matter(
    source: Seq<char>,
    stage: Stage,
    defines: Seq<Seq<char>>,
)
    requires
        !source.contains('\r'),
        source.len() > 0 ==> source[0] != '\u{feff}',
    ensures
        assembled(seq!['\u{feff}'] + with_returns(source), stage, defines) == assembled(
            source,
            stage,
            defines,
        ),
{
    let written = with_returns(source);
    let marked = seq!['\u{feff}'] + written;
    lemma_returns_undone(source);
    assert(marked.skip(1) =~= written);
    assert(crate::text::without_marks(written) == written);
    assert(crate::text::without_marks(marked) == written);
}

proof fn lemma_returns_undone(s: Seq<char>)
    requires
        !s.contains('\r'),
    ensures
        crate::text::without_returns(with_returns(s)) == s,
        crate::text::without_returns(s) == s,
    decreases s.len(),
{
    if s.len() > 0 {
        let t = s.skip(1);
        assert forall|c: char| t.contains(c) implies s.contains(c) by {
            let k = choose|k: int| 0 <= k < t.len() && t[k] == c;
            assert(s[k + 1] == c);
        }
        lemma_returns_undone(t);
        assert(s.contains(s[0]));
        let w = with_returns(s);
        let later = with_returns(t);
        assert(seq![s[0]] + t =~= s);
        if s[0] == '\n' {
            assert(w.skip(2) =~= later);
        } else {
            assert(w.skip(1) =~= later);
        }
    } else {
        assert(s =~= Seq::<char>::empty());
    }
}

/// Whether a table has that entry under a key.
pub open spec fn says(m: Map<Seq<char>, JsonTree>, key: Seq<char>, value: JsonTree) -> bool {
    m.dom().contains(key) && m[key] == value
}

/// Whether a table has no text under a key.
pub open spec fn says_no_text(m: Map<Seq<char>, JsonTree>, key: Seq<char>) -> bool {
    !m.dom().contains(key) || !(m[key] is Text)
}

/// A pass is what its table says, each part under its own key: the shader, the blending,
/// the texture of each slot, and the constants. Depth is tested unless that is disabled,
/// and what faces away is culled unless that is switched off.
pub proof fn law_a_pass_is_what_its_table_says(
    m: Map<Seq<char>, JsonTree>,
    s: Seq<char>,
    l: Seq<JsonTree>,
    t: Map<Seq<char>, JsonTree>,
    i: int,
)
    ensures
        ({
            let p = pass_model(JsonTree::Table(m));
            &&& says(m, "shader"@, JsonTree::Text(s)) ==> p.shader == s
            &&& says_no_text(m, "shader"@) ==> p.shader == Seq::<char>::empty()
            &&& says(m, "blending"@, JsonTree::Text(s)) ==> p.blending == s
            &&& says_no_text(m, "blending"@) ==> p.blending == "normal"@
            &&& !p.depth_test <==> says(m, "depthtest"@, JsonTree::Text("disabled"@))
            &&& !p.cull <==> says(m, "cullmode"@, JsonTree::Text("nocull"@))
            &&& says(m, "textures"@, JsonTree::List(l)) ==> p.textures.len() == l.len() && (0 <= i
                < l.len() ==> p.textures[i] == match l[i] {
                JsonTree::Text(name) => Some(name),
                _ => None,
            })
            &&& !m.dom().contains("textures"@) ==> p.textures.len() == 0
            &&& says(m, "constantshadervalues"@, JsonTree::Table(t)) ==> p.constants == t
            &&& !m.dom().contains("constantshadervalues"@) ==> p.constants == Map::<
                Seq<char>,
                JsonTree,
            >::empty()
        }),
{
}

/// A material has as many passes as its list, in the list's order, each what its own
/// table says; two passes that differ in their blending alone are read as two.
pub proof fn law_a_materials_passes_are_its_list(
    m: Map<Seq<char>, JsonTree>,
    l: Seq<JsonTree>,
    i: int,
    p: Map<Seq<char>, JsonTree>,
    a: Seq<char>,
    b: Seq<char>,
)
    requires
        a != b,
    ensures
        says(m, "passes"@, JsonTree::List(l)) ==> passes_in(JsonTree::Table(m)).len() == l.len() && (
        0 <= i < l.len() ==> passes_in(JsonTree::Table(m))[i] == pass_model(l[i])),
        !m.dom().contains("passes"@) ==> passes_in(JsonTree::Table(m)).len() == 0,
        pass_model(JsonTree::Table(p.insert("blending"@, JsonTree::Text(a)))) != pass_model(
            JsonTree::Table(p.insert("blending"@, JsonTree::Text(b))),
        ),
{
    let x = p.insert("blending"@, JsonTree::Text(a));
    let y = p.insert("blending"@, JsonTree::Text(b));
    law_a_pass_is_what_its_table_says(x, a, l, p, 0);
    law_a_pass_is_what_its_table_says(y, b, l, p, 0);
}

/// A uniform's binding has the declared type and name, and from its comment what stands
/// there under `material`, `default`, `combo` and `hidden`.
pub proof fn law_a_binding_is_what_its_comment_says(
    ty: Seq<char>,
    name: Seq<char>,
    m: Map<Seq<char>, JsonTree>,
    s: Seq<char>,
    v: JsonTree,
)
    ensures
        ({
            let b = binding_model(ty, name, Some(JsonTree::Table(m)));
            &&& b.ty == ty && b.name == name
            &&& says(m, "material"@, JsonTree::Text(s)) ==> b.material == Some(s)
            &&& says_no_text(m, "material"@) ==> b.material is None
            &&& says(m, "default"@, v) ==> b.default == Some(v)
            &&& !m.dom().contains("default"@) ==> b.default is None
            &&& says(m, "combo"@, JsonTree::Text(s)) ==> b.combo == Some(s)
            &&& says_no_text(m, "combo"@) ==> b.combo is None
            &&& b.hidden <==> says(m, "hidden"@, JsonTree::Bool(true))
        }),
        binding_model(ty, name, None) == (BindingModel {
            name,
            ty,
            material: None,
            default: None,
            combo: None,
            hidden: false,
        }),
{
}

/// Whether a text is a word: not empty, and without white space.
pub open spec fn is_word(s: Seq<char>) -> bool {
    s.len() > 0 && forall|i: int| 0 <= i < s.len() ==> !crate::text::white_space(#[trigger] s[i])
}

/// Whether a text is nothing but white space.
pub open spec fn is_space(s: Seq<char>) -> bool {
    forall|i: int| 0 <= i < s.len() ==> crate::text::white_space(#[trigger] s[i])
}

/// Whether a character stands nowhere in a text.
pub open spec fn lacks(s: Seq<char>, c: char) -> bool {
    forall|i: int| 0 <= i < s.len() ==> #[trigger] s[i] != c
}

/// A uniform is declared by its type and its name; behind the semicolon its comment is
/// what stands in braces.
pub proof fn law_uniforms_are_read_back(
    lead: Seq<char>,
    ty: Seq<char>,
    gap: Seq<char>,
    name: Seq<char>,
    between: Seq<char>,
    inner: Seq<char>,
    after: Seq<char>,
)
    requires
        is_space(lead),
        is_word(ty) && lacks(ty, ';'),
        gap.len() > 0 && is_space(gap),
        is_word(name) && lacks(name, ';'),
        lacks(between, '{'),
        lacks(after, '}'),
    ensures
        declaration_of(
            lead + "uniform "@ + ty + gap + name + seq![';'] + between + (seq!['{'] + inner
                + seq!['}']) + after,
        ) == Some(
            Declaration { ty, name, comment: Some(seq!['{'] + inner + seq!['}']) },
        ),
        declaration_of(lead + "uniform "@ + ty + gap + name + seq![';'] + between) == Some(
            Declaration { ty, name, comment: None },
        ),
{
    let document = seq!['{'] + inner + seq!['}'];
    lemma_declaration(lead, ty, gap, name, between + document + after);
    lemma_declaration(lead, ty, gap, name, between);
    assert(lead + "uniform "@ + ty + gap + name + seq![';'] + between + document + after =~= lead
        + "uniform "@ + ty + gap + name + seq![';'] + (between + document + after));
    let tail = seq![';'] + (between + document + after);
    let open = seq![';'] + between;
    assert(open =~= seq![';'] + between);
    crate::text::law_characters_are_found(open, '{', inner + seq!['}'] + after, open);
    assert(open + seq!['{'] + (inner + seq!['}'] + after) =~= tail);
    let rest = tail.skip(open.len() as int);
    assert(rest =~= document + after);
    lemma_last_brace(seq!['{'] + inner, after);
    assert(seq!['{'] + inner + seq!['}'] + after =~= rest);
    assert(rest.take(inner.len() as int + 2) =~= document);
    let bare = seq![';'] + between;
    crate::text::law_characters_are_found(bare, '{', Seq::empty(), bare);
}

proof fn lemma_last_brace(a: Seq<char>, after: Seq<char>)
    requires
        lacks(after, '}'),
    ensures
        crate::text::last_index(a + seq!['}'] + after, '}') == Some(a.len() as int),
    decreases after.len(),
{
    let s = a + seq!['}'] + after;
    if after.len() > 0 {
        assert(s.last() == after[after.len() - 1]);
        let fewer = after.drop_last();
        assert forall|i: int| 0 <= i < fewer.len() implies #[trigger] fewer[i] != '}' by {
            assert(fewer[i] == after[i]);
        }
        lemma_last_brace(a, fewer);
        assert(s.drop_last() =~= a + seq!['}'] + fewer);
    } else {
        assert(s.last() == '}');
    }
}

proof fn lemma_declaration(
    lead: Seq<char>,
    ty: Seq<char>,
    gap: Seq<char>,
    name: Seq<char>,
    tail: Seq<char>,
)
    requires
        is_space(lead),
        is_word(ty) && lacks(ty, ';'),
        gap.len() > 0 && is_space(gap),
        is_word(name) && lacks(name, ';'),
    ensures
        declaration_of(lead + "uniform "@ + ty + gap + name + seq![';'] + tail) == Some(
            Declaration { ty, name, comment: braced(seq![';'] + tail) },
        ),
{
    let head = ty + gap + name;
    let r = head + seq![';'] + tail;
    let line = lead + ("uniform "@ + r);
    lemma_declaration_head(ty, gap, name);
    lemma_behind_uniform(lead, r);
    lemma_at_semicolon(head, tail);
    assert(lead + "uniform "@ + ty + gap + name + seq![';'] + tail =~= line);
    lemma_declared(line, head, tail, ty, name);
}

proof fn lemma_behind_uniform(lead: Seq<char>, r: Seq<char>)
    requires
        is_space(lead),
    ensures
        crate::text::without_prefix(
            crate::text::trimmed_start(lead + ("uniform "@ + r)),
            "uniform "@,
        ) == Some(r),
{
    reveal_strlit("uniform ");
    let text = "uniform "@ + r;
    assert(text[0] == 'u');
    crate::text::law_leading_space_is_trimmed(lead, text);
    assert(text.subrange(0, 8) =~= "uniform "@);
    assert(text.skip(8) =~= r);
}

proof fn lemma_at_semicolon(head: Seq<char>, tail: Seq<char>)
    requires
        lacks(head, ';'),
    ensures
        ({
            let r = head + seq![';'] + tail;
            let semi = head.len() as int;
            &&& crate::text::index_from(r, ';', 0) == Some(semi)
            &&& r.take(semi) == head
            &&& r.skip(semi) == seq![';'] + tail
        }),
{
    let r = head + seq![';'] + tail;
    crate::text::law_characters_are_found(head, ';', tail, head);
    assert(r.take(head.len() as int) =~= head);
    assert(r.skip(head.len() as int) =~= seq![';'] + tail);
}

proof fn lemma_declared(
    line: Seq<char>,
    head: Seq<char>,
    tail: Seq<char>,
    ty: Seq<char>,
    name: Seq<char>,
)
    requires
        ({
            let r = head + seq![';'] + tail;
            let semi = head.len() as int;
            &&& crate::text::without_prefix(crate::text::trimmed_start(line), "uniform "@) == Some(
                r,
            )
            &&& crate::text::index_from(r, ';', 0) == Some(semi)
            &&& r.take(semi) == head
            &&& r.skip(semi) == seq![';'] + tail
        }),
        crate::text::words_of(head) == seq![ty, name],
    ensures
        declaration_of(line) == Some(
            Declaration { ty, name, comment: braced(seq![';'] + tail) },
        ),
{
}

/// A type and a name with space between them are two words, without a semicolon.
proof fn lemma_declaration_head(ty: Seq<char>, gap: Seq<char>, name: Seq<char>)
    requires
        is_word(ty) && lacks(ty, ';'),
        gap.len() > 0 && is_space(gap),
        is_word(name) && lacks(name, ';'),
    ensures
        lacks(ty + gap + name, ';'),
        crate::text::words_of(ty + gap + name) == seq![ty, name],
{
    lemma_two_words(ty, gap, name);
    let head = ty + gap + name;
    assert forall|i: int| 0 <= i < gap.len() implies #[trigger] gap[i] != ';' by {
        assert(crate::text::white_space(gap[i]));
    }
    assert forall|i: int| 0 <= i < head.len() implies #[trigger] head[i] != ';' by {
        if i < ty.len() {
            assert(head[i] == ty[i]);
        } else if i < ty.len() + gap.len() {
            assert(head[i] == gap[i - ty.len()]);
        } else {
            assert(head[i] == name[i - ty.len() - gap.len()]);
        }
    }
}

proof fn lemma_two_words(a: Seq<char>, gap: Seq<char>, b: Seq<char>)
    requires
        is_word(a),
        gap.len() > 0 && is_space(gap),
        is_word(b),
    ensures
        crate::text::words_of(a + gap + b) == seq![a, b],
{
    let none = Seq::<char>::empty();
    let z = Seq::<Seq<char>>::empty();
    let rest = gap + b;
    assert(rest[0] == gap[0]);
    assert(crate::text::white_space(gap[0]));
    assert(gap + b + none =~= rest);
    assert(none + a + rest =~= a + gap + b);
    crate::text::lemma_reads_nothing();
    crate::text::lemma_reads(gap, b, none, z);
    crate::text::lemma_reads(none, a, rest, seq![b] + z);
    assert(seq![a] + (seq![b] + z) =~= seq![a, b]);
    crate::text::lemma_words_read(a + gap + b, seq![a, b]);
}

/// The bindings of a shader are those of its lines, in order; a line that declares no
/// uniform has none.
pub proof fn law_bindings_follow_the_lines(first: Seq<char>, list: Seq<Seq<char>>)
    ensures
        declaration_of(first) is None ==> bindings_in(seq![first] + list) == bindings_in(list),
        declaration_of(first) matches Some(d) ==> bindings_in(seq![first] + list).len()
            == bindings_in(list).len() + 1 && bindings_in(seq![first] + list)[0].name == d.name
            && bindings_in(seq![first] + list)[0].ty == d.ty && bindings_in(
            seq![first] + list,
        ).skip(1) == bindings_in(list),
{
    assert((seq![first] + list).skip(1) =~= list);
    if let Some(d) = declaration_of(first) {
        let b = binding_model(d.ty, d.name, read_comment(d.comment));
        assert((seq![b] + bindings_in(list)).skip(1) =~= bindings_in(list));
    }
}

/// A line that asks for a file names it in quotation marks or in angle brackets; a line
/// that does not begin with `#include` asks for none.
pub proof fn law_includes_name_their_file(
    lead: Seq<char>,
    gap: Seq<char>,
    name: Seq<char>,
    rest: Seq<char>,
    line: Seq<char>,
)
    requires
        is_space(lead),
        is_space(gap),
        lacks(name, '"'),
        lacks(name, '>'),
        !crate::text::begins_with(crate::text::trimmed_start(line), "#include"@),
    ensures
        directive_of(lead + "#include"@ + gap + seq!['"'] + name + seq!['"'] + rest)
            == Directive::File(name),
        directive_of(lead + "#include"@ + gap + seq!['<'] + name + seq!['>'] + rest)
            == Directive::File(name),
        directive_of(line) == Directive::Plain,
{
    lemma_include(lead, gap, '"', name, '"', rest);
    lemma_include(lead, gap, '<', name, '>', rest);
}

proof fn lemma_include(
    lead: Seq<char>,
    gap: Seq<char>,
    open: char,
    name: Seq<char>,
    close: char,
    rest: Seq<char>,
)
    requires
        is_space(lead),
        is_space(gap),
        (open == '"' && close == '"') || (open == '<' && close == '>'),
        lacks(name, close),
    ensures
        directive_of(lead + "#include"@ + gap + seq![open] + name + seq![close] + rest)
            == Directive::File(name),
{
    reveal_strlit("#include");
    let asked = seq![open] + name + seq![close] + rest;
    let text = "#include"@ + gap + asked;
    let line = lead + "#include"@ + gap + seq![open] + name + seq![close] + rest;
    assert(line =~= lead + text);
    crate::text::law_leading_space_is_trimmed(lead, text);
    assert(text.subrange(0, 8) =~= "#include"@);
    assert(text.skip(8) =~= gap + asked);
    assert(asked[0] == open);
    crate::text::law_leading_space_is_trimmed(gap, asked);
    assert(delimiter_from(asked, 0) == Some(0int));
    let n = name.len() as int;
    lemma_index_behind(asked, close, 1, 1 + n, name);
    assert(asked.subrange(1, 1 + n) =~= name);
}

proof fn lemma_index_behind(s: Seq<char>, c: char, i: int, k: int, name: Seq<char>)
    requires
        1 <= i <= k == 1 + name.len() < s.len(),
        s[k] == c,
        lacks(name, c),
        forall|j: int| 1 <= j < k ==> #[trigger] s[j] == name[j - 1],
    ensures
        crate::text::index_from(s, c, i) == Some(k),
    decreases k - i,
{
    if i < k {
        assert(s[i] == name[i - 1]);
        lemma_index_behind(s, c, i + 1, k, name);
    }
}

/// A line that asks for a file gives way to the lines of the file and an empty line; the
/// lines behind it follow.
pub proof fn law_an_include_gives_way_to_its_file(
    line: Seq<char>,
    list: Seq<Seq<char>>,
    files: spec_fn(Seq<char>) -> Option<Seq<char>>,
    seen: Set<Seq<char>>,
    depth: nat,
    name: Seq<char>,
    body: Seq<char>,
)
    requires
        directive_of(line) == Directive::File(name),
        name.len() > 0,
        !seen.contains(name),
        files(name) == Some(body),
        depth < 16,
        forall|k: int|
            0 <= k < crate::text::lines_of(body).len() ==> directive_of(
                #[trigger] crate::text::lines_of(body)[k],
            ) == Directive::Plain,
    ensures
        expansion(list, files, seen.insert(name), depth).text matches Ok(t) ==> expansion(
            seq![line] + list,
            files,
            seen,
            depth,
        ).text == Ok::<Seq<char>, ExpansionFault>(
            ended_lines(crate::text::lines_of(body)) + seq!['\n'] + t,
        ),
{
    let inner = crate::text::lines_of(body);
    law_plain_lines_are_kept(inner, files, seen.insert(name), depth + 1);
    let all = seq![line] + list;
    assert(all.skip(1) =~= list);
    assert(all[0] == line);
    let text = ended_lines(inner);
    if let Ok(t) = expansion(list, files, seen.insert(name), depth).text {
        assert(text.push('\n') + t =~= text + seq!['\n'] + t);
    }
}

/// A shader must find defined what its uniforms name as a combo, and every name that a
/// condition tests, numbers and GLSL's own words aside.
pub proof fn law_tested_names_are_combos(
    lead: Seq<char>,
    before: Seq<char>,
    name: Seq<char>,
    after: Seq<char>,
)
    requires
        is_space(lead),
        name.len() > 0,
        forall|i: int| 0 <= i < name.len() ==> crate::text::of_class(#[trigger] name[i], Class::Word),
        !('0' <= name[0] <= '9'),
        name != "defined"@ && name != "true"@ && name != "false"@,
        forall|i: int|
            0 <= i < before.len() ==> crate::text::of_class(#[trigger] before[i], Class::Mark),
        after.len() > 0 ==> crate::text::of_class(after[0], Class::Mark),
    ensures
        tests_macro(lead + "#if "@ + before + name + after, name),
{
    reveal_strlit("#if ");
    let c = before + name + after;
    let text = "#if "@ + c;
    let line = lead + "#if "@ + before + name + after;
    assert(line =~= lead + text);
    crate::text::law_leading_space_is_trimmed(lead, text);
    assert(text.subrange(0, 4) =~= "#if "@);
    assert(text.skip(4) =~= c);
    crate::text::law_pieces_follow_each_other(before, name, after, Class::Mark, Class::Word);
    assert(condition_words(c)[0] == name);
}

/// The default of a combo defines it as zero where it is not defined.
pub proof fn law_a_default_is_zero(n: Seq<char>)
    ensures
        zero_default(n) == "#ifndef "@ + n + "\n"@ + ("#define "@ + n + " 0"@) + "\n"@ + "#endif"@,
{
    reveal_strlit("\n");
    reveal_strlit("\n#define ");
    reveal_strlit("#define ");
    reveal_strlit(" 0\n#endif");
    reveal_strlit(" 0");
    reveal_strlit("#endif");
    assert(zero_default(n) =~= "#ifndef "@ + n + "\n"@ + ("#define "@ + n + " 0"@) + "\n"@
        + "#endif"@);
}

/// A define stands on its own line, behind those before it and before the body.
pub proof fn law_defines_stand_before_the_body(
    source: Seq<char>,
    stage: Stage,
    defines: Seq<Seq<char>>,
    d: Seq<char>,
)
    ensures
        exists|start: Seq<char>|
            #![trigger start.push('\n')]
            assembled(source, stage, defines) == start.push('\n') + crate::text::joined(
                kept_lines(source),
            ).push('\n') && assembled(source, stage, defines.push(d)) == (start + "#define "@
                + d.push('\n')).push('\n') + crate::text::joined(kept_lines(source)).push('\n'),
{
    let inner = crate::text::joined(kept_lines(source));
    let early = "#version 300 es\n"@ + stage_header(stage) + PRELUDE@.push('\n') + sampler_block(
        TEXTURE_UNIFORMS as nat,
    ) + text_lines(combo_defaults(inner));
    let start = early + define_lines(defines);
    let line = d.push('\n');
    assert(defines.push(d).drop_last() =~= defines);
    assert(define_lines(defines.push(d)) == define_lines(defines) + "#define "@ + line);
    assert(early + define_lines(defines).push('\n') =~= start.push('\n'));
    assert(early + (define_lines(defines) + "#define "@ + line).push('\n') =~= (start + "#define "@
        + line).push('\n'));
}

/// A fragment stage differs from a vertex stage in its header alone, which stands behind
/// the version: the precisions, the output, and its name.
pub proof fn law_fragment_stages_have_a_header(source: Seq<char>, defines: Seq<Seq<char>>)
    ensures
        exists|rest: Seq<char>|
            #![trigger "#version 300 es\n"@ + rest]
            assembled(source, Stage::Vertex, defines) == "#version 300 es\n"@ + rest && assembled(
                source,
                Stage::Fragment,
                defines,
            ) == "#version 300 es\n"@ + ("precision highp float;\nprecision highp int;\n"@
                + "layout(location = 0) out vec4 wp_FragColor;\n"@
                + "#define gl_FragColor wp_FragColor\n"@) + rest,
{
    let version = "#version 300 es\n"@;
    let inner = crate::text::joined(kept_lines(source));
    let samplers = sampler_block(TEXTURE_UNIFORMS as nat);
    let combos = text_lines(combo_defaults(inner));
    let lines = define_lines(defines).push('\n');
    let prelude = PRELUDE@.push('\n');
    let body = inner.push('\n');
    let rest = prelude + samplers + combos + lines + body;
    lemma_regrouped(version, Seq::empty(), prelude, samplers, combos, lines, body);
    lemma_regrouped(
        version,
        stage_header(Stage::Fragment),
        prelude,
        samplers,
        combos,
        lines,
        body,
    );
    assert(version + Seq::<char>::empty() =~= version);
}

proof fn lemma_regrouped(
    a: Seq<char>,
    b: Seq<char>,
    c: Seq<char>,
    d: Seq<char>,
    e: Seq<char>,
    f: Seq<char>,
    g: Seq<char>,
)
    ensures
        a + b + c + d + e + f + g == a + b + (c + d + e + f + g),
{
    assert(a + b + c + d + e + f + g =~= a + b + (c + d + e + f + g));
}

/// Only what the host declares itself is dropped: a sampler of its own, or the size that
/// goes with one. A uniform of another type or of another name is kept.
pub proof fn law_only_the_hosts_samplers_are_dropped(
    ty: Seq<char>,
    name: Seq<char>,
    i: nat,
    line: Seq<char>,
)
    requires
        is_word(ty),
        name.len() > 0,
        forall|j: int|
            0 <= j < name.len() ==> crate::text::of_class(#[trigger] name[j], Class::Word),
        i < TEXTURE_UNIFORMS,
        !crate::text::begins_with(crate::text::trimmed_start(line), "uniform "@),
    ensures
        redeclares_sampler("uniform "@ + (ty + seq![' '] + name.push(';'))) == ((ty
            == "sampler2D"@ || ty == "vec4"@) && host_declares(name)),
        host_declares(sampler_name(i)),
        host_declares(sampler_name(i) + "Resolution"@),
        name[0] != 'g' ==> !host_declares(name),
        !redeclares_sampler(line),
{
    let none = Seq::<char>::empty();
    let last = name.push(';');
    let r = ty + seq![' '] + last;
    lemma_behind_uniform(none, r);
    assert(none + ("uniform "@ + r) =~= "uniform "@ + r);
    assert(is_word(last)) by {
        assert forall|j: int| 0 <= j < last.len() implies !crate::text::white_space(
            #[trigger] last[j],
        ) by {
            if j < name.len() {
                assert(crate::text::of_class(name[j], Class::Word));
                assert(last[j] == name[j]);
            }
        }
    }
    assert(is_space(seq![' ']));
    lemma_two_words(ty, seq![' '], last);
    assert forall|j: int| 0 <= j < name.len() implies crate::text::of_class(
        #[trigger] last[j],
        Class::Word,
    ) by {
        assert(last[j] == name[j]);
    }
    crate::text::lemma_run_ends(last, 0, name.len() as int, Class::Word);
    assert(leading_name(last) =~= name);
    reveal_strlit("g_Texture");
    if host_declares(name) {
        let k = choose|k: nat|
            k < TEXTURE_UNIFORMS && (name == #[trigger] sampler_name(k) || name == sampler_name(k)
                + "Resolution"@);
        assert(sampler_name(k)[0] == 'g');
    }
}

/// The name of a file stands in the first quotation marks or angle brackets.
pub proof fn law_the_first_mark_is_found(before: Seq<char>, c: char, rest: Seq<char>)
    requires
        c == '"' || c == '<',
        lacks(before, '"'),
        lacks(before, '<'),
    ensures
        delimiter_from(before + seq![c] + rest, 0) == Some(before.len() as int),
        delimiter_from(before, 0) is None,
{
    lemma_mark(before + seq![c] + rest, 0, before.len() as int);
    lemma_mark(before, 0, before.len() as int);
}

proof fn lemma_mark(s: Seq<char>, i: int, k: int)
    requires
        0 <= i <= k <= s.len(),
        forall|j: int| i <= j < k ==> #[trigger] s[j] != '"' && s[j] != '<',
        k < s.len() ==> s[k] == '"' || s[k] == '<',
    ensures
        delimiter_from(s, i) == (if k < s.len() {
            Some(k)
        } else {
            None
        }),
    decreases k - i,
{
    if i < k {
        assert(s[i] != '"' && s[i] != '<');
        lemma_mark(s, i + 1, k);
    }
}

/// Reading a material gives a pass for each table of its list, with the shader and the
/// blending that the table names; a text that is no JSON is none.
pub proof fn law_materials_are_read_pass_by_pass(
    json: &str,
    doc: Map<Seq<char>, JsonTree>,
    list: Seq<JsonTree>,
    m: Map<Seq<char>, JsonTree>,
    i: int,
    shader: Seq<char>,
    blending: Seq<char>,
    r: Result<Vec<MaterialPass>, JsonError>,
)
    requires
        call_ensures(parse_material, (json,), r),
    ensures
        crate::json::json_read(crate::text::without_mark(json@)) is None ==> r is Err,
        crate::json::json_read(crate::text::without_mark(json@)) == Some(JsonTree::Table(doc))
            && says(doc, "passes"@, JsonTree::List(list)) && 0 <= i < list.len() && list[i]
            == JsonTree::Table(m) && says(m, "shader"@, JsonTree::Text(shader)) && says(
            m,
            "blending"@,
            JsonTree::Text(blending),
        ) ==> (r matches Ok(v) && v@.len() == list.len() && v@[i].shader@ == shader
            && v@[i].blending@ == blending),
{
    if let Ok(v) = r {
        let views = pass_views(v@);
        assert(views.len() == v@.len());
        if 0 <= i < v@.len() {
            assert(views[i] == v@[i]@);
        }
    }
}

/// The given defines stand one to a line, in their order.
pub proof fn law_defines_stand_one_to_a_line(list: Seq<Seq<char>>, line: Seq<char>)
    requires
        lacks(line, '\n'),
        line.len() > 0 && line.last() != '\r',
    ensures
        text_lines(Seq::empty()) == Seq::<char>::empty(),
        text_lines(list.push(line)) == text_lines(list) + line + seq!['\n'],
        crate::text::lines_of(text_lines(seq![line])) == seq![line],
{
    let none = Seq::<char>::empty();
    let empty = Seq::<Seq<char>>::empty();
    assert(list.push(line).drop_last() =~= list);
    assert(text_lines(list) + line.push('\n') =~= text_lines(list) + line + seq!['\n']);
    assert(seq![line].drop_last() =~= empty);
    assert(text_lines(empty) == none);
    assert(text_lines(seq![line]) =~= line.push('\n') + none);
    crate::text::law_lines_end_at_their_feeds(line, none);
    assert(seq![line] + empty =~= seq![line]);
}

} // verus!
