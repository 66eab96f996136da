//! HLSL to GLSL ES normalisation for Wallpaper Engine shaders.
//!
//! The scene shaders are written in HLSL-flavoured GLSL, and the engine's own
//! compiler was lenient in ways GLSL ES 3.0 is not. This module is the
//! translation layer, and it is deliberately narrow:
//!
//! - integer literals where a float is wanted get a fractional part;
//! - `sample`, which GLSL ES reserves, is renamed;
//! - `fmod` takes its GLSL name;
//! - a macro that is defined twice has its later definitions guarded;
//! - a uniform that the material marks `"int": true` is declared `int`.
//!
//! Nothing rewrites a value: only types are made explicit. A construct this
//! module does not know about is left exactly as it was written.
use vstd::prelude::*;
use crate::text::{
    chars_of, copy_chars, find, head, is_ascii_digit, is_ascii_letter, is_at, is_name_char,
    is_text, is_white_space, lines, lists, part, push_chars, push_text, rest, skip_run, starts_with,
    strip_prefix, trim_start, words, Class,
};

verus! {

/// The GLSL name of a word that cannot stand as it is.
pub open spec fn renamed(word: Seq<char>) -> Seq<char> {
    if word == "sample"@ {
        "wp_sample"@
    } else if word == "fmod"@ {
        "mod"@
    } else {
        word
    }
}

/// Whether a hexadecimal literal begins at `i`.
pub open spec fn hex_literal_at(s: Seq<char>, i: int) -> bool {
    crate::text::occurs_at(s, "0x"@, i) || crate::text::occurs_at(s, "0X"@, i)
}

/// The end of the digits that begin at `i` and of the fraction behind them.
pub open spec fn fraction_end(s: Seq<char>, i: int) -> int {
    let d = crate::text::run_end(s, i, Class::Digit);
    if 0 <= d < s.len() && s[d] == '.' {
        crate::text::run_end(s, d + 1, Class::Digit)
    } else {
        d
    }
}

/// The end of the exponent that begins at `i`, or `i` where none does.
pub open spec fn exponent_end(s: Seq<char>, i: int) -> int {
    if 0 <= i < s.len() && (s[i] == 'e' || s[i] == 'E') {
        let k = if i + 1 < s.len() && (s[i + 1] == '+' || s[i + 1] == '-') {
            i + 2
        } else {
            i + 1
        };
        if k < s.len() && crate::text::ascii_digit(s[k]) {
            crate::text::run_end(s, k, Class::Digit)
        } else {
            i
        }
    } else {
        i
    }
}

/// The end of the numeric literal that begins at `i`: a hexadecimal one, or
/// digits with a fraction, an exponent and HLSL's suffixes.
pub open spec fn number_end(s: Seq<char>, i: int) -> int {
    if hex_literal_at(s, i) {
        crate::text::run_end(s, i + 2, Class::Hex)
    } else {
        crate::text::run_end(s, exponent_end(s, fraction_end(s, i)), Class::Suffix)
    }
}

/// Whether the literal that begins at `i` is nothing but decimal digits.
pub open spec fn plain_integer(s: Seq<char>, i: int) -> bool {
    forall|j: int| i <= j < number_end(s, i) ==> crate::text::ascii_digit(#[trigger] s[j])
}

/// The literal that begins at `i`, made a float where a float is wanted: where
/// literals are to be rewritten, outside every bracket, and not behind a dot.
pub open spec fn number_text(s: Seq<char>, i: int, depth: nat, literals: bool) -> Seq<char> {
    let number = s.subrange(i, number_end(s, i));
    if plain_integer(s, i) && literals && depth == 0 && !(i > 0 && s[i - 1] == '.') {
        number + ".0"@
    } else {
        number
    }
}

/// What the code from `i` on becomes, `depth` brackets being open.
pub open spec fn rewritten_from(s: Seq<char>, i: int, depth: nat, literals: bool) -> Seq<char>
    decreases s.len() - i,
{
    if !(0 <= i < s.len()) {
        Seq::empty()
    } else {
        let c = s[i];
        proof {
            lemma_progress(s, i);
        }
        if c == '[' {
            seq![c] + rewritten_from(s, i + 1, depth + 1, literals)
        } else if c == ']' {
            seq![c] + rewritten_from(
                s,
                i + 1,
                if depth > 0 {
                    (depth - 1) as nat
                } else {
                    0
                },
                literals,
            )
        } else if crate::text::ascii_letter(c) || c == '_' {
            let j = crate::text::run_end(s, i, Class::Word);
            renamed(s.subrange(i, j)) + rewritten_from(s, j, depth, literals)
        } else if crate::text::ascii_digit(c) {
            number_text(s, i, depth, literals) + rewritten_from(
                s,
                number_end(s, i),
                depth,
                literals,
            )
        } else {
            seq![c] + rewritten_from(s, i + 1, depth, literals)
        }
    }
}

/// Code with its identifiers renamed and, where `literals` says so, its integer
/// literals promoted.
pub open spec fn rewritten(s: Seq<char>, literals: bool) -> Seq<char> {
    rewritten_from(s, 0, 0, literals)
}

/// A word and a number that begin at `i` end behind it.
pub proof fn lemma_progress(s: Seq<char>, i: int)
    requires
        0 <= i < s.len(),
    ensures
        crate::text::ascii_letter(s[i]) || s[i] == '_' ==> i < crate::text::run_end(
            s,
            i,
            Class::Word,
        ) <= s.len(),
        crate::text::ascii_digit(s[i]) ==> i < number_end(s, i) <= s.len(),
        crate::text::ascii_digit(s[i]) && !hex_literal_at(s, i) ==> i < crate::text::run_end(
            s,
            i,
            Class::Digit,
        ) <= fraction_end(s, i) <= exponent_end(s, fraction_end(s, i)) <= s.len(),
{
    crate::text::lemma_run_end(s, i, Class::Word);
    crate::text::lemma_run_end(s, i + 1, Class::Word);
    if crate::text::ascii_digit(s[i]) {
        if hex_literal_at(s, i) {
            reveal_strlit("0x");
            reveal_strlit("0X");
            crate::text::lemma_run_end(s, i + 2, Class::Hex);
        } else {
            crate::text::lemma_run_end(s, i, Class::Digit);
            crate::text::lemma_run_end(s, i + 1, Class::Digit);
            let d = crate::text::run_end(s, i, Class::Digit);
            if d < s.len() {
                crate::text::lemma_run_end(s, d + 1, Class::Digit);
            }
            let f = fraction_end(s, i);
            if f + 1 < s.len() {
                crate::text::lemma_run_end(s, f + 1, Class::Digit);
                crate::text::lemma_run_end(s, f + 2, Class::Digit);
            }
            let e = exponent_end(s, f);
            crate::text::lemma_run_end(s, e, Class::Suffix);
        }
    }
}

/// The end of the exponent that begins at `i`, or `i`.
fn exponent(s: &[char], i: usize) -> (r: usize)
    requires
        i <= s@.len(),
    ensures
        r == exponent_end(s@, i as int),
        i <= r <= s@.len(),
{
    if i < s.len() && (s[i] == 'e' || s[i] == 'E') {
        let k = if i + 1 < s.len() && (s[i + 1] == '+' || s[i + 1] == '-') {
            i + 2
        } else {
            i + 1
        };
        if k < s.len() && is_ascii_digit(s[k]) {
            return skip_run(s, k, Class::Digit);
        }
    }
    i
}

/// The end of the numeric literal that begins at `i`.
fn number(s: &[char], i: usize) -> (r: usize)
    requires
        i < s@.len(),
        crate::text::ascii_digit(s@[i as int]),
    ensures
        r == number_end(s@, i as int),
        i < r <= s@.len(),
{
    proof {
        lemma_progress(s@, i as int);
        reveal_strlit("0x");
        reveal_strlit("0X");
    }
    let lower = chars_of("0x");
    let upper = chars_of("0X");
    proof {
        assert(lower@.len() == 2 && upper@.len() == 2);
    }
    if s.len() - i >= 2 && (is_at(s, lower.as_slice(), i) || is_at(s, upper.as_slice(), i)) {
        skip_run(s, i + 2, Class::Hex)
    } else {
        let mut j = skip_run(s, i, Class::Digit);
        if j < s.len() && s[j] == '.' {
            j = skip_run(s, j + 1, Class::Digit);
        }
        skip_run(s, exponent(s, j), Class::Suffix)
    }
}

/// The character-level rewrite: identifier renames and literal promotion.
pub fn rewrite(code: &[char], rewrite_literals: bool) -> (out: String)
    ensures
        out@ == rewritten(code@, rewrite_literals),
{
    let ghost s = code@;
    let mut out = String::new();
    let mut i: usize = 0;
    let mut depth: usize = 0;
    proof {
        assert(out@ + rewritten_from(s, 0, 0, rewrite_literals) =~= rewritten(s, rewrite_literals));
    }
    while i < code.len()
        invariant
            s == code@,
            i <= s.len(),
            depth <= i,
            out@ + rewritten_from(s, i as int, depth as nat, rewrite_literals) == rewritten(
                s,
                rewrite_literals,
            ),
        decreases s.len() - i,
    {
        let c = code[i];
        let ghost before = out@;
        let ghost at = i as int;
        let ghost emitted: Seq<char>;
        proof {
            lemma_progress(s, at);
        }
        if c == '[' || c == ']' {
            out.push(c);
            i += 1;
            if c == '[' {
                depth += 1;
            } else if depth > 0 {
                depth -= 1;
            }
            proof {
                emitted = seq![c];
            }
        } else if is_ascii_letter(c) || c == '_' {
            let j = skip_run(code, i, Class::Word);
            let word = part(code, i, j);
            if is_text(word, "sample") {
                push_text(&mut out, "wp_sample");
            } else if is_text(word, "fmod") {
                push_text(&mut out, "mod");
            } else {
                push_chars(&mut out, word);
            }
            proof {
                emitted = renamed(word@);
            }
            i = j;
        } else if is_ascii_digit(c) {
            let j = number(code, i);
            let digits = skip_run(code, i, Class::Digit);
            proof {
                crate::text::lemma_run_end(s, at, Class::Digit);
                if digits < j {
                    assert(!crate::text::ascii_digit(s[digits as int]));
                }
            }
            push_chars(&mut out, part(code, i, j));
            proof {
                emitted = number_text(s, at, depth as nat, rewrite_literals);
            }
            if digits >= j && rewrite_literals && depth == 0 && !(i > 0 && code[i - 1] == '.') {
                push_text(&mut out, ".0");
            }
            i = j;
        } else {
            out.push(c);
            i += 1;
            proof {
                emitted = seq![c];
            }
        }
        proof {
            assert(out@ =~= before + emitted);
            let later = rewritten_from(s, i as int, depth as nat, rewrite_literals);
            assert(out@ + later =~= before + (emitted + later));
        }
    }
    proof {
        assert(out@ + rewritten_from(s, i as int, depth as nat, rewrite_literals) =~= out@);
    }
    out
}

/// The macro name of a `#define`, where the line is one.
pub open spec fn defined_name(line: Seq<char>) -> Option<Seq<char>> {
    match crate::text::without_prefix(line, "#"@) {
        None => None,
        Some(a) => match crate::text::without_prefix(crate::text::trimmed_start(a), "define"@) {
            None => None,
            Some(r) => {
                // `#defineX` is not a define.
                if r.len() > 0 && (r[0] == ' ' || r[0] == '\t') && crate::text::words_of(r).len() > 0 {
                    Some(crate::text::words_of(r)[0])
                } else {
                    None
                }
            },
        },
    }
}

/// The macro name of a `#define`, where the line is one.
pub fn define_name(trimmed: &[char]) -> (r: Option<Vec<char>>)
    ensures
        match r {
            Some(n) => defined_name(trimmed@) == Some(n@),
            None => defined_name(trimmed@) is None,
        },
{
    let hashed = match strip_prefix(trimmed, "#") {
        Some(a) => a,
        None => return None,
    };
    let body = match strip_prefix(trim_start(hashed), "define") {
        Some(b) => b,
        None => return None,
    };
    if body.len() == 0 || !(body[0] == ' ' || body[0] == '\t') {
        return None;
    }
    let list = words(body);
    proof {
        assert(crate::text::spelled(list@).len() == list@.len());
    }
    if list.len() == 0 {
        None
    } else {
        let name = copy_chars(list[0].as_slice());
        proof {
            assert(crate::text::spelled(list@)[0] == name@);
        }
        Some(name)
    }
}

/// Whether the word `w` stands at `i` by itself, with white space behind it.
pub open spec fn type_word_at(code: Seq<char>, w: Seq<char>, i: int) -> bool {
    &&& crate::text::occurs_at(code, w, i)
    &&& i == 0 || !crate::text::name_char(code[i - 1])
    &&& i + w.len() < code.len()
    &&& crate::text::white_space(code[i + w.len()])
}

/// Whether a statement declares an `int` or a `uint` variable.
pub open spec fn integer_declared(code: Seq<char>) -> bool {
    exists|i: int| type_word_at(code, "int"@, i) || type_word_at(code, "uint"@, i)
}

fn type_word(code: &[char], w: &[char], i: usize) -> (r: bool)
    requires
        i <= code@.len(),
    ensures
        r == type_word_at(code@, w@, i as int),
{
    is_at(code, w, i) && (i == 0 || !is_name_char(code[i - 1])) && w.len() < code.len() - i
        && is_white_space(code[i + w.len()])
}

/// Whether a statement declares an `int` or a `uint` variable.
pub fn declares_integer(code: &[char]) -> (r: bool)
    ensures
        r == integer_declared(code@),
{
    let signed = chars_of("int");
    let unsigned = chars_of("uint");
    let mut i: usize = 0;
    while i < code.len()
        invariant
            i <= code@.len(),
            signed@ == "int"@,
            unsigned@ == "uint"@,
            forall|j: int|
                0 <= j < i ==> !type_word_at(code@, "int"@, j) && !type_word_at(code@, "uint"@, j),
        decreases code@.len() - i,
    {
        if type_word(code, signed.as_slice(), i) || type_word(code, unsigned.as_slice(), i) {
            return true;
        }
        i += 1;
    }
    false
}

/// Whether the material comment marks its uniform an integer: the key `"int"`
/// with the value `true`.
pub open spec fn marked_int(tail: Seq<char>) -> bool {
    match crate::text::find_from(tail, "\"int\""@, 0) {
        None => false,
        Some(k) => {
            let after = tail.skip(k + 5);
            crate::text::begins_with(
                after.skip(crate::text::run_end(after, 0, Class::Filler)),
                "true"@,
            )
        },
    }
}

fn is_marked_int(tail: &[char]) -> (r: bool)
    ensures
        r == marked_int(tail@),
{
    let key = chars_of("\"int\"");
    proof {
        reveal_strlit("\"int\"");
        assert(key@.len() == 5);
    }
    match find(tail, key.as_slice(), 0) {
        None => false,
        Some(k) => {
            let after = rest(tail, k + 5);
            starts_with(rest(after, skip_run(after, 0, Class::Filler)), "true")
        },
    }
}

/// `uniform float NAME;` becomes `uniform int NAME;` where the material says so,
/// however far the line is indented.
pub open spec fn int_promoted(code: Seq<char>, tail: Seq<char>) -> Seq<char> {
    let lead = crate::text::run_end(code, 0, Class::Space);
    if crate::text::occurs_at(code, "uniform float"@, lead) && marked_int(tail) {
        code.take(lead + 8) + "int"@ + code.skip(lead + 13)
    } else {
        code
    }
}

/// `uniform float NAME;` -> `uniform int NAME;` when the material says `"int": true`.
///
/// The JSON is the contract, since it is what the editor exposed; declaring the
/// uniform `int` is what makes `for (int i = u_Min; i < u_Max; i++)` legal
/// without casting each use.
pub fn promote_int_uniform(code: &[char], tail: &[char]) -> (r: Vec<char>)
    ensures
        r@ == int_promoted(code@, tail@),
{
    let lead = skip_run(code, 0, Class::Space);
    let declared = chars_of("uniform float");
    proof {
        reveal_strlit("uniform float");
        assert(declared@.len() == 13);
    }
    if code.len() - lead < 13 || !is_at(code, declared.as_slice(), lead) || !is_marked_int(tail) {
        return copy_chars(code);
    }
    let mut out = copy_chars(head(code, lead + 8));
    let mut int_word = chars_of("int");
    let mut after = copy_chars(rest(code, lead + 13));
    out.append(&mut int_word);
    out.append(&mut after);
    out
}

/// Where the first comment of a line begins; the line's end where it has none.
pub open spec fn comment_start(line: Seq<char>) -> int {
    match (crate::text::find_from(line, "//"@, 0), crate::text::find_from(line, "/*"@, 0)) {
        (Some(a), Some(b)) => if a < b {
            a
        } else {
            b
        },
        (Some(a), None) => a,
        (None, Some(b)) => b,
        (None, None) => line.len() as int,
    }
}

fn find_comment(line: &[char]) -> (r: usize)
    ensures
        r == comment_start(line@),
        r <= line@.len(),
{
    let slashes = chars_of("//");
    let block = chars_of("/*");
    match (find(line, slashes.as_slice(), 0), find(line, block.as_slice(), 0)) {
        (Some(a), Some(b)) => if a < b {
            a
        } else {
            b
        },
        (Some(a), None) => a,
        (None, Some(b)) => b,
        (None, None) => line.len(),
    }
}

/// A line with its end.
pub open spec fn ended(line: Seq<char>) -> Seq<char> {
    line.push('\n')
}

/// A definition that takes effect only where the name is not defined yet.
pub open spec fn guarded(name: Seq<char>, line: Seq<char>) -> Seq<char> {
    "#ifndef "@ + ended(name) + ended(line) + "#endif\n"@
}

/// Whether a line outside a block comment is a preprocessor line.
pub open spec fn is_directive(line: Seq<char>) -> bool {
    crate::text::begins_with(crate::text::trimmed_start(line.take(comment_start(line))), "#"@)
}

/// The macro that a line outside a block comment defines.
pub open spec fn macro_of(line: Seq<char>) -> Option<Seq<char>> {
    if is_directive(line) {
        defined_name(crate::text::trimmed_start(line.take(comment_start(line))))
    } else {
        None
    }
}

/// What a line becomes, given whether a block comment is open before it and
/// which macros the lines before it define.
pub open spec fn line_text(line: Seq<char>, in_comment: bool, defined: Seq<Seq<char>>) -> Seq<char> {
    if in_comment {
        ended(line)
    } else if is_directive(line) {
        match macro_of(line) {
            Some(name) => if defined.contains(name) {
                guarded(name, line)
            } else {
                ended(line)
            },
            None => ended(line),
        }
    } else {
        let code = line.take(comment_start(line));
        let tail = line.skip(comment_start(line));
        ended(rewritten(int_promoted(code, tail), !integer_declared(code)) + tail)
    }
}

/// Whether a block comment is open behind a line: behind each end of one, the next
/// comment of the line is looked for.
pub open spec fn comment_after(line: Seq<char>, in_comment: bool) -> bool
    decreases line.len(),
{
    if in_comment {
        match crate::text::find_from(line, "*/"@, 0) {
            None => true,
            Some(k) => if 0 <= k && k + 2 <= line.len() {
                comment_after(line.skip(k + 2), false)
            } else {
                true
            },
        }
    } else {
        let c = comment_start(line);
        if 0 <= c && c + 2 <= line.len() && crate::text::occurs_at(line, "/*"@, c) {
            comment_after(line.skip(c + 2), true)
        } else {
            false
        }
    }
}

/// Whether a block comment is open behind a line.
fn is_open_after(line: &[char], in_comment: bool) -> (r: bool)
    ensures
        r == comment_after(line@, in_comment),
    decreases line@.len(),
{
    if in_comment {
        let close = chars_of("*/");
        proof {
            reveal_strlit("*/");
            assert(close@.len() == 2);
        }
        match find(line, close.as_slice(), 0) {
            None => true,
            Some(k) => is_open_after(rest(line, k + 2), false),
        }
    } else {
        let c = find_comment(line);
        let open = chars_of("/*");
        proof {
            reveal_strlit("/*");
            assert(open@.len() == 2);
        }
        if line.len() - c >= 2 && is_at(line, open.as_slice(), c) {
            is_open_after(rest(line, c + 2), true)
        } else {
            false
        }
    }
}

/// The macros that are defined behind a line.
pub open spec fn defined_after(
    line: Seq<char>,
    in_comment: bool,
    defined: Seq<Seq<char>>,
) -> Seq<Seq<char>> {
    match macro_of(line) {
        Some(name) => if !in_comment && !defined.contains(name) {
            defined.push(name)
        } else {
            defined
        },
        None => defined,
    }
}

/// What the lines of a shader become.
pub open spec fn normalised_lines(
    list: Seq<Seq<char>>,
    in_comment: bool,
    defined: Seq<Seq<char>>,
) -> Seq<char>
    decreases list.len(),
{
    if list.len() == 0 {
        Seq::empty()
    } else {
        line_text(list[0], in_comment, defined) + normalised_lines(
            list.skip(1),
            comment_after(list[0], in_comment),
            defined_after(list[0], in_comment, defined),
        )
    }
}

/// What a shader becomes.
pub open spec fn normalised(source: Seq<char>) -> Seq<char> {
    normalised_lines(crate::text::lines_of(source), false, Seq::empty())
}

/// Rewrite a shader body into something GLSL ES accepts.
///
/// Line-oriented, because every construct is expressed per statement. Block
/// comments are tracked across lines so a commented-out `sample` is not renamed.
pub fn normalise(source: &str) -> (out: String)
    ensures
        out@ == normalised(source@),
{
    let all = chars_of(source);
    let list = lines(all.as_slice());
    let ghost model = crate::text::lines_of(source@);
    let mut out = String::new();
    let mut defined: Vec<Vec<char>> = Vec::new();
    let mut in_comment = false;
    let mut i: usize = 0;
    proof {
        assert(model.skip(0) =~= model);
        assert(crate::text::spelled(defined@) =~= Seq::<Seq<char>>::empty());
        assert(out@ + normalised(source@) =~= normalised(source@));
        assert(crate::text::spelled(list@).len() == list@.len());
    }
    while i < list.len()
        invariant
            i <= list@.len(),
            model == crate::text::spelled(list@),
            out@ + normalised_lines(
                model.skip(i as int),
                in_comment,
                crate::text::spelled(defined@),
            ) == normalised(source@),
        decreases list@.len() - i,
    {
        let line = list[i].as_slice();
        let ghost was_open = in_comment;
        let ghost known = crate::text::spelled(defined@);
        let ghost before = out@;
        proof {
            assert(line@ == model.skip(i as int)[0]);
            assert(model.skip(i as int).skip(1) =~= model.skip(i + 1));
        }
        if in_comment {
            push_chars(&mut out, line);
            out.push('\n');
            proof {
                assert(out@ =~= before + line_text(line@, was_open, known));
            }
        } else {
            let cut = find_comment(line);
            let code = head(line, cut);
            let tail = rest(line, cut);
            let trimmed = trim_start(code);
            if starts_with(trimmed, "#") {
                let mut repeated = false;
                if let Some(name) = define_name(trimmed) {
                    if lists(&defined, name.as_slice()) {
                        repeated = true;
                        push_text(&mut out, "#ifndef ");
                        push_chars(&mut out, name.as_slice());
                        out.push('\n');
                    } else {
                        defined.push(name);
                        proof {
                            assert(crate::text::spelled(defined@) =~= known.push(name@));
                        }
                    }
                }
                push_chars(&mut out, line);
                out.push('\n');
                if repeated {
                    push_text(&mut out, "#endif\n");
                }
                proof {
                    assert(out@ =~= before + line_text(line@, was_open, known));
                }
            } else {
                let promoted = promote_int_uniform(code, tail);
                let text = rewrite(promoted.as_slice(), !declares_integer(code));
                push_text(&mut out, text.as_str());
                push_chars(&mut out, tail);
                out.push('\n');
                proof {
                    assert(out@ =~= before + line_text(line@, was_open, known));
                }
            }
        }
        in_comment = is_open_after(line, in_comment);
        proof {
            let later = normalised_lines(
                model.skip(i + 1),
                in_comment,
                crate::text::spelled(defined@),
            );
            assert(crate::text::spelled(defined@) == defined_after(line@, was_open, known));
            assert(in_comment == comment_after(line@, was_open));
            assert(out@ + later =~= before + (line_text(line@, was_open, known) + later));
        }
        i += 1;
    }
    proof {
        assert(model.skip(i as int) =~= Seq::<Seq<char>>::empty());
        assert(out@ + Seq::<char>::empty() =~= out@);
    }
    out
}

/// Code is left exactly as it was written where it holds neither of the renamed
/// words and, if literals are rewritten, no digit.
pub proof fn law_unknown_code_is_kept(code: Seq<char>, literals: bool)
    requires
        !crate::text::contains(code, "sample"@),
        !crate::text::contains(code, "fmod"@),
        literals ==> forall|i: int|
            0 <= i < code.len() ==> !crate::text::ascii_digit(#[trigger] code[i]),
    ensures
        rewritten(code, literals) == code,
{
    lemma_kept_from(code, 0, 0, literals);
    assert(code.skip(0) =~= code);
}

proof fn lemma_kept_from(s: Seq<char>, i: int, depth: nat, literals: bool)
    requires
        0 <= i <= s.len(),
        !crate::text::contains(s, "sample"@),
        !crate::text::contains(s, "fmod"@),
        literals ==> forall|k: int|
            0 <= k < s.len() ==> !crate::text::ascii_digit(#[trigger] s[k]),
    ensures
        rewritten_from(s, i, depth, literals) == s.skip(i),
    decreases s.len() - i,
{
    if i < s.len() {
        let c = s[i];
        lemma_progress(s, i);
        if c == '[' {
            lemma_kept_from(s, i + 1, depth + 1, literals);
        } else if c == ']' {
            lemma_kept_from(
                s,
                i + 1,
                if depth > 0 {
                    (depth - 1) as nat
                } else {
                    0
                },
                literals,
            );
        } else if crate::text::ascii_letter(c) || c == '_' {
            let j = crate::text::run_end(s, i, Class::Word);
            let word = s.subrange(i, j);
            crate::text::lemma_find_from(s, "sample"@, 0);
            crate::text::lemma_find_from(s, "fmod"@, 0);
            if word == "sample"@ {
                assert(crate::text::occurs_at(s, "sample"@, i));
            }
            if word == "fmod"@ {
                assert(crate::text::occurs_at(s, "fmod"@, i));
            }
            lemma_kept_from(s, j, depth, literals);
            assert(word + s.skip(j) =~= s.skip(i));
        } else if crate::text::ascii_digit(c) {
            let j = number_end(s, i);
            lemma_kept_from(s, j, depth, literals);
            assert(s.subrange(i, j) + s.skip(j) =~= s.skip(i));
        } else {
            lemma_kept_from(s, i + 1, depth, literals);
        }
        assert(seq![c] + s.skip(i + 1) =~= s.skip(i));
    } else {
        assert(s.skip(i) =~= Seq::<char>::empty());
    }
}

/// Everything from the first comment marker of a line onwards is preserved
/// verbatim, and a line inside a block comment is preserved whole.
pub proof fn law_comments_are_kept(line: Seq<char>, in_comment: bool, defined: Seq<Seq<char>>)
    ensures
        in_comment ==> line_text(line, in_comment, defined) == ended(line),
        exists|code: Seq<char>, close: Seq<char>|
            #![trigger code + ended(line.skip(comment_start(line))) + close]
            line_text(line, in_comment, defined) == code + ended(line.skip(comment_start(line)))
                + close && (close == Seq::<char>::empty() || close == "#endif\n"@),
{
    let cut = comment_start(line);
    let tail = line.skip(cut);
    crate::text::lemma_find_from(line, "//"@, 0);
    crate::text::lemma_find_from(line, "/*"@, 0);
    assert(0 <= cut <= line.len());
    let none = Seq::<char>::empty();
    let end = "#endif\n"@;
    let code = line.take(cut);
    let text = line_text(line, in_comment, defined);
    assert(ended(line) =~= code + ended(tail) + none);
    if in_comment {
    } else if is_directive(line) {
        match macro_of(line) {
            Some(name) => {
                let open = "#ifndef "@ + ended(name) + code;
                if defined.contains(name) {
                    assert(text =~= open + ended(tail) + end);
                }
            },
            None => {},
        }
    } else {
        let body = rewritten(int_promoted(code, tail), !integer_declared(code));
        assert(text =~= body + ended(tail) + none);
    }
}

/// Whether a block comment is open before the line `k`.
pub open spec fn comment_before(list: Seq<Seq<char>>, k: int) -> bool
    decreases k,
{
    k > 0 && comment_after(list[k - 1], comment_before(list, k - 1))
}

/// The macros that the lines before the line `k` define.
pub open spec fn defined_before(list: Seq<Seq<char>>, k: int) -> Seq<Seq<char>>
    decreases k,
{
    if k <= 0 {
        Seq::empty()
    } else {
        defined_after(list[k - 1], comment_before(list, k - 1), defined_before(list, k - 1))
    }
}

/// What the first `k` lines become.
pub open spec fn first_lines_text(list: Seq<Seq<char>>, k: int) -> Seq<char>
    decreases k,
{
    if k <= 0 {
        Seq::empty()
    } else {
        first_lines_text(list, k - 1) + line_text(
            list[k - 1],
            comment_before(list, k - 1),
            defined_before(list, k - 1),
        )
    }
}

/// A shader is normalised line by line: each line becomes its own text, in order.
pub proof fn law_line_by_line(source: Seq<char>)
    ensures
        normalised(source) == first_lines_text(
            crate::text::lines_of(source),
            crate::text::lines_of(source).len() as int,
        ),
{
    let list = crate::text::lines_of(source);
    let n = list.len() as int;
    lemma_lines_from(list, n);
    assert(list.skip(n) =~= Seq::<Seq<char>>::empty());
    assert(first_lines_text(list, n) + Seq::<char>::empty() =~= first_lines_text(list, n));
}

proof fn lemma_lines_from(list: Seq<Seq<char>>, k: int)
    requires
        0 <= k <= list.len(),
    ensures
        first_lines_text(list, k) + normalised_lines(
            list.skip(k),
            comment_before(list, k),
            defined_before(list, k),
        ) == normalised_lines(list, false, Seq::empty()),
    decreases k,
{
    if k == 0 {
        assert(list.skip(0) =~= list);
        assert(Seq::<char>::empty() + normalised_lines(list, false, Seq::empty())
            =~= normalised_lines(list, false, Seq::empty()));
    } else {
        lemma_lines_from(list, k - 1);
        let from = list.skip(k - 1);
        assert(from[0] == list[k - 1]);
        assert(from.skip(1) =~= list.skip(k));
        let a = first_lines_text(list, k - 1);
        let b = line_text(list[k - 1], comment_before(list, k - 1), defined_before(list, k - 1));
        let c = normalised_lines(list.skip(k), comment_before(list, k), defined_before(list, k));
        assert(a + (b + c) =~= a + b + c);
    }
}

/// A definition is guarded exactly where an earlier line, outside every block
/// comment, defines the same macro: the first definition stands as it is.
pub proof fn law_only_repeats_are_guarded(list: Seq<Seq<char>>, k: int, name: Seq<char>)
    requires
        0 <= k < list.len(),
        !comment_before(list, k),
        macro_of(list[k]) == Some(name),
    ensures
        line_text(list[k], comment_before(list, k), defined_before(list, k)) == (if exists|j: int|
            0 <= j < k && defines(list, j, name) {
            guarded(name, list[k])
        } else {
            ended(list[k])
        }),
{
    lemma_defined_before(list, k, name);
}

/// Whether the line `j` defines the macro, outside every block comment.
pub open spec fn defines(list: Seq<Seq<char>>, j: int, name: Seq<char>) -> bool {
    !comment_before(list, j) && macro_of(list[j]) == Some(name)
}

proof fn lemma_defined_before(list: Seq<Seq<char>>, k: int, name: Seq<char>)
    requires
        0 <= k <= list.len(),
    ensures
        defined_before(list, k).contains(name) <==> exists|j: int|
            0 <= j < k && defines(list, j, name),
    decreases k,
{
    if k > 0 {
        lemma_defined_before(list, k - 1, name);
        let was = defined_before(list, k - 1);
        let is = defined_before(list, k);
        match macro_of(list[k - 1]) {
            Some(n) => {
                if !comment_before(list, k - 1) && !was.contains(n) {
                    assert(is == was.push(n));
                    assert(is[was.len() as int] == n);
                    assert(is.contains(name) <==> was.contains(name) || n == name) by {
                        if was.contains(name) {
                            let x = choose|x: int| 0 <= x < was.len() && was[x] == name;
                            assert(is[x] == name);
                        }
                    }
                }
                if n == name && !comment_before(list, k - 1) {
                    assert(defines(list, k - 1, name));
                }
            },
            None => {},
        }
    }
}

/// A run is what its first and its next character say.
proof fn lemma_run_is(s: Seq<char>, a: int, b: int, k: Class)
    requires
        0 <= a <= b <= s.len(),
        forall|j: int| a <= j < b ==> crate::text::of_class(#[trigger] s[j], k),
        b < s.len() ==> !crate::text::of_class(s[b], k),
    ensures
        crate::text::run_end(s, a, k) == b,
    decreases b - a,
{
    if a < b {
        assert(crate::text::of_class(s[a], k));
        lemma_run_is(s, a + 1, b, k);
    }
}

/// What rewriting emits for what begins at `i`, and where the rest begins.
spec fn emitted(s: Seq<char>, i: int, depth: nat, literals: bool) -> (Seq<char>, int, nat) {
    let c = s[i];
    if c == '[' {
        (seq![c], i + 1, depth + 1)
    } else if c == ']' {
        (
            seq![c],
            i + 1,
            if depth > 0 {
                (depth - 1) as nat
            } else {
                0
            },
        )
    } else if crate::text::ascii_letter(c) || c == '_' {
        let j = crate::text::run_end(s, i, Class::Word);
        (renamed(s.subrange(i, j)), j, depth)
    } else if crate::text::ascii_digit(c) {
        (number_text(s, i, depth, literals), number_end(s, i), depth)
    } else {
        (seq![c], i + 1, depth)
    }
}

proof fn lemma_emitted(s: Seq<char>, i: int, depth: nat, literals: bool)
    requires
        0 <= i < s.len(),
    ensures
        ({
            let (e, j, d) = emitted(s, i, depth, literals);
            &&& i < j <= s.len()
            &&& e.len() > 0
            &&& rewritten_from(s, i, depth, literals) == e + rewritten_from(s, j, d, literals)
            &&& e[0] == s[i] || (s[i] == 's' && e[0] == 'w') || (s[i] == 'f' && e[0] == 'm')
        }),
{
    lemma_progress(s, i);
    let c = s[i];
    if crate::text::ascii_letter(c) || c == '_' {
        let j = crate::text::run_end(s, i, Class::Word);
        let word = s.subrange(i, j);
        assert(word[0] == c);
        reveal_strlit("sample");
        reveal_strlit("wp_sample");
        reveal_strlit("fmod");
        reveal_strlit("mod");
    }
}

/// Rewritten code begins as the code does, but for a renamed word.
proof fn lemma_first(s: Seq<char>, i: int, depth: nat, literals: bool)
    requires
        0 <= i <= s.len(),
    ensures
        ({
            let r = rewritten_from(s, i, depth, literals);
            &&& r.len() == 0 <==> i == s.len()
            &&& i < s.len() ==> r[0] == s[i] || (s[i] == 's' && r[0] == 'w') || (s[i] == 'f' && r[0]
                == 'm')
        }),
{
    if i < s.len() {
        lemma_emitted(s, i, depth, literals);
    }
}

/// Where no exponent begins, none begins in the rewritten code.
proof fn lemma_no_exponent(s: Seq<char>, j: int, depth: nat, literals: bool, before: Seq<char>)
    requires
        0 <= j <= s.len(),
        exponent_end(s, j) == j,
    ensures
        exponent_end(before + rewritten_from(s, j, depth, literals), before.len() as int)
            == before.len(),
{
    let p = before.len() as int;
    let r = rewritten_from(s, j, depth, literals);
    let x = before + r;
    lemma_first(s, j, depth, literals);
    if j < s.len() && (s[j] == 'e' || s[j] == 'E') {
        assert(x[p] == r[0]);
        lemma_emitted(s, j, depth, literals);
        crate::text::lemma_run_end(s, j, Class::Word);
        crate::text::lemma_run_end(s, j + 1, Class::Digit);
        if j + 2 <= s.len() {
            crate::text::lemma_run_end(s, j + 2, Class::Digit);
        }
        let m = crate::text::run_end(s, j, Class::Word);
        lemma_progress(s, j);
        let word = s.subrange(j, m);
        reveal_strlit("sample");
        reveal_strlit("fmod");
        assert(word[0] == s[j]);
        let later = rewritten_from(s, m, depth, literals);
        assert(r == word + later);
        lemma_first(s, m, depth, literals);
        if j + 1 < s.len() {
            assert(!crate::text::ascii_digit(s[j + 1]));
        }
        if m >= j + 2 {
            assert(r[1] == s[j + 1]);
            assert(crate::text::of_class(s[j + 1], Class::Word));
            assert(x[p + 1] == s[j + 1]);
        } else if m < s.len() {
            assert(r[1] == later[0]);
            assert(x[p + 1] == later[0]);
            assert(later[0] == s[m]);
            if s[m] == '+' || s[m] == '-' {
                lemma_emitted(s, m, depth, literals);
                lemma_first(s, m + 1, depth, literals);
                let last = rewritten_from(s, m + 1, depth, literals);
                assert(later == seq![s[m]] + last);
                if m + 1 < s.len() {
                    assert(!crate::text::ascii_digit(s[m + 1]));
                    assert(x[p + 2] == last[0]);
                }
            }
        }
    } else if j < s.len() {
        assert(x[p] == r[0]);
    }
}

/// A literal that was rewritten is read back whole.
#[verifier::rlimit(40)]
#[verifier::spinoff_prover]
proof fn lemma_number_again(s: Seq<char>, i: int, depth: nat, literals: bool, before: Seq<char>)
    requires
        0 <= i < s.len(),
        crate::text::ascii_digit(s[i]),
    ensures
        ({
            let (e, j, d) = emitted(s, i, depth, literals);
            let x = before + e + rewritten_from(s, j, d, literals);
            number_end(x, before.len() as int) == before.len() + e.len()
        }),
{
    let (e, j, d) = emitted(s, i, depth, literals);
    let r = rewritten_from(s, j, d, literals);
    let x = before + e + r;
    let p = before.len() as int;
    let q = p + e.len();
    lemma_emitted(s, i, depth, literals);
    lemma_progress(s, i);
    lemma_first(s, j, d, literals);
    reveal_strlit("0x");
    reveal_strlit("0X");
    reveal_strlit(".0");
    assert(forall|k: int| 0 <= k < e.len() ==> x[p + k] == #[trigger] e[k]);
    assert(j < s.len() ==> q < x.len() && x[q] == r[0]);
    assert(j == s.len() ==> q == x.len());
    let number = s.subrange(i, j);
    assert(forall|k: int| 0 <= k < j - i ==> e[k] == #[trigger] s[i + k]) by {
        assert(forall|k: int| 0 <= k < j - i ==> number[k] == #[trigger] s[i + k]);
    }
    assert(forall|k: int| i <= k < j ==> x[k - i + p] == #[trigger] s[k]) by {
        assert forall|k: int| i <= k < j implies x[k - i + p] == #[trigger] s[k] by {
            assert(e[k - i] == s[i + (k - i)]);
            assert(x[p + (k - i)] == e[k - i]);
        }
    }
    if hex_literal_at(s, i) {
        crate::text::lemma_run_end(s, i + 2, Class::Hex);
        assert(s.subrange(i, i + 2)[0] == s[i] && s.subrange(i, i + 2)[1] == s[i + 1]);
        assert(!crate::text::ascii_digit(s[i + 1]));
        assert(!plain_integer(s, i));
        assert(e == number);
        assert(x[p] == s[i] && x[p + 1] == s[i + 1]);
        assert(x.subrange(p, p + 2) =~= s.subrange(i, i + 2));
        assert forall|k: int| p + 2 <= k < q implies crate::text::of_class(
            #[trigger] x[k],
            Class::Hex,
        ) by {
            assert(x[k] == s[k - p + i]);
        }
        lemma_run_is(x, p + 2, q, Class::Hex);
    } else {
        let dg = crate::text::run_end(s, i, Class::Digit);
        let f = fraction_end(s, i);
        let ex = exponent_end(s, f);
        crate::text::lemma_run_end(s, i, Class::Digit);
        if dg < s.len() {
            crate::text::lemma_run_end(s, dg + 1, Class::Digit);
        }
        crate::text::lemma_run_end(s, ex, Class::Suffix);
        if f + 1 < s.len() {
            crate::text::lemma_run_end(s, f + 1, Class::Digit);
            crate::text::lemma_run_end(s, f + 2, Class::Digit);
        }
        assert(!hex_literal_at(x, p)) by {
            if hex_literal_at(x, p) {
                assert(x.subrange(p, p + 2)[0] == x[p] && x.subrange(p, p + 2)[1] == x[p + 1]);
                assert(x[p] == s[i]);
                if i + 1 < s.len() {
                    if s[i] == '0' && s[i + 1] == 'x' {
                        assert(s.subrange(i, i + 2) =~= "0x"@);
                    }
                    if s[i] == '0' && s[i + 1] == 'X' {
                        assert(s.subrange(i, i + 2) =~= "0X"@);
                    }
                }
                if j > i + 1 {
                    assert(x[p + 1] == s[i + 1]);
                } else if e.len() > 1 {
                    assert(x[p + 1] == e[1]);
                }
            }
        }
        if e == number {
            let sh = p - i;
            assert forall|k: int| p <= k < dg + sh implies crate::text::of_class(
                #[trigger] x[k],
                Class::Digit,
            ) by {
                assert(x[k] == s[k - sh]);
            }
            assert(dg < j ==> x[dg + sh] == s[dg]);
            lemma_run_is(x, p, dg + sh, Class::Digit);
            if dg < s.len() && s[dg] == '.' {
                assert forall|k: int| dg + 1 + sh <= k < f + sh implies crate::text::of_class(
                    #[trigger] x[k],
                    Class::Digit,
                ) by {
                    assert(x[k] == s[k - sh]);
                }
                assert(f < j ==> x[f + sh] == s[f]);
                lemma_run_is(x, dg + 1 + sh, f + sh, Class::Digit);
            }
            assert(fraction_end(x, p) == f + sh);
            if ex > f {
                assert(x[f + sh] == s[f]);
                assert(x[f + 1 + sh] == s[f + 1]);
                let k0 = if s[f + 1] == '+' || s[f + 1] == '-' {
                    f + 2
                } else {
                    f + 1
                };
                assert(x[k0 + sh] == s[k0]);
                crate::text::lemma_run_end(s, k0, Class::Digit);
                assert forall|k: int| k0 + sh <= k < ex + sh implies crate::text::of_class(
                    #[trigger] x[k],
                    Class::Digit,
                ) by {
                    assert(x[k] == s[k - sh]);
                }
                assert(ex < j ==> x[ex + sh] == s[ex]);
                lemma_run_is(x, k0 + sh, ex + sh, Class::Digit);
            } else if f < j {
                assert(x[f + sh] == s[f]);
                assert(crate::text::of_class(s[f], Class::Suffix));
            } else {
                lemma_no_exponent(s, j, d, literals, before + e);
            }
            assert(exponent_end(x, f + sh) == ex + sh);
            assert forall|k: int| ex + sh <= k < q implies crate::text::of_class(
                #[trigger] x[k],
                Class::Suffix,
            ) by {
                assert(x[k] == s[k - sh]);
            }
            lemma_run_is(x, ex + sh, q, Class::Suffix);
        } else {
            assert(plain_integer(s, i));
            assert(e == number + ".0"@);
            if dg < j {
                assert(crate::text::ascii_digit(s[dg]));
            }
            assert(dg == j && f == j && ex == j);
            let n = j - i;
            assert(e[n] == '.' && e[n + 1] == '0');
            assert(x[p + n] == '.' && x[p + n + 1] == '0');
            assert forall|k: int| p <= k < p + n implies crate::text::of_class(
                #[trigger] x[k],
                Class::Digit,
            ) by {
                assert(x[k] == s[k - p + i]);
            }
            lemma_run_is(x, p, p + n, Class::Digit);
            lemma_run_is(x, p + n + 1, q, Class::Digit);
            assert(fraction_end(x, p) == q);
            lemma_no_exponent(s, j, d, literals, before + e);
            lemma_run_is(x, q, q, Class::Suffix);
        }
    }
}

/// Rewriting what was rewritten changes nothing, whether literals are rewritten again
/// or not.
#[verifier::rlimit(50)]
#[verifier::spinoff_prover]
proof fn lemma_again_from(
    s: Seq<char>,
    i: int,
    depth: nat,
    literals: bool,
    again: bool,
    before: Seq<char>,
)
    requires
        0 <= i <= s.len(),
        again ==> literals,
        i < s.len() && crate::text::ascii_digit(s[i]) ==> (before.len() > 0 && before.last() == '.')
            == (i > 0 && s[i - 1] == '.'),
    ensures
        rewritten_from(
            before + rewritten_from(s, i, depth, literals),
            before.len() as int,
            depth,
            again,
        ) == rewritten_from(s, i, depth, literals),
    decreases s.len() - i,
{
    let r = rewritten_from(s, i, depth, literals);
    let x = before + r;
    let p = before.len() as int;
    if i < s.len() {
        let (e, j, d) = emitted(s, i, depth, literals);
        let later = rewritten_from(s, j, d, literals);
        lemma_emitted(s, i, depth, literals);
        lemma_progress(s, i);
        lemma_first(s, j, d, literals);
        assert(x =~= before + e + later);
        assert(forall|k: int| 0 <= k < e.len() ==> x[p + k] == #[trigger] e[k]);
        assert(x[p] == e[0]);
        let c = s[i];
        let word = crate::text::ascii_letter(c) || c == '_';
        let digit = crate::text::ascii_digit(c);
        let w = s.subrange(i, j);
        if word {
            crate::text::lemma_run_end(s, i, Class::Word);
            reveal_strlit("sample");
            reveal_strlit("wp_sample");
            reveal_strlit("fmod");
            reveal_strlit("mod");
            assert(forall|k: int| 0 <= k < w.len() ==> w[k] == #[trigger] s[i + k]);
            assert forall|k: int| 0 <= k < e.len() implies crate::text::of_class(
                #[trigger] e[k],
                Class::Word,
            ) by {
                if e == w {
                    assert(e[k] == s[i + k]);
                }
            }
            assert forall|k: int| p <= k < p + e.len() implies crate::text::of_class(
                #[trigger] x[k],
                Class::Word,
            ) by {
                assert(x[p + (k - p)] == e[k - p]);
            }
            assert(j < s.len() ==> x[p + e.len()] == later[0]);
            lemma_run_is(x, p, p + e.len(), Class::Word);
            assert(x.subrange(p, p + e.len()) =~= e);
            assert(renamed(e) == e);
        } else if digit {
            lemma_number_again(s, i, depth, literals, before);
            assert(x.subrange(p, p + e.len()) =~= e);
            assert(p > 0 ==> x[p - 1] == before.last());
            assert(number_text(x, p, depth, again) == e) by {
                if e == w {
                    if !plain_integer(s, i) {
                        let k = choose|k: int|
                            i <= k < number_end(s, i) && !crate::text::ascii_digit(#[trigger] s[k]);
                        assert(w[k - i] == s[k]);
                        assert(x[p + (k - i)] == e[k - i]);
                        assert(!plain_integer(x, p));
                    }
                } else {
                    reveal_strlit(".0");
                    assert(e == w + ".0"@);
                    assert(e[w.len() as int] == '.');
                    assert(x[p + w.len()] == '.');
                    assert(!plain_integer(x, p));
                }
            }
        }
        let next = before + e;
        if j < s.len() && crate::text::ascii_digit(s[j]) {
            assert(next.last() == e.last());
            if word {
                assert(crate::text::of_class(s[j], Class::Word));
            } else if digit && e != w {
                reveal_strlit(".0");
                assert(e.last() == '0');
                assert(crate::text::ascii_digit(s[j - 1]));
            } else if digit {
                assert(e.last() == s[j - 1]);
            }
        }
        lemma_again_from(s, j, d, literals, again, next);
        assert(next.len() == p + e.len());
        let got = emitted(x, p, depth, again);
        assert(got.0 == e && got.1 == p + e.len() && got.2 == d);
        lemma_emitted(x, p, depth, again);
    } else {
        assert(x =~= before);
    }
}

/// A type's word is still there once code is rewritten and its literals are not.
proof fn lemma_type_word_kept(
    s: Seq<char>,
    i: int,
    depth: nat,
    before: Seq<char>,
    w: Seq<char>,
    at: int,
)
    requires
        0 <= i <= at,
        w == "int"@ || w == "uint"@,
        type_word_at(s, w, at),
        i == at ==> before.len() == 0 || !crate::text::name_char(before.last()),
    ensures
        integer_declared(before + rewritten_from(s, i, depth, false)),
    decreases s.len() - i,
{
    reveal_strlit("int");
    reveal_strlit("uint");
    reveal_strlit("sample");
    reveal_strlit("fmod");
    let n = w.len() as int;
    let (e, j, d) = emitted(s, i, depth, false);
    let later = rewritten_from(s, j, d, false);
    lemma_emitted(s, i, depth, false);
    lemma_progress(s, i);
    lemma_first(s, j, d, false);
    let x = before + rewritten_from(s, i, depth, false);
    let p = before.len() as int;
    assert(x =~= before + e + later);
    assert(forall|k: int| 0 <= k < n ==> #[trigger] s.subrange(at, at + n)[k] == s[at + k]);
    assert(s[at] == w[0] && s[at + 1] == w[1] && s[at + 2] == w[2]);
    assert(n == 4 ==> s[at + 3] == w[3]);
    if i == at {
        lemma_run_is(s, at, at + n, Class::Word);
        assert(s.subrange(at, at + n) == w);
        assert(e == w && j == at + n);
        assert(later[0] == s[j]);
        assert(x.subrange(p, p + n) =~= w);
        assert(x[p + n] == later[0]);
        assert(p > 0 ==> x[p - 1] == before.last());
        assert(type_word_at(x, w, p));
    } else if j <= at {
        if j == at {
            let c = s[i];
            if crate::text::ascii_letter(c) || c == '_' {
                crate::text::lemma_run_end(s, i, Class::Word);
                assert(crate::text::of_class(s[j - 1], Class::Word));
            } else if crate::text::ascii_digit(c) {
                assert(e =~= s.subrange(i, j));
                assert(e.last() == s[j - 1]);
            } else {
                assert(e.last() == s[j - 1]);
            }
            assert((before + e).last() == e.last());
        }
        lemma_type_word_kept(s, j, d, before + e, w, at);
    } else {
        // The word begins within a literal: behind its point, with a suffix.
        let c = s[i];
        assert(!crate::text::name_char(s[at - 1]));
        if crate::text::ascii_letter(c) || c == '_' {
            crate::text::lemma_run_end(s, i, Class::Word);
            assert(crate::text::of_class(s[at - 1], Class::Word));
        } else {
            assert(crate::text::ascii_digit(c));
            assert(e =~= s.subrange(i, j));
            if hex_literal_at(s, i) {
                reveal_strlit("0x");
                reveal_strlit("0X");
                crate::text::lemma_run_end(s, i + 2, Class::Hex);
                assert(s.subrange(i, i + 2)[0] == s[i] && s.subrange(i, i + 2)[1] == s[i + 1]);
                if at - 1 >= i + 2 {
                    assert(crate::text::of_class(s[at - 1], Class::Hex));
                }
                assert(false);
            } else {
                let dg = crate::text::run_end(s, i, Class::Digit);
                let f = fraction_end(s, i);
                let ex = exponent_end(s, f);
                crate::text::lemma_run_end(s, i, Class::Digit);
                if dg < s.len() {
                    crate::text::lemma_run_end(s, dg + 1, Class::Digit);
                }
                crate::text::lemma_run_end(s, ex, Class::Suffix);
                if f + 1 < s.len() {
                    crate::text::lemma_run_end(s, f + 1, Class::Digit);
                    crate::text::lemma_run_end(s, f + 2, Class::Digit);
                }
                assert(at - 1 >= i);
                if at - 1 < dg {
                    assert(crate::text::of_class(s[at - 1], Class::Digit));
                    assert(false);
                } else if at - 1 > dg && at - 1 < f {
                    assert(crate::text::of_class(s[at - 1], Class::Digit));
                    assert(false);
                } else if at - 1 >= ex {
                    assert(crate::text::of_class(s[at - 1], Class::Suffix));
                    assert(false);
                } else if at - 1 >= f {
                    if at - 1 == f {
                    } else if at - 1 == f + 1 && (s[f + 1] == '+' || s[f + 1] == '-') {
                        assert(crate::text::of_class(s[f + 2], Class::Digit));
                    } else {
                        assert(crate::text::of_class(s[at - 1], Class::Digit));
                    }
                    assert(false);
                }
                assert(at == dg + 1 && s[dg] == '.');
                if at < f {
                    assert(crate::text::of_class(s[at], Class::Digit));
                }
                assert(f == at && ex == at);
                assert(crate::text::of_class(s[at], Class::Suffix));
                assert(w == "uint"@);
                if j > at + 1 {
                    assert(crate::text::of_class(s[at + 1], Class::Suffix));
                }
                assert(j == at + 1);
                lemma_run_is(s, j, j + 3, Class::Word);
                let inner = s.subrange(j, j + 3);
                assert(inner =~= "int"@);
                lemma_emitted(s, j, d, false);
                let last = rewritten_from(s, j + 3, d, false);
                lemma_first(s, j + 3, d, false);
                assert(later == inner + last);
                let o = p + e.len() - 1;
                assert(e[e.len() - 1] == s[at] && e[e.len() - 2] == s[dg]);
                assert(x[o] == e[e.len() - 1] && x[o - 1] == e[e.len() - 2]);
                assert(x[o + 1] == later[0] && x[o + 2] == later[1] && x[o + 3] == later[2]);
                assert(x[o + 4] == later[3] && later[3] == last[0]);
                assert(x.subrange(o, o + 4) =~= w);
                assert(type_word_at(x, w, o));
            }
        }
    }
}

/// A promoted declaration declares an integer where the line did.
proof fn lemma_promoted_declares(code: Seq<char>, tail: Seq<char>)
    requires
        integer_declared(code),
    ensures
        integer_declared(int_promoted(code, tail)),
{
    let lead = crate::text::run_end(code, 0, Class::Space);
    crate::text::lemma_run_end(code, 0, Class::Space);
    let c = int_promoted(code, tail);
    reveal_strlit("uniform float");
    reveal_strlit("int");
    reveal_strlit("uint");
    if c != code {
        let shown = code.subrange(lead, lead + 13);
        assert(forall|k: int| 0 <= k < 13 ==> #[trigger] shown[k] == code[lead + k]);
        assert(shown == "uniform float"@);
        assert(shown[0] == 'u' && shown[1] == 'n' && shown[2] == 'i' && shown[3] == 'f' && shown[4]
            == 'o' && shown[5] == 'r' && shown[6] == 'm' && shown[7] == ' ' && shown[8] == 'f'
            && shown[9] == 'l' && shown[10] == 'o' && shown[11] == 'a' && shown[12] == 't');
        assert(code[lead] == 'u' && code[lead + 1] == 'n' && code[lead + 2] == 'i' && code[lead + 3]
            == 'f' && code[lead + 4] == 'o' && code[lead + 5] == 'r' && code[lead + 6] == 'm'
            && code[lead + 7] == ' ' && code[lead + 8] == 'f' && code[lead + 9] == 'l' && code[lead
            + 10] == 'o' && code[lead + 11] == 'a' && code[lead + 12] == 't');
        let i = choose|i: int|
            type_word_at(code, "int"@, i) || type_word_at(code, "uint"@, i);
        let w = if type_word_at(code, "int"@, i) {
            "int"@
        } else {
            "uint"@
        };
        let n = w.len() as int;
        let here = code.subrange(i, i + n);
        assert(here == w);
        assert(here[0] == code[i] && here[1] == code[i + 1]);
        if i < lead {
            assert(crate::text::of_class(code[i], Class::Space));
            assert(false);
        }
        assert(i >= lead + 13);
        assert(c.subrange(i - 2, i - 2 + n) =~= here);
        assert(c[i - 3] == code[i - 1]);
        assert(c[i - 2 + n] == code[i + n]);
        assert(type_word_at(c, w, i - 2));
    }
}

/// The white space that code begins with is left as it is.
proof fn lemma_lead_kept(s: Seq<char>, i: int, literals: bool)
    requires
        0 <= i <= crate::text::run_end(s, 0, Class::Space),
    ensures
        rewritten(s, literals) == s.take(i) + rewritten_from(s, i, 0, literals),
    decreases i,
{
    crate::text::lemma_run_end(s, 0, Class::Space);
    if i == 0 {
        assert(s.take(0) + rewritten(s, literals) =~= rewritten(s, literals));
    } else {
        lemma_lead_kept(s, i - 1, literals);
        lemma_emitted(s, i - 1, 0, literals);
        assert(crate::text::of_class(s[i - 1], Class::Space));
        let later = rewritten_from(s, i, 0, literals);
        assert(s.take(i - 1) + (seq![s[i - 1]] + later) =~= s.take(i) + later);
    }
}

/// Where rewritten code begins, behind its white space.
proof fn lemma_lead_again(s: Seq<char>, literals: bool)
    ensures
        ({
            let lead = crate::text::run_end(s, 0, Class::Space);
            let r = rewritten(s, literals);
            &&& 0 <= lead <= s.len()
            &&& r == s.take(lead) + rewritten_from(s, lead, 0, literals)
            &&& crate::text::run_end(r, 0, Class::Space) == lead
        }),
{
    let lead = crate::text::run_end(s, 0, Class::Space);
    let r = rewritten(s, literals);
    crate::text::lemma_run_end(s, 0, Class::Space);
    lemma_lead_kept(s, lead, literals);
    lemma_first(s, lead, 0, literals);
    assert forall|k: int| 0 <= k < lead implies crate::text::of_class(
        #[trigger] r[k],
        Class::Space,
    ) by {
        assert(r[k] == s[k]);
    }
    if lead < s.len() {
        assert(r[lead] == rewritten_from(s, lead, 0, literals)[0]);
    }
    lemma_run_is(r, 0, lead, Class::Space);
}

/// Code that was promoted is not promoted again once it is rewritten.
proof fn lemma_promoted_again(code: Seq<char>, tail: Seq<char>, literals: bool)
    ensures
        int_promoted(rewritten(int_promoted(code, tail), literals), tail) == rewritten(
            int_promoted(code, tail),
            literals,
        ),
{
    let c = int_promoted(code, tail);
    let r = rewritten(c, literals);
    let lead = crate::text::run_end(c, 0, Class::Space);
    lemma_lead_again(c, literals);
    crate::text::lemma_run_end(code, 0, Class::Space);
    reveal_strlit("uniform float");
    reveal_strlit("int");
    reveal_strlit("sample");
    reveal_strlit("wp_sample");
    reveal_strlit("fmod");
    reveal_strlit("mod");
    let text = "uniform float"@;
    if crate::text::occurs_at(r, text, lead) && marked_int(tail) {
        let t = rewritten_from(c, lead, 0, literals);
        assert(forall|k: int| 0 <= k < 13 ==> #[trigger] r.subrange(lead, lead + 13)[k] == r[lead
            + k]);
        assert(forall|k: int| 0 <= k < t.len() ==> r[lead + k] == #[trigger] t[k]);
        assert(t.len() >= 13);
        assert forall|k: int| 0 <= k < 13 implies #[trigger] t[k] == text[k] by {
            assert(r.subrange(lead, lead + 13)[k] == r[lead + k]);
        }
        lemma_first(c, lead, 0, literals);
        assert(c[lead] == 'u');
        lemma_word_read(c, lead, 0, literals, 7);
        assert(c.subrange(lead, lead + 7) =~= t.take(7));
        let u = rewritten_from(c, lead + 7, 0, literals);
        assert(t[7] == u[0]);
        lemma_first(c, lead + 7, 0, literals);
        assert(c[lead + 7] == ' ');
        lemma_emitted(c, lead + 7, 0, literals);
        let v = rewritten_from(c, lead + 8, 0, literals);
        assert(u == seq![' '] + v);
        assert forall|k: int| 0 <= k < 5 implies #[trigger] v[k] == text[8 + k] by {
            assert(u[k + 1] == v[k]);
            assert(t[k + 8] == u[k + 1]);
        }
        lemma_first(c, lead + 8, 0, literals);
        assert(c[lead + 8] == 'f');
        lemma_emitted(c, lead + 8, 0, literals);
        lemma_progress(c, lead + 8);
        crate::text::lemma_run_end(c, lead + 8, Class::Word);
        let j = crate::text::run_end(c, lead + 8, Class::Word);
        let word = c.subrange(lead + 8, j);
        let e = renamed(word);
        let later = rewritten_from(c, j, 0, literals);
        lemma_first(c, j, 0, literals);
        assert(v == e + later);
        assert(v[0] == e[0]);
        assert(e == word);
        if e.len() < 5 {
            assert(crate::text::of_class(v[e.len() as int], Class::Word)) by {
                assert(v[e.len() as int] == text[8 + e.len() as int]);
            }
            assert(v[e.len() as int] == later[0]);
            assert(false);
        }
        assert forall|k: int| 0 <= k < 5 implies #[trigger] c[lead + 8 + k] == text[8 + k] by {
            assert(word[k] == c[lead + 8 + k]);
            assert(v[k] == e[k]);
        }
        assert forall|k: int| 0 <= k < 13 implies #[trigger] c[lead + k] == text[k] by {
            if k < 7 {
                assert(c.subrange(lead, lead + 7)[k] == c[lead + k]);
                assert(t.take(7)[k] == t[k]);
            } else if k > 7 {
                assert(c[lead + 8 + (k - 8)] == text[8 + (k - 8)]);
            }
        }
        assert(c.subrange(lead, lead + 13) =~= text);
        assert(crate::text::occurs_at(c, text, lead));
        // Then the line was promoted, and there is `int` in that place.
        let first = crate::text::run_end(code, 0, Class::Space);
        if crate::text::occurs_at(code, text, first) {
            let shown = code.subrange(first, first + 13);
            assert(shown[0] == code[first]);
            assert(c[first] == code[first]);
            assert forall|k: int| 0 <= k < first implies crate::text::of_class(
                #[trigger] c[k],
                Class::Space,
            ) by {
                assert(c[k] == code[k]);
            }
            lemma_run_is(c, 0, first, Class::Space);
            assert(c[lead + 8] == 'i');
        }
        assert(false);
    }
}

/// A word that stands at the front of rewritten code, with no letter behind it, stood
/// at the front of the code.
proof fn lemma_word_read(s: Seq<char>, i: int, depth: nat, literals: bool, n: int)
    requires
        0 <= i < s.len(),
        n == 7,
        ({
            let t = rewritten_from(s, i, depth, literals);
            &&& t.len() > n
            &&& t.take(n) =~= seq!['u', 'n', 'i', 'f', 'o', 'r', 'm']
            &&& t[n] == ' '
        }),
        s[i] == 'u',
    ensures
        i + n <= s.len(),
        s.subrange(i, i + n) == rewritten_from(s, i, depth, literals).take(n),
        rewritten_from(s, i, depth, literals) == s.subrange(i, i + n) + rewritten_from(
            s,
            i + n,
            depth,
            literals,
        ),
{
    let t = rewritten_from(s, i, depth, literals);
    lemma_emitted(s, i, depth, literals);
    lemma_progress(s, i);
    crate::text::lemma_run_end(s, i, Class::Word);
    let j = crate::text::run_end(s, i, Class::Word);
    let word = s.subrange(i, j);
    let e = renamed(word);
    let later = rewritten_from(s, j, depth, literals);
    lemma_first(s, j, depth, literals);
    reveal_strlit("sample");
    reveal_strlit("wp_sample");
    reveal_strlit("fmod");
    reveal_strlit("mod");
    assert(t == e + later);
    assert(word[0] == 'u');
    assert(e == word);
    assert(forall|k: int| 0 <= k < word.len() ==> word[k] == #[trigger] s[i + k]);
    if e.len() < n {
        assert(t.take(n)[e.len() as int] == t[e.len() as int]);
        assert(t[e.len() as int] == later[0]);
        assert(crate::text::of_class(later[0], Class::Word));
        assert(false);
    }
    if e.len() > n {
        assert(t[n] == e[n]);
        assert(e[n] == s[i + n]);
        assert(crate::text::of_class(s[i + n], Class::Word));
        assert(false);
    }
    assert(t.take(n) =~= word);
}

/// Whether a comment begins at `k`.
spec fn comment_at(s: Seq<char>, k: int) -> bool {
    0 <= k && k + 1 < s.len() && s[k] == '/' && (s[k + 1] == '/' || s[k + 1] == '*')
}

/// A character that neither a word nor a number holds.
spec fn sign(c: char) -> bool {
    c == '/' || c == '*' || c == '\n' || c == '\r'
}

/// What a word or a number becomes holds none of these characters.
proof fn lemma_plain_emitted(s: Seq<char>, i: int, depth: nat, literals: bool)
    requires
        0 <= i < s.len(),
    ensures
        ({
            let (e, j, d) = emitted(s, i, depth, literals);
            (forall|k: int| 0 <= k < e.len() ==> !sign(#[trigger] e[k])) || (e == seq![s[i]] && j == i
                + 1)
        }),
{
    let (e, j, d) = emitted(s, i, depth, literals);
    lemma_progress(s, i);
    let c = s[i];
    if crate::text::ascii_letter(c) || c == '_' {
        crate::text::lemma_run_end(s, i, Class::Word);
        reveal_strlit("wp_sample");
        reveal_strlit("mod");
        let w = s.subrange(i, j);
        assert forall|k: int| 0 <= k < e.len() implies !sign(#[trigger] e[k]) by {
            if e == w {
                assert(w[k] == s[i + k]);
                assert(crate::text::of_class(s[i + k], Class::Word));
            }
        }
    } else if crate::text::ascii_digit(c) {
        reveal_strlit(".0");
        let w = s.subrange(i, j);
        lemma_number_plain(s, i);
        assert forall|k: int| 0 <= k < e.len() implies !sign(#[trigger] e[k]) by {
            if k < w.len() {
                assert(e[k] == w[k]);
                assert(w[k] == s[i + k]);
            }
        }
    }
}

proof fn lemma_number_plain(s: Seq<char>, i: int)
    requires
        0 <= i < s.len(),
        crate::text::ascii_digit(s[i]),
    ensures
        forall|k: int| i <= k < number_end(s, i) ==> !sign(#[trigger] s[k]),
{
    lemma_progress(s, i);
    if hex_literal_at(s, i) {
        reveal_strlit("0x");
        reveal_strlit("0X");
        crate::text::lemma_run_end(s, i + 2, Class::Hex);
        assert(s.subrange(i, i + 2)[0] == s[i] && s.subrange(i, i + 2)[1] == s[i + 1]);
    } else {
        let dg = crate::text::run_end(s, i, Class::Digit);
        let f = fraction_end(s, i);
        let ex = exponent_end(s, f);
        crate::text::lemma_run_end(s, i, Class::Digit);
        if dg < s.len() {
            crate::text::lemma_run_end(s, dg + 1, Class::Digit);
        }
        if f + 1 < s.len() {
            crate::text::lemma_run_end(s, f + 1, Class::Digit);
            crate::text::lemma_run_end(s, f + 2, Class::Digit);
        }
        crate::text::lemma_run_end(s, ex, Class::Suffix);
        assert forall|k: int| i <= k < number_end(s, i) implies !sign(#[trigger] s[k]) by {
            if k < dg {
                assert(crate::text::of_class(s[k], Class::Digit));
            } else if k < f {
                if k > dg {
                    assert(crate::text::of_class(s[k], Class::Digit));
                }
            } else if k < ex {
                if k >= f + 2 || (k == f + 1 && s[k] != '+' && s[k] != '-') {
                    assert(crate::text::of_class(s[k], Class::Digit));
                }
            } else {
                assert(crate::text::of_class(s[k], Class::Suffix));
            }
        }
    }
}

/// Rewriting begins no comment and no line that was not there, and ends in a slash
/// only where the code does.
proof fn lemma_signs_kept(s: Seq<char>, i: int, depth: nat, literals: bool, k: int)
    requires
        0 <= i <= s.len(),
        0 <= k < rewritten_from(s, i, depth, literals).len(),
    ensures
        ({
            let r = rewritten_from(s, i, depth, literals);
            &&& comment_at(r, k) ==> exists|m: int| i <= m && #[trigger] comment_at(s, m)
            &&& sign(r[k]) ==> s.contains(r[k])
            &&& r.last() == '/' ==> s.last() == '/'
        }),
    decreases s.len() - i,
{
    let r = rewritten_from(s, i, depth, literals);
    lemma_first(s, i, depth, literals);
    if i < s.len() {
        let (e, j, d) = emitted(s, i, depth, literals);
        let later = rewritten_from(s, j, d, literals);
        lemma_emitted(s, i, depth, literals);
        lemma_plain_emitted(s, i, depth, literals);
        lemma_first(s, j, d, literals);
        assert(r == e + later);
        if k < e.len() {
            assert(r[k] == e[k]);
            if e == seq![s[i]] {
                assert(s.contains(s[i]));
                if comment_at(r, k) {
                    assert(r[1] == later[0]);
                    assert(comment_at(s, i));
                }
            } else if comment_at(r, k) {
                assert(sign(e[k]));
            }
        } else {
            assert(r[k] == later[k - e.len()]);
            lemma_signs_kept(s, j, d, literals, k - e.len());
            if comment_at(r, k) {
                assert(r[k + 1] == later[k + 1 - e.len()]);
                assert(comment_at(later, k - e.len()));
                let m = choose|m: int| j <= m && #[trigger] comment_at(s, m);
                assert(i <= m && comment_at(s, m));
            }
        }
        if r.last() == '/' {
            if later.len() == 0 {
                assert(r.last() == e.last());
                assert(sign(e.last()));
                assert(e == seq![s[i]]);
                assert(s.last() == s[i]);
            } else {
                assert(r.last() == later.last());
                lemma_signs_kept(s, j, d, literals, 0);
            }
        }
    }
}

/// Where the first comment of a line begins.
proof fn lemma_comment_start(line: Seq<char>)
    ensures
        0 <= comment_start(line) <= line.len(),
        forall|k: int| 0 <= k < comment_start(line) ==> !#[trigger] comment_at(line, k),
        comment_start(line) < line.len() ==> comment_at(line, comment_start(line)),
{
    reveal_strlit("//");
    reveal_strlit("/*");
    crate::text::lemma_find_from(line, "//"@, 0);
    crate::text::lemma_find_from(line, "/*"@, 0);
    assert forall|k: int| 0 <= k && k + 1 < line.len() implies (crate::text::occurs_at(line, "//"@, k)
        || crate::text::occurs_at(line, "/*"@, k)) == #[trigger] comment_at(line, k) by {
        let two = line.subrange(k, k + 2);
        assert(two[0] == line[k] && two[1] == line[k + 1]);
        if line[k] == '/' && line[k + 1] == '/' {
            assert(two =~= "//"@);
        }
        if line[k] == '/' && line[k + 1] == '*' {
            assert(two =~= "/*"@);
        }
    }
    let c = comment_start(line);
    if c < line.len() {
        assert(comment_at(line, c));
    }
}

/// The first comment is where one begins and none before.
proof fn lemma_comment_start_is(line: Seq<char>, c: int)
    requires
        0 <= c <= line.len(),
        forall|k: int| 0 <= k < c ==> !#[trigger] comment_at(line, k),
        c < line.len() ==> comment_at(line, c),
    ensures
        comment_start(line) == c,
{
    lemma_comment_start(line);
    let b = comment_start(line);
    if b < c {
        assert(comment_at(line, b));
    }
    if c < b {
        assert(comment_at(line, c));
    }
}

/// What a line of code becomes, without its end.
spec fn line_rewritten(line: Seq<char>) -> Seq<char> {
    let code = line.take(comment_start(line));
    let tail = line.skip(comment_start(line));
    rewritten(int_promoted(code, tail), !integer_declared(code)) + tail
}

/// Promotion begins no comment and no line, and ends in a slash only where the code
/// does.
proof fn lemma_signs_promoted(code: Seq<char>, tail: Seq<char>)
    ensures
        ({
            let c = int_promoted(code, tail);
            &&& forall|k: int| #[trigger]
                comment_at(c, k) ==> exists|m: int| #[trigger] comment_at(code, m)
            &&& forall|x: char| sign(x) && #[trigger] c.contains(x) ==> code.contains(x)
            &&& c.len() > 0 && c.last() == '/' ==> code.len() > 0 && code.last() == '/'
        }),
{
    let c = int_promoted(code, tail);
    let lead = crate::text::run_end(code, 0, Class::Space);
    crate::text::lemma_run_end(code, 0, Class::Space);
    reveal_strlit("uniform float");
    reveal_strlit("int");
    if c != code {
        assert(c[lead + 8] == 'i' && c[lead + 9] == 'n' && c[lead + 10] == 't');
        assert forall|k: int| #[trigger] comment_at(c, k) implies exists|m: int| #[trigger]
            comment_at(code, m) by {
            if k < lead + 8 {
                assert(c[k] == code[k]);
                if k + 1 < lead + 8 {
                    assert(c[k + 1] == code[k + 1]);
                }
                assert(comment_at(code, k));
            } else {
                assert(k >= lead + 11);
                assert(c[k] == code[k + 2] && c[k + 1] == code[k + 3]);
                assert(comment_at(code, k + 2));
            }
        }
        assert forall|x: char| sign(x) && #[trigger] c.contains(x) implies code.contains(x) by {
            let k = choose|k: int| 0 <= k < c.len() && c[k] == x;
            if k < lead + 8 {
                assert(code[k] == x);
            } else {
                assert(code[k + 2] == x);
            }
        }
        if c.last() == '/' {
            assert(c.len() > lead + 11);
            assert(c.last() == code.last());
        }
    }
}

/// A line of code that was rewritten has its comment in the same place behind its code.
proof fn lemma_line_parts(line: Seq<char>)
    ensures
        ({
            let cut = comment_start(line);
            let code = line.take(cut);
            let tail = line.skip(cut);
            let body = rewritten(int_promoted(code, tail), !integer_declared(code));
            let out = line_rewritten(line);
            &&& out == body + tail
            &&& comment_start(out) == body.len()
            &&& out.take(body.len() as int) == body
            &&& out.skip(body.len() as int) == tail
            &&& forall|x: char| sign(x) && #[trigger] out.contains(x) ==> line.contains(x)
        }),
{
    let cut = comment_start(line);
    let code = line.take(cut);
    let tail = line.skip(cut);
    let c = int_promoted(code, tail);
    let literals = !integer_declared(code);
    let body = rewritten(c, literals);
    let out = body + tail;
    lemma_comment_start(line);
    lemma_signs_promoted(code, tail);
    assert(out.take(body.len() as int) =~= body);
    assert(out.skip(body.len() as int) =~= tail);
    assert forall|k: int| 0 <= k < body.len() implies !#[trigger] comment_at(out, k) by {
        if comment_at(out, k) {
            assert(out[k] == body[k]);
            lemma_signs_kept(c, 0, 0, literals, k);
            if k + 1 < body.len() {
                assert(out[k + 1] == body[k + 1]);
                assert(comment_at(body, k));
                let m = choose|m: int| 0 <= m && #[trigger] comment_at(c, m);
                assert(comment_at(c, m));
                let n = choose|n: int| #[trigger] comment_at(code, n);
                assert(line[n] == code[n] && line[n + 1] == code[n + 1]);
                assert(comment_at(line, n));
            } else {
                assert(body.last() == '/');
                lemma_first(c, 0, 0, literals);
                assert(c.last() == '/');
                assert(code.last() == '/');
                assert(out[k + 1] == tail[0]);
                assert(tail[0] == line[cut]);
                assert(comment_at(line, cut));
                assert(line[cut - 1] == code.last());
                assert(comment_at(line, cut - 1));
            }
        }
    }
    if tail.len() > 0 {
        assert(comment_at(line, cut));
        assert(out[body.len() as int] == tail[0] && tail[0] == line[cut]);
        assert(out[body.len() as int + 1] == tail[1] && tail[1] == line[cut + 1]);
        assert(comment_at(out, body.len() as int));
    }
    lemma_comment_start_is(out, body.len() as int);
    assert forall|x: char| sign(x) && #[trigger] out.contains(x) implies line.contains(x) by {
        let k = choose|k: int| 0 <= k < out.len() && out[k] == x;
        if k < body.len() {
            lemma_signs_kept(c, 0, 0, literals, k);
            assert(c.contains(x));
            assert(code.contains(x));
            let m = choose|m: int| 0 <= m < code.len() && code[m] == x;
            assert(line[m] == x);
        } else {
            assert(line[k - body.len() + cut] == x);
        }
    }
}

/// A line of code that was rewritten stays as it is, and leaves the comments and the
/// macros behind it as the line did.
#[verifier::spinoff_prover]
#[verifier::rlimit(50)]
proof fn lemma_line_again(line: Seq<char>, defined: Seq<Seq<char>>)
    requires
        !is_directive(line),
    ensures
        ({
            let out = line_rewritten(line);
            &&& line_text(line, false, defined) == ended(out)
            &&& line_text(out, false, defined) == ended(out)
            &&& comment_after(out, false) == comment_after(line, false)
            &&& defined_after(out, false, defined) == defined_after(line, false, defined)
            &&& forall|x: char| sign(x) && #[trigger] out.contains(x) ==> line.contains(x)
        }),
{
    let cut = comment_start(line);
    let code = line.take(cut);
    let tail = line.skip(cut);
    let c = int_promoted(code, tail);
    let literals = !integer_declared(code);
    let body = rewritten(c, literals);
    let out = line_rewritten(line);
    lemma_comment_start(line);
    lemma_line_parts(line);
    let again = !integer_declared(body);
    if integer_declared(code) {
        lemma_promoted_declares(code, tail);
        let i = choose|i: int| type_word_at(c, "int"@, i) || type_word_at(c, "uint"@, i);
        let none = Seq::<char>::empty();
        if type_word_at(c, "int"@, i) {
            lemma_type_word_kept(c, 0, 0, none, "int"@, i);
        } else {
            lemma_type_word_kept(c, 0, 0, none, "uint"@, i);
        }
        assert(none + body =~= body);
    }
    lemma_promoted_again(code, tail, literals);
    lemma_again_from(c, 0, 0, literals, again, Seq::empty());
    assert(Seq::<char>::empty() + body =~= body);
    assert(rewritten(body, again) == body);
    // No directive begins behind the white space.
    reveal_strlit("#");
    let first = crate::text::run_end(code, 0, Class::Space);
    let lead = crate::text::run_end(c, 0, Class::Space);
    crate::text::lemma_run_end(code, 0, Class::Space);
    lemma_lead_again(c, literals);
    lemma_first(c, lead, 0, literals);
    assert(!is_directive(out)) by {
        let t = crate::text::trimmed_start(body);
        if crate::text::begins_with(t, "#"@) {
            assert(t.subrange(0, 1)[0] == t[0]);
            assert(t[0] == body[lead]);
            assert(body[lead] == rewritten_from(c, lead, 0, literals)[0]);
            assert(c[lead] == '#');
            if c != code {
                reveal_strlit("uniform float");
                let shown = code.subrange(first, first + 13);
                assert(shown[0] == code[first]);
                assert(c[first] == code[first]);
                assert forall|k: int| 0 <= k < first implies crate::text::of_class(
                    #[trigger] c[k],
                    Class::Space,
                ) by {
                    assert(c[k] == code[k]);
                }
                lemma_run_is(c, 0, first, Class::Space);
                assert(false);
            }
            let u = crate::text::trimmed_start(code);
            assert(u[0] == code[first]);
            assert(u.subrange(0, 1) =~= "#"@);
            assert(is_directive(line));
        }
    }
    // The comments behind the code are the same.
    reveal_strlit("/*");
    if cut < line.len() {
        assert(tail.len() >= 2);
        assert(line.subrange(cut, cut + 2) =~= tail.take(2));
        assert(out.subrange(body.len() as int, body.len() as int + 2) =~= tail.take(2));
        assert(line.skip(cut + 2) =~= tail.skip(2));
        assert(out.skip(body.len() as int + 2) =~= tail.skip(2));
    }
}

/// Whether no line outside every block comment defines a macro that is known, or that
/// a line before it defines.
pub open spec fn defines_once(
    list: Seq<Seq<char>>,
    in_comment: bool,
    defined: Seq<Seq<char>>,
) -> bool
    decreases list.len(),
{
    list.len() > 0 ==> {
        &&& !in_comment ==> (macro_of(list[0]) matches Some(name) ==> !defined.contains(name))
        &&& defines_once(
            list.skip(1),
            comment_after(list[0], in_comment),
            defined_after(list[0], in_comment, defined),
        )
    }
}

/// Whether the lines of a list hold no line feed and no carriage return.
spec fn clean(list: Seq<Seq<char>>) -> bool {
    forall|i: int|
        0 <= i < list.len() ==> !(#[trigger] list[i]).contains('\n') && !list[i].contains('\r')
}

proof fn lemma_lines_clean(s: Seq<char>)
    requires
        !s.contains('\r'),
    ensures
        clean(crate::text::lines_of(s)),
    decreases s.len(),
{
    if s.len() > 0 {
        let feed = seq!['\n'];
        crate::text::lemma_find_from(s, feed, 0);
        match crate::text::find_from(s, feed, 0) {
            None => {
                assert forall|k: int| 0 <= k < s.len() implies s[k] != '\n' by {
                    if s[k] == '\n' {
                        assert(s.subrange(k, k + 1) =~= feed);
                        assert(crate::text::occurs_at(s, feed, k));
                    }
                }
            },
            Some(k) => {
                let t = s.skip(k + 1);
                let first = s.take(k);
                assert forall|m: int| 0 <= m < k implies s[m] != '\n' && s[m] != '\r' by {
                    if s[m] == '\n' {
                        assert(s.subrange(m, m + 1) =~= feed);
                        assert(crate::text::occurs_at(s, feed, m));
                    }
                    assert(s.contains(s[m]));
                }
                assert forall|c: char| t.contains(c) implies s.contains(c) by {
                    let m = choose|m: int| 0 <= m < t.len() && t[m] == c;
                    assert(s[m + k + 1] == c);
                }
                lemma_lines_clean(t);
                let list = crate::text::lines_of(s);
                let others = crate::text::lines_of(t);
                assert(list == seq![crate::text::without_return(first)] + others);
                assert(crate::text::without_return(first) == first) by {
                    if first.len() > 0 {
                        assert(first.last() == s[k - 1]);
                    }
                }
                assert forall|i: int| 0 <= i < list.len() implies !(#[trigger] list[i]).contains('\n')
                    && !list[i].contains('\r') by {
                    if i > 0 {
                        assert(list[i] == others[i - 1]);
                    } else {
                        assert(list[i] == first);
                        assert forall|m: int| 0 <= m < first.len() implies first[m] != '\n'
                            && first[m] != '\r' by {
                            assert(first[m] == s[m]);
                        }
                    }
                }
            },
        }
    }
}

/// The first line of a text that begins with one.
proof fn lemma_first_line(x: Seq<char>, others: Seq<char>)
    requires
        !x.contains('\n'),
        !x.contains('\r'),
    ensures
        crate::text::lines_of(ended(x) + others) == seq![x] + crate::text::lines_of(others),
{
    let s = ended(x) + others;
    let feed = seq!['\n'];
    let n = x.len() as int;
    assert(s[n] == '\n');
    assert(s.subrange(n, n + 1) =~= feed);
    assert forall|m: int| 0 <= m < n implies !crate::text::occurs_at(s, feed, m) by {
        assert(s.subrange(m, m + 1)[0] == s[m]);
        assert(s[m] == x[m]);
        assert(x.contains(x[m]));
    }
    crate::text::lemma_find_from(s, feed, 0);
    assert(crate::text::occurs_at(s, feed, n));
    let k = crate::text::find_from(s, feed, 0)->Some_0;
    assert(k == n);
    assert(s.take(n) =~= x);
    assert(s.skip(n + 1) =~= others);
    if n > 0 {
        assert(x.contains(x.last()));
    }
    assert(crate::text::without_return(x) == x);
}

proof fn lemma_lines_again(list: Seq<Seq<char>>, in_comment: bool, defined: Seq<Seq<char>>)
    requires
        clean(list),
        defines_once(list, in_comment, defined),
    ensures
        normalised_lines(
            crate::text::lines_of(normalised_lines(list, in_comment, defined)),
            in_comment,
            defined,
        ) == normalised_lines(list, in_comment, defined),
    decreases list.len(),
{
    if list.len() > 0 {
        let line = list[0];
        let rest = list.skip(1);
        let open = comment_after(line, in_comment);
        let known = defined_after(line, in_comment, defined);
        let others = normalised_lines(rest, open, known);
        assert forall|i: int| 0 <= i < rest.len() implies !(#[trigger] rest[i]).contains('\n')
            && !rest[i].contains('\r') by {
            assert(rest[i] == list[i + 1]);
        }
        lemma_lines_again(rest, open, known);
        assert(!line.contains('\n') && !line.contains('\r'));
        let out = if in_comment || is_directive(line) {
            line
        } else {
            line_rewritten(line)
        };
        if !in_comment && !is_directive(line) {
            lemma_line_again(line, defined);
            assert(sign('\n') && sign('\r'));
            assert(!out.contains('\n') && !out.contains('\r'));
        }
        assert(line_text(line, in_comment, defined) == ended(out));
        assert(line_text(out, in_comment, defined) == ended(out));
        assert(comment_after(out, in_comment) == open);
        assert(defined_after(out, in_comment, defined) == known);
        lemma_first_line(out, others);
        let again = crate::text::lines_of(ended(out) + others);
        assert(again[0] == out);
        assert(again.skip(1) =~= crate::text::lines_of(others));
    } else {
        assert(crate::text::lines_of(Seq::empty()) =~= Seq::<Seq<char>>::empty());
    }
}

/// Normalising twice is normalising once, where no macro is defined twice outside the
/// block comments: a repeat is guarded, and the guarded definition would be guarded
/// again. A text that holds a carriage return may lose one each time.
pub proof fn law_normalising_twice_is_once(source: Seq<char>)
    requires
        !source.contains('\r'),
        defines_once(crate::text::lines_of(source), false, Seq::empty()),
    ensures
        normalised(normalised(source)) == normalised(source),
{
    lemma_lines_clean(source);
    lemma_lines_again(crate::text::lines_of(source), false, Seq::empty());
}

/// A piece of code.
pub ghost enum Piece {
    /// A name.
    Name(Seq<char>),
    /// An integer literal.
    Integer(Seq<char>),
    /// A literal with a point: the digits before it and those behind it.
    Float(Seq<char>, Seq<char>),
    /// A literal with an exponent.
    Power(Seq<char>, Seq<char>),
    /// A hexadecimal literal.
    Hex(Seq<char>),
    /// A literal with a suffix.
    Suffixed(Seq<char>, char),
    /// Anything else, one character.
    Mark(char),
}

/// Whether all characters are decimal digits, and there is one.
pub open spec fn some_digits(s: Seq<char>) -> bool {
    s.len() > 0 && forall|i: int| 0 <= i < s.len() ==> '0' <= #[trigger] s[i] <= '9'
}

/// Whether a character can be part of a name or of a literal.
pub open spec fn joins(c: char) -> bool {
    'a' <= c <= 'z' || 'A' <= c <= 'Z' || '0' <= c <= '9' || c == '_'
}

impl Piece {
    /// How the piece is written.
    pub open spec fn written(self) -> Seq<char> {
        match self {
            Piece::Name(w) => w,
            Piece::Integer(d) => d,
            Piece::Float(a, b) => a + seq!['.'] + b,
            Piece::Power(a, b) => a + seq!['e'] + b,
            Piece::Hex(d) => seq!['0', 'x'] + d,
            Piece::Suffixed(d, c) => d + seq![c],
            Piece::Mark(c) => seq![c],
        }
    }

    /// Whether the piece is what it says.
    pub open spec fn is_proper(self) -> bool {
        match self {
            Piece::Name(w) => w.len() > 0 && !('0' <= w[0] <= '9') && forall|i: int|
                0 <= i < w.len() ==> joins(#[trigger] w[i]),
            Piece::Integer(d) => some_digits(d),
            Piece::Float(a, b) => some_digits(a) && (b.len() == 0 || some_digits(b)),
            Piece::Power(a, b) => some_digits(a) && some_digits(b),
            Piece::Hex(d) => forall|i: int|
                0 <= i < d.len() ==> '0' <= #[trigger] d[i] <= '9' || 'a' <= d[i] <= 'f' || 'A'
                    <= d[i] <= 'F',
            Piece::Suffixed(d, c) => some_digits(d) && (c == 'f' || c == 'F' || c == 'u' || c
                == 'U'),
            Piece::Mark(c) => !joins(c),
        }
    }
}

/// Whether pieces stand apart: behind a name or a literal comes a mark, and behind a
/// literal no point.
pub open spec fn stand_apart(list: Seq<Piece>) -> bool {
    &&& forall|i: int| 0 <= i < list.len() ==> (#[trigger] list[i]).is_proper()
    &&& forall|i: int, j: int|
        0 <= i && j == i + 1 && j < list.len() && !((#[trigger] list[i]) is Mark) ==> (
        #[trigger] list[j] matches Piece::Mark(c) && (list[i] is Name || c != '.'))
}

/// How pieces are written.
pub open spec fn pieces_written(list: Seq<Piece>) -> Seq<char>
    decreases list.len(),
{
    if list.len() == 0 {
        Seq::empty()
    } else {
        list[0].written() + pieces_written(list.skip(1))
    }
}

/// What pieces are to become: `sample` and `fmod` take their other names, and an integer
/// literal outside every bracket, that no point stands before, becomes a float where
/// `literals` says so. Nothing else changes.
pub open spec fn pieces_wanted(list: Seq<Piece>, depth: nat, dotted: bool, literals: bool) -> Seq<
    char,
>
    decreases list.len(),
{
    if list.len() == 0 {
        Seq::empty()
    } else {
        let p = list[0];
        let here = match p {
            Piece::Name(w) => if w == seq!['s', 'a', 'm', 'p', 'l', 'e'] {
                seq!['w', 'p', '_', 's', 'a', 'm', 'p', 'l', 'e']
            } else if w == seq!['f', 'm', 'o', 'd'] {
                seq!['m', 'o', 'd']
            } else {
                w
            },
            Piece::Integer(d) => if literals && depth == 0 && !dotted {
                d + seq!['.', '0']
            } else {
                d
            },
            _ => p.written(),
        };
        let inner = if p == Piece::Mark('[') {
            depth + 1
        } else if p == Piece::Mark(']') && depth > 0 {
            (depth - 1) as nat
        } else {
            depth
        };
        here + pieces_wanted(list.skip(1), inner, p.written().last() == '.', literals)
    }
}

/// The end of a literal is the end of its piece.
proof fn lemma_literal_end(s: Seq<char>, i: int, p: Piece)
    requires
        0 <= i,
        p.is_proper(),
        !(p is Name) && !(p is Mark),
        i + p.written().len() <= s.len(),
        s.subrange(i, i + p.written().len()) == p.written(),
        i + p.written().len() < s.len() ==> !joins(s[i + p.written().len()]) && s[i
            + p.written().len()] != '.',
    ensures
        crate::text::ascii_digit(s[i]),
        number_end(s, i) == i + p.written().len(),
        plain_integer(s, i) == (p is Integer),
{
    let w = p.written();
    let end = i + w.len();
    assert forall|m: int| i <= m < end implies #[trigger] s[m] == w[m - i] by {
        assert(s.subrange(i, end)[m - i] == s[m]);
    }
    reveal_strlit("0x");
    reveal_strlit("0X");
    assert(s[i] == w[0]);
    match p {
        Piece::Hex(d) => {
            assert(s[i + 1] == w[1]);
            assert(s.subrange(i, i + 2) =~= "0x"@);
            assert forall|m: int| i + 2 <= m < end implies crate::text::of_class(
                #[trigger] s[m],
                Class::Hex,
            ) by {
                assert(s[m] == d[m - i - 2]);
            }
            lemma_run_is(s, i + 2, end, Class::Hex);
            assert(!crate::text::ascii_digit(s[i + 1]));
        },
        _ => {
            let a = match p {
                Piece::Integer(d) => d,
                Piece::Float(a, _) => a,
                Piece::Power(a, _) => a,
                Piece::Suffixed(d, _) => d,
                _ => Seq::empty(),
            };
            let k = i + a.len();
            assert forall|m: int| i <= m < k implies crate::text::of_class(
                #[trigger] s[m],
                Class::Digit,
            ) by {
                assert(s[m] == a[m - i]);
            }
            assert(!hex_literal_at(s, i)) by {
                if hex_literal_at(s, i) {
                    let two = s.subrange(i, i + 2);
                    assert(two[1] == s[i + 1]);
                    assert(two[1] == 'x' || two[1] == 'X');
                    if i + 1 < k {
                        assert(crate::text::of_class(s[i + 1], Class::Digit));
                    } else if i + 1 < end {
                        assert(s[i + 1] == w[1]);
                    }
                }
            }
            lemma_run_is(s, i, k, Class::Digit);
            match p {
                Piece::Integer(_) => {
                    assert(exponent_end(s, k) == k);
                    lemma_run_is(s, k, k, Class::Suffix);
                },
                Piece::Float(_, b) => {
                    assert(s[k] == '.');
                    assert forall|m: int| k + 1 <= m < end implies crate::text::of_class(
                        #[trigger] s[m],
                        Class::Digit,
                    ) by {
                        assert(s[m] == b[m - k - 1]);
                    }
                    lemma_run_is(s, k + 1, end, Class::Digit);
                    assert(exponent_end(s, end) == end);
                    lemma_run_is(s, end, end, Class::Suffix);
                    assert(!crate::text::ascii_digit(s[k]));
                },
                Piece::Power(_, b) => {
                    assert(s[k] == 'e');
                    assert(s[k + 1] == b[0]);
                    assert forall|m: int| k + 1 <= m < end implies crate::text::of_class(
                        #[trigger] s[m],
                        Class::Digit,
                    ) by {
                        assert(s[m] == b[m - k - 1]);
                    }
                    lemma_run_is(s, k + 1, end, Class::Digit);
                    assert(fraction_end(s, i) == k);
                    assert(exponent_end(s, k) == end);
                    lemma_run_is(s, end, end, Class::Suffix);
                    assert(!crate::text::ascii_digit(s[k]));
                },
                Piece::Suffixed(_, c) => {
                    assert(s[k] == c);
                    assert(fraction_end(s, i) == k);
                    assert(exponent_end(s, k) == k);
                    lemma_run_is(s, k, end, Class::Suffix);
                    assert(!crate::text::ascii_digit(s[k]));
                },
                _ => {},
            }
        },
    }
}

proof fn lemma_pieces(before: Seq<char>, list: Seq<Piece>, depth: nat, literals: bool)
    requires
        stand_apart(list),
    ensures
        rewritten_from(before + pieces_written(list), before.len() as int, depth, literals)
            == pieces_wanted(list, depth, before.len() > 0 && before.last() == '.', literals),
    decreases list.len(),
{
    let s = before + pieces_written(list);
    let i = before.len() as int;
    if list.len() > 0 {
        let p = list[0];
        let w = p.written();
        let rest = list.skip(1);
        let tail = pieces_written(rest);
        let end = i + w.len();
        assert(p.is_proper());
        assert(w.len() > 0);
        assert(s =~= before + w + tail);
        assert(s.subrange(i, end) =~= w);
        assert(stand_apart(rest)) by {
            assert forall|k: int| 0 <= k < rest.len() implies (#[trigger] rest[k]).is_proper() by {
                assert(rest[k] == list[k + 1]);
            }
            assert forall|k: int, j: int|
                0 <= k && j == k + 1 && j < rest.len() && !((#[trigger] rest[k]) is Mark) implies (
            #[trigger] rest[j] matches Piece::Mark(c) && (rest[k] is Name || c != '.')) by {
                assert(rest[k] == list[k + 1] && rest[j] == list[j + 1]);
            }
        }
        assert((before + w).last() == w.last());
        assert(before + w + tail =~= s);
        lemma_pieces(
            before + w,
            rest,
            if p == Piece::Mark('[') {
                depth + 1
            } else if p == Piece::Mark(']') && depth > 0 {
                (depth - 1) as nat
            } else {
                depth
            },
            literals,
        );
        if !(p is Mark) && end < s.len() {
            assert(rest.len() > 0);
            assert(rest[0] == list[1]);
            assert(rest[0].is_proper());
            assert(tail[0] == rest[0].written()[0]);
            assert(s[end] == tail[0]);
            let j: int = 1;
            assert(list[j] is Mark && (p is Name || list[j]->Mark_0 != '.'));
            assert(!joins(s[end]));
        }
        assert(s[i] == w[0]);
        lemma_progress(s, i);
        match p {
            Piece::Mark(c) => {
                assert(s[i] == c);
            },
            Piece::Name(n) => {
                assert forall|m: int| i <= m < end implies crate::text::of_class(
                    #[trigger] s[m],
                    Class::Word,
                ) by {
                    assert(s[m] == n[m - i]);
                }
                lemma_run_is(s, i, end, Class::Word);
                reveal_strlit("sample");
                reveal_strlit("fmod");
                reveal_strlit("wp_sample");
                reveal_strlit("mod");
                assert("sample"@ =~= seq!['s', 'a', 'm', 'p', 'l', 'e']);
                assert("fmod"@ =~= seq!['f', 'm', 'o', 'd']);
                assert("wp_sample"@ =~= seq!['w', 'p', '_', 's', 'a', 'm', 'p', 'l', 'e']);
                assert("mod"@ =~= seq!['m', 'o', 'd']);
                assert(joins(n[0]));
            },
            _ => {
                lemma_literal_end(s, i, p);
                reveal_strlit(".0");
                assert(".0"@ =~= seq!['.', '0']);
                assert(s[i - 1] == before.last() || i == 0);
            },
        }
    }
}

/// Code is rewritten piece by piece: `sample` and `fmod` take their other names, every
/// integer literal outside brackets that is not behind a point gets a fraction where
/// literals are rewritten, and every other name, literal and character stays.
pub proof fn law_code_is_rewritten_piece_by_piece(list: Seq<Piece>, literals: bool)
    requires
        stand_apart(list),
    ensures
        rewritten(pieces_written(list), literals) == pieces_wanted(list, 0, false, literals),
{
    let none = Seq::<char>::empty();
    lemma_pieces(none, list, 0, literals);
    assert(none + pieces_written(list) =~= pieces_written(list));
}

/// A line of code without a comment, that is no preprocessor line, is rewritten piece by
/// piece; its integer literals stay where it declares an integer.
pub proof fn law_lines_are_rewritten_piece_by_piece(list: Seq<Piece>, defined: Seq<Seq<char>>)
    requires
        stand_apart(list),
        !crate::text::contains(pieces_written(list), "//"@),
        !crate::text::contains(pieces_written(list), "/*"@),
        !is_directive(pieces_written(list)),
    ensures
        line_text(pieces_written(list), false, defined) == pieces_wanted(
            list,
            0,
            false,
            !integer_declared(pieces_written(list)),
        ).push('\n'),
{
    let line = pieces_written(list);
    let n = line.len() as int;
    assert(comment_start(line) == n);
    assert(line.take(n) =~= line);
    assert(line.skip(n) =~= Seq::<char>::empty());
    let none = Seq::<char>::empty();
    assert(!marked_int(none)) by {
        reveal_strlit("\"int\"");
    }
    law_code_is_rewritten_piece_by_piece(list, !integer_declared(line));
    assert(rewritten(line, !integer_declared(line)) + none =~= rewritten(
        line,
        !integer_declared(line),
    ));
}

/// A line that has the word `int` or `uint` with white space behind it declares an
/// integer, and one without these letters declares none.
pub proof fn law_integer_declarations(a: Seq<char>, c: char, b: Seq<char>, code: Seq<char>)
    requires
        a.len() > 0 ==> !crate::text::name_char(a.last()),
        crate::text::white_space(c),
        !crate::text::contains(code, "int"@),
    ensures
        integer_declared(a + seq!['i', 'n', 't', c] + b),
        integer_declared(a + seq!['u', 'i', 'n', 't', c] + b),
        !integer_declared(code),
{
    reveal_strlit("int");
    reveal_strlit("uint");
    let i = a.len() as int;
    let s = a + seq!['i', 'n', 't', c] + b;
    assert(s.subrange(i, i + 3) =~= "int"@);
    assert(s[i + 3] == c);
    assert(i > 0 ==> s[i - 1] == a.last());
    assert(type_word_at(s, "int"@, i));
    let u = a + seq!['u', 'i', 'n', 't', c] + b;
    assert(u.subrange(i, i + 4) =~= "uint"@);
    assert(u[i + 4] == c);
    assert(i > 0 ==> u[i - 1] == a.last());
    assert(type_word_at(u, "uint"@, i));
    crate::text::lemma_find_from(code, "int"@, 0);
    assert forall|k: int| !type_word_at(code, "int"@, k) && !type_word_at(code, "uint"@, k) by {
        if type_word_at(code, "uint"@, k) {
            assert(code.subrange(k, k + 4) == "uint"@);
            assert(code.subrange(k + 1, k + 4) =~= "uint"@.subrange(1, 4));
            assert("uint"@.subrange(1, 4) =~= "int"@);
            assert(crate::text::occurs_at(code, "int"@, k + 1));
        }
    }
}

/// A comment begins at its first two slashes, or at a slash and a star: what stands
/// before them is code, where neither stands in it.
pub proof fn law_comments_begin_at_their_mark(code: Seq<char>, second: char, tail: Seq<char>)
    requires
        second == '/' || second == '*',
        !crate::text::contains(code, "//"@),
        !crate::text::contains(code, "/*"@),
        code.len() > 0 ==> code.last() != '/',
    ensures
        comment_start(code + seq!['/', second] + tail) == code.len(),
        comment_start(code) == code.len(),
{
    reveal_strlit("//");
    reveal_strlit("/*");
    let s = code + seq!['/', second] + tail;
    let n = code.len() as int;
    crate::text::lemma_find_from(s, "//"@, 0);
    crate::text::lemma_find_from(s, "/*"@, 0);
    crate::text::lemma_find_from(code, "//"@, 0);
    crate::text::lemma_find_from(code, "/*"@, 0);
    assert forall|k: int| 0 <= k < n implies !#[trigger] crate::text::occurs_at(s, "//"@, k)
        && !crate::text::occurs_at(s, "/*"@, k) by {
        assert(s.subrange(k, k + 2)[0] == s[k]);
        assert(s[k] == code[k]);
        if k + 2 <= n {
            assert(s.subrange(k, k + 2) =~= code.subrange(k, k + 2));
            assert(!crate::text::occurs_at(code, "//"@, k));
            assert(!crate::text::occurs_at(code, "/*"@, k));
        }
    }
    assert forall|k: int| 0 <= k < n implies !#[trigger] crate::text::occurs_at(s, "/*"@, k) by {
        assert(!crate::text::occurs_at(s, "//"@, k));
    }
    if second == '/' {
        assert(s.subrange(n, n + 2) =~= "//"@);
        assert(crate::text::occurs_at(s, "//"@, n));
    } else {
        assert(s.subrange(n, n + 2) =~= "/*"@);
        assert(crate::text::occurs_at(s, "/*"@, n));
    }
}

/// A text is found where it stands, if it does not stand in what comes before.
proof fn lemma_found_behind(before: Seq<char>, p: Seq<char>, after: Seq<char>)
    requires
        p.len() > 0,
        !crate::text::contains(before + p.drop_last(), p),
    ensures
        crate::text::find_from(before + p + after, p, 0) == Some(before.len() as int),
{
    let s = before + p + after;
    let k = before.len() as int;
    let n = p.len() as int;
    let cut = before + p.drop_last();
    crate::text::lemma_find_from(s, p, 0);
    crate::text::lemma_find_from(cut, p, 0);
    assert(s.subrange(k, k + n) =~= p);
    assert(crate::text::occurs_at(s, p, k));
    assert forall|j: int| 0 <= j < k implies !#[trigger] crate::text::occurs_at(s, p, j) by {
        assert(s.subrange(j, j + n) =~= cut.subrange(j, j + n));
        assert(!crate::text::occurs_at(cut, p, j));
    }
}

/// A key is found, and behind it its value.
proof fn lemma_marked(before: Seq<char>, filler: Seq<char>, after: Seq<char>)
    requires
        forall|i: int|
            0 <= i < filler.len() ==> (#[trigger] filler[i] == ' ' || filler[i] == ':' || filler[i]
                == '\t' || filler[i] == '"'),
        !crate::text::contains(before + seq!['"', 'i', 'n', 't'], "\"int\""@),
    ensures
        marked_int(before + "\"int\""@ + filler + "true"@ + after),
{
    reveal_strlit("\"int\"");
    reveal_strlit("true");
    let key = "\"int\""@;
    let rest_of = filler + "true"@ + after;
    let tail = before + key + filler + "true"@ + after;
    assert(key.drop_last() =~= seq!['"', 'i', 'n', 't']);
    lemma_found_behind(before, key, rest_of);
    assert(before + key + rest_of =~= tail);
    let k = before.len() as int;
    assert(tail.skip(k + 5) =~= rest_of);
    let f = filler.len() as int;
    assert forall|j: int| 0 <= j < f implies crate::text::of_class(
        #[trigger] rest_of[j],
        Class::Filler,
    ) by {
        assert(rest_of[j] == filler[j]);
    }
    assert(rest_of[f] == 't');
    lemma_run_is(rest_of, 0, f, Class::Filler);
    assert(rest_of.skip(f).subrange(0, 4) =~= "true"@);
}

/// A float uniform whose comment says `"int"` and then `true` is declared an integer, and
/// is left alone where the comment does not say so; what stands around the type stays.
pub proof fn law_marked_uniforms_become_integers(
    lead: Seq<char>,
    rest: Seq<char>,
    before: Seq<char>,
    filler: Seq<char>,
    after: Seq<char>,
    other: Seq<char>,
)
    requires
        forall|i: int| 0 <= i < lead.len() ==> crate::text::white_space(#[trigger] lead[i]),
        forall|i: int|
            0 <= i < filler.len() ==> (#[trigger] filler[i] == ' ' || filler[i] == ':' || filler[i]
                == '\t' || filler[i] == '"'),
        !crate::text::contains(before + seq!['"', 'i', 'n', 't'], "\"int\""@),
        !crate::text::contains(other, "\"int\""@),
    ensures
        int_promoted(
            lead + "uniform float"@ + rest,
            before + "\"int\""@ + filler + "true"@ + after,
        ) == lead + "uniform int"@ + rest,
        int_promoted(lead + "uniform float"@ + rest, other) == lead + "uniform float"@ + rest,
{
    reveal_strlit("uniform float");
    reveal_strlit("uniform int");
    reveal_strlit("int");
    reveal_strlit("\"int\"");
    reveal_strlit("true");
    let code = lead + "uniform float"@ + rest;
    let tail = before + "\"int\""@ + filler + "true"@ + after;
    let n = lead.len() as int;
    assert forall|j: int| 0 <= j < n implies crate::text::of_class(#[trigger] code[j], Class::Space) by {
        assert(code[j] == lead[j]);
    }
    assert(code[n] == 'u');
    lemma_run_is(code, 0, n, Class::Space);
    assert(code.subrange(n, n + 13) =~= "uniform float"@);
    lemma_marked(before, filler, after);
    crate::text::lemma_find_from(other, "\"int\""@, 0);
    assert(code.take(n + 8) =~= lead + "uniform int"@.take(8));
    assert(code.skip(n + 13) =~= rest);
    assert("uniform int"@ =~= "uniform int"@.take(8) + "int"@);
    assert(int_promoted(code, tail) =~= lead + "uniform int"@ + rest);
}

/// A comment that a line opens without closing it is open behind the line, stays open
/// over lines that do not close it, and is closed behind its end.
pub proof fn law_block_comments_span_lines(code: Seq<char>, inner: Seq<char>, line: Seq<char>)
    requires
        !crate::text::contains(code, "//"@),
        !crate::text::contains(code, "/*"@),
        code.len() > 0 ==> code.last() != '/',
        !crate::text::contains(inner, "*/"@),
        !crate::text::contains(inner + seq!['*'], "*/"@),
        !crate::text::contains(line, "*/"@),
    ensures
        comment_after(code + seq!['/', '*'] + inner, false),
        comment_after(line, true),
        !comment_after(code, false),
        comment_after(inner + seq!['*', '/'] + code, true) == comment_after(code, false),
        comment_after(code + seq!['/', '/'] + line, false) == false,
{
    reveal_strlit("//");
    reveal_strlit("/*");
    reveal_strlit("*/");
    let n = code.len() as int;
    law_comments_begin_at_their_mark(code, '*', inner);
    law_comments_begin_at_their_mark(code, '/', line);
    let s = code + seq!['/', '*'] + inner;
    assert(s.subrange(n, n + 2) =~= "/*"@);
    assert(s.skip(n + 2) =~= inner);
    assert(comment_after(inner, true));
    let t = code + seq!['/', '/'] + line;
    assert(t.subrange(n, n + 2)[1] == '/');
    let m = inner.len() as int;
    let u = inner + seq!['*', '/'] + code;
    let cut = inner + seq!['*'];
    crate::text::lemma_find_from(u, "*/"@, 0);
    crate::text::lemma_find_from(cut, "*/"@, 0);
    assert(u.subrange(m, m + 2) =~= "*/"@);
    assert(crate::text::occurs_at(u, "*/"@, m));
    assert forall|j: int| 0 <= j < m implies !#[trigger] crate::text::occurs_at(u, "*/"@, j) by {
        assert(u.subrange(j, j + 2) =~= cut.subrange(j, j + 2));
        assert(!crate::text::occurs_at(cut, "*/"@, j));
    }
    assert(u.skip(m + 2) =~= code);
}

/// A macro is named by the first word behind `#define`, however the line is spaced.
pub proof fn law_macros_are_named_by_their_first_word(
    gap: Seq<char>,
    c: char,
    space: Seq<char>,
    name: Seq<char>,
    body: Seq<char>,
)
    requires
        forall|i: int| 0 <= i < gap.len() ==> crate::text::white_space(#[trigger] gap[i]),
        c == ' ' || c == '\t',
        forall|i: int| 0 <= i < space.len() ==> crate::text::white_space(#[trigger] space[i]),
        name.len() > 0,
        forall|i: int| 0 <= i < name.len() ==> !crate::text::white_space(#[trigger] name[i]),
        body.len() > 0 ==> crate::text::white_space(body[0]),
    ensures
        defined_name("#"@ + gap + "define"@ + seq![c] + space + name + body) == Some(name),
{
    reveal_strlit("#");
    reveal_strlit("define");
    let line = "#"@ + gap + "define"@ + seq![c] + space + name + body;
    let a = line.skip(1);
    assert(line.subrange(0, 1) =~= "#"@);
    assert(a =~= gap + "define"@ + seq![c] + space + name + body);
    let g = gap.len() as int;
    assert forall|j: int| 0 <= j < g implies crate::text::of_class(#[trigger] a[j], Class::Space) by {
        assert(a[j] == gap[j]);
    }
    assert(a[g] == 'd');
    lemma_run_is(a, 0, g, Class::Space);
    let b = a.skip(g);
    assert(crate::text::trimmed_start(a) == b);
    assert(b =~= "define"@ + seq![c] + space + name + body);
    assert(b.subrange(0, 6) =~= "define"@);
    let r = b.skip(6);
    assert(r =~= seq![c] + space + name + body);
    let at = 1 + space.len() as int;
    assert forall|j: int| 0 <= j < at implies crate::text::of_class(#[trigger] r[j], Class::Space) by {
        if j > 0 {
            assert(r[j] == space[j - 1]);
        }
    }
    assert(r[at] == name[0]);
    lemma_run_is(r, 0, at, Class::Space);
    let end = at + name.len();
    assert forall|j: int| at <= j < end implies crate::text::of_class(#[trigger] r[j], Class::Ink) by {
        assert(r[j] == name[j - at]);
    }
    if end < r.len() {
        assert(r[end] == body[0]);
    }
    lemma_run_is(r, at, end, Class::Ink);
    assert(r.subrange(at, end) =~= name);
    assert(crate::text::words_of(r)[0] == name);
}

/// A guarded definition is three lines: the test of the name, the line itself, and the
/// end of the test.
pub proof fn law_a_guard_stands_around_the_line(name: Seq<char>, line: Seq<char>)
    ensures
        guarded(name, line) == "#ifndef "@ + name + "\n"@ + line + "\n#endif\n"@,
{
    reveal_strlit("\n");
    reveal_strlit("#endif\n");
    reveal_strlit("\n#endif\n");
    assert(guarded(name, line) =~= "#ifndef "@ + name + "\n"@ + line + "\n#endif\n"@);
}

/// A preprocessor line begins with a number sign, whatever white space stands before it.
pub proof fn law_directives_begin_with_a_sign(lead: Seq<char>, c: char, rest: Seq<char>)
    requires
        forall|i: int| 0 <= i < lead.len() ==> crate::text::white_space(#[trigger] lead[i]),
        !crate::text::white_space(c),
        !crate::text::contains(lead + seq![c] + rest, "//"@),
        !crate::text::contains(lead + seq![c] + rest, "/*"@),
    ensures
        is_directive(lead + seq![c] + rest) == (c == '#'),
{
    reveal_strlit("#");
    let line = lead + seq![c] + rest;
    let n = line.len() as int;
    assert(comment_start(line) == n);
    assert(line.take(n) =~= line);
    let g = lead.len() as int;
    assert forall|j: int| 0 <= j < g implies crate::text::of_class(#[trigger] line[j], Class::Space) by {
        assert(line[j] == lead[j]);
    }
    assert(line[g] == c);
    lemma_run_is(line, 0, g, Class::Space);
    let b = line.skip(g);
    assert(b.subrange(0, 1)[0] == c);
    if c == '#' {
        assert(b.subrange(0, 1) =~= "#"@);
    }
}

/// Rewriting code that is written piece by piece gives what is wanted of each piece.
pub proof fn law_rewriting_follows_the_pieces(
    list: Seq<Piece>,
    code: &[char],
    literals: bool,
    out: String,
)
    requires
        stand_apart(list),
        code@ == pieces_written(list),
        call_ensures(rewrite, (code, literals), out),
    ensures
        out@ == pieces_wanted(list, 0, false, literals),
{
    law_code_is_rewritten_piece_by_piece(list, literals);
}

} // verus!
