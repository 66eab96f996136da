//! Text as sequences of characters.
//!
//! Every rule of the library that reads text is stated over `Seq<char>`; the
//! functions here are the executable side of that vocabulary, on character
//! slices.
use vstd::prelude::*;
use vstd::slice::slice_subrange;

verus! {

/// `String::push`: the character is appended, nothing else changes.
pub assume_specification[ String::push ](s: &mut String, c: char)
    ensures
        final(s)@ == old(s)@.push(c),
;

/// What Unicode says of a character outside ASCII: a letter or a numeral.
pub uninterp spec fn unicode_alphanumeric(c: char) -> bool;

/// `char::is_alphanumeric`: in ASCII the letters and the digits; outside it the
/// answer is that of Unicode's tables, which the name stands for.
pub assume_specification[ char::is_alphanumeric ](c: char) -> (r: bool)
    ensures
        (c as u32) < 0x80 ==> r == (ascii_letter(c) || ascii_digit(c)),
        (c as u32) >= 0x80 ==> r == unicode_alphanumeric(c),
;

/// What bytes that are not UTF-8 spell with replacement characters among them.
pub uninterp spec fn utf8_replaced(b: Seq<u8>) -> Seq<char>;

/// What bytes spell when those that are not UTF-8 are replaced.
pub open spec fn utf8_lossy(b: Seq<u8>) -> Seq<char> {
    if vstd::utf8::valid_utf8(b) {
        vstd::utf8::decode_utf8(b)
    } else {
        utf8_replaced(b)
    }
}

/// `String::from_utf8_lossy`: bytes that are UTF-8 are decoded; of any others the
/// standard library says where replacement characters go, and the name stands for
/// that.
#[verifier::external_body]
pub(crate) fn decode_lossy(b: &[u8]) -> (r: String)
    ensures
        vstd::utf8::valid_utf8(b@) ==> r@ == vstd::utf8::decode_utf8(b@),
        !vstd::utf8::valid_utf8(b@) ==> r@ == utf8_replaced(b@),
{
    String::from_utf8_lossy(b).into_owned()
}

/// `std::str::from_utf8`: the text that the bytes are, exactly where they are UTF-8.
#[verifier::external_body]
pub(crate) fn decode_strict<'a>(b: &'a [u8]) -> (r: Option<&'a str>)
    ensures
        match r {
            Some(s) => vstd::utf8::valid_utf8(b@) && s@ == vstd::utf8::decode_utf8(b@),
            None => !vstd::utf8::valid_utf8(b@),
        },
{
    std::str::from_utf8(b).ok()
}

/// The lower case of a text that is not all ASCII.
pub uninterp spec fn unicode_lower(s: Seq<char>) -> Seq<char>;

/// Whether every character is ASCII.
pub open spec fn all_ascii(s: Seq<char>) -> bool {
    forall|i: int| 0 <= i < s.len() ==> (#[trigger] s[i] as u32) < 0x80
}

/// A text in lower case.
pub open spec fn lowercase_of(s: Seq<char>) -> Seq<char> {
    if all_ascii(s) {
        lower_text(s)
    } else {
        unicode_lower(s)
    }
}

/// `str::to_lowercase`: ASCII letters become their lower case; of any other text
/// the answer is that of Unicode's tables, which the name stands for.
#[verifier::external_body]
pub(crate) fn lowercase(s: &str) -> (r: String)
    ensures
        all_ascii(s@) ==> r@ == lower_text(s@),
        !all_ascii(s@) ==> r@ == unicode_lower(s@),
{
    s.to_lowercase()
}

pub open spec fn ascii_digit(c: char) -> bool {
    '0' <= c && c <= '9'
}

pub open spec fn ascii_upper(c: char) -> bool {
    'A' <= c && c <= 'Z'
}

pub open spec fn ascii_letter(c: char) -> bool {
    ascii_upper(c) || ('a' <= c && c <= 'z')
}

/// Unicode's `White_Space` property.
pub open spec fn white_space(c: char) -> bool {
    let u = c as u32;
    (0x09 <= u && u <= 0x0D) || u == 0x20 || u == 0x85 || u == 0xA0 || u == 0x1680 || (0x2000 <= u
        && u <= 0x200A) || u == 0x2028 || u == 0x2029 || u == 0x202F || u == 0x205F || u == 0x3000
}

/// A letter or a numeral of any script, or an underscore.
pub open spec fn name_char(c: char) -> bool {
    if (c as u32) < 0x80 {
        ascii_letter(c) || ascii_digit(c) || c == '_'
    } else {
        unicode_alphanumeric(c)
    }
}

/// The kinds of character that a run can be made of.
#[derive(Clone, Copy, PartialEq, Eq, Structural)]
pub enum Class {
    /// `White_Space`.
    Space,
    /// Anything but `White_Space`.
    Ink,
    /// An ASCII decimal digit.
    Digit,
    /// An ASCII hexadecimal digit.
    Hex,
    /// An ASCII letter, digit or underscore.
    Word,
    /// Anything but an ASCII letter, digit or underscore.
    Mark,
    /// A suffix of an HLSL number.
    Suffix,
    /// What may stand between a JSON key and its value.
    Filler,
    /// The separator of a path.
    Slash,
    /// Anything but the separator of a path.
    NotSlash,
    /// A separator of a path, or what Windows uses for one.
    Separator,
    /// Anything but such a separator.
    Segment,
    /// White space or a comma.
    Gap,
    /// Anything but white space and commas.
    Item,
}

/// Whether `c` is of the kind `k`.
pub open spec fn of_class(c: char, k: Class) -> bool {
    match k {
        Class::Space => white_space(c),
        Class::Ink => !white_space(c),
        Class::Digit => ascii_digit(c),
        Class::Hex => ascii_digit(c) || ('a' <= c && c <= 'f') || ('A' <= c && c <= 'F'),
        Class::Word => ascii_letter(c) || ascii_digit(c) || c == '_',
        Class::Mark => !(ascii_letter(c) || ascii_digit(c) || c == '_'),
        Class::Suffix => c == 'u' || c == 'U' || c == 'f' || c == 'F',
        Class::Filler => c == '"' || c == ' ' || c == ':' || c == '\t',
        Class::Slash => c == '/',
        Class::NotSlash => c != '/',
        Class::Separator => c == '/' || c == '\\',
        Class::Segment => !(c == '/' || c == '\\'),
        Class::Gap => white_space(c) || c == ',',
        Class::Item => !(white_space(c) || c == ','),
    }
}

pub fn is_ascii_digit(c: char) -> (r: bool)
    ensures
        r == ascii_digit(c),
{
    '0' <= c && c <= '9'
}

pub fn is_ascii_letter(c: char) -> (r: bool)
    ensures
        r == ascii_letter(c),
{
    ('A' <= c && c <= 'Z') || ('a' <= c && c <= 'z')
}

pub fn is_white_space(c: char) -> (r: bool)
    ensures
        r == white_space(c),
{
    let u: u32 = c as u32;
    (0x09 <= u && u <= 0x0D) || u == 0x20 || u == 0x85 || u == 0xA0 || u == 0x1680 || (0x2000 <= u
        && u <= 0x200A) || u == 0x2028 || u == 0x2029 || u == 0x202F || u == 0x205F || u == 0x3000
}

pub fn is_name_char(c: char) -> (r: bool)
    ensures
        r == name_char(c),
{
    c.is_alphanumeric() || c == '_'
}

pub fn is_of_class(c: char, k: Class) -> (r: bool)
    ensures
        r == of_class(c, k),
{
    match k {
        Class::Space => is_white_space(c),
        Class::Ink => !is_white_space(c),
        Class::Digit => is_ascii_digit(c),
        Class::Hex => is_ascii_digit(c) || ('a' <= c && c <= 'f') || ('A' <= c && c <= 'F'),
        Class::Word => is_ascii_letter(c) || is_ascii_digit(c) || c == '_',
        Class::Mark => !(is_ascii_letter(c) || is_ascii_digit(c) || c == '_'),
        Class::Suffix => c == 'u' || c == 'U' || c == 'f' || c == 'F',
        Class::Filler => c == '"' || c == ' ' || c == ':' || c == '\t',
        Class::Slash => c == '/',
        Class::NotSlash => c != '/',
        Class::Separator => c == '/' || c == '\\',
        Class::Segment => !(c == '/' || c == '\\'),
        Class::Gap => is_white_space(c) || c == ',',
        Class::Item => !(is_white_space(c) || c == ','),
    }
}

/// The characters of `s`, in order.
pub fn chars_of(s: &str) -> (out: Vec<char>)
    ensures
        out@ == s@,
{
    let mut out: Vec<char> = Vec::new();
    for c in iter: s.chars()
        invariant
            iter.seq() == s@,
            out@ == s@.take(iter.index() as int),
    {
        out.push(c);
        proof {
            assert(out@ =~= s@.take(iter.index() as int + 1));
        }
    }
    proof {
        assert(s@.take(s@.len() as int) =~= s@);
    }
    out
}

/// The string made of `chars`, in order.
pub fn string_of(chars: &[char]) -> (out: String)
    ensures
        out@ == chars@,
{
    let mut out = String::new();
    push_chars(&mut out, chars);
    proof {
        assert(Seq::<char>::empty() + chars@ =~= chars@);
    }
    out
}

/// Append `chars` to `out`.
pub fn push_chars(out: &mut String, chars: &[char])
    ensures
        final(out)@ == old(out)@ + chars@,
{
    let mut i: usize = 0;
    proof {
        assert(out@ =~= old(out)@ + chars@.take(0));
    }
    while i < chars.len()
        invariant
            i <= chars@.len(),
            out@ == old(out)@ + chars@.take(i as int),
        decreases chars@.len() - i,
    {
        out.push(chars[i]);
        i += 1;
        proof {
            assert(out@ =~= old(out)@ + chars@.take(i as int));
        }
    }
    proof {
        assert(chars@.take(chars@.len() as int) =~= chars@);
    }
}

/// Append `text` to `out`.
pub fn push_text(out: &mut String, text: &str)
    ensures
        final(out)@ == old(out)@ + text@,
{
    let chars = chars_of(text);
    push_chars(out, chars.as_slice());
}

/// A copy of `chars`.
pub fn copy_chars(chars: &[char]) -> (out: Vec<char>)
    ensures
        out@ == chars@,
{
    let mut out: Vec<char> = Vec::new();
    let mut i: usize = 0;
    while i < chars.len()
        invariant
            i <= chars@.len(),
            out@ == chars@.take(i as int),
        decreases chars@.len() - i,
    {
        out.push(chars[i]);
        i += 1;
        proof {
            assert(out@ =~= chars@.take(i as int));
        }
    }
    proof {
        assert(chars@.take(chars@.len() as int) =~= chars@);
    }
    out
}

/// The part of `s` from `from` up to but not including `to`.
pub fn part<'a>(s: &'a [char], from: usize, to: usize) -> (r: &'a [char])
    requires
        from <= to <= s@.len(),
    ensures
        r@ == s@.subrange(from as int, to as int),
{
    slice_subrange(s, from, to)
}

/// `s` without its first `from` characters.
pub fn rest<'a>(s: &'a [char], from: usize) -> (r: &'a [char])
    requires
        from <= s@.len(),
    ensures
        r@ == s@.skip(from as int),
{
    let r = slice_subrange(s, from, s.len());
    proof {
        assert(r@ =~= s@.skip(from as int));
    }
    r
}

/// The first `to` characters of `s`.
pub fn head<'a>(s: &'a [char], to: usize) -> (r: &'a [char])
    requires
        to <= s@.len(),
    ensures
        r@ == s@.take(to as int),
{
    let r = slice_subrange(s, 0, to);
    proof {
        assert(r@ =~= s@.take(to as int));
    }
    r
}

/// Whether two slices hold the same characters.
pub fn same(a: &[char], b: &[char]) -> (r: bool)
    ensures
        r == (a@ == b@),
{
    if a.len() != b.len() {
        return false;
    }
    let mut i: usize = 0;
    while i < a.len()
        invariant
            a@.len() == b@.len(),
            i <= a@.len(),
            forall|j: int| 0 <= j < i ==> a@[j] == b@[j],
        decreases a@.len() - i,
    {
        if a[i] != b[i] {
            return false;
        }
        i += 1;
    }
    proof {
        assert(a@ =~= b@);
    }
    true
}

/// Whether the slice spells `text`.
pub fn is_text(a: &[char], text: &str) -> (r: bool)
    ensures
        r == (a@ == text@),
{
    let b = chars_of(text);
    same(a, b.as_slice())
}

/// Whether two strings hold the same characters.
pub fn same_text(a: &str, b: &str) -> (r: bool)
    ensures
        r == (a@ == b@),
{
    let x = chars_of(a);
    is_text(x.as_slice(), b)
}

/// Whether `p` stands in `s` at `i`.
pub open spec fn occurs_at(s: Seq<char>, p: Seq<char>, i: int) -> bool {
    0 <= i && i + p.len() <= s.len() && s.subrange(i, i + p.len()) == p
}

pub fn is_at(s: &[char], p: &[char], i: usize) -> (r: bool)
    requires
        i <= s@.len(),
    ensures
        r == occurs_at(s@, p@, i as int),
{
    if p.len() > s.len() - i {
        return false;
    }
    same(part(s, i, i + p.len()), p)
}

/// Whether `s` begins with `p`.
pub open spec fn begins_with(s: Seq<char>, p: Seq<char>) -> bool {
    occurs_at(s, p, 0)
}

pub fn starts_with(s: &[char], p: &str) -> (r: bool)
    ensures
        r == begins_with(s@, p@),
{
    let p = chars_of(p);
    is_at(s, p.as_slice(), 0)
}

/// `s` without the prefix `p`, where it begins with it.
pub open spec fn without_prefix(s: Seq<char>, p: Seq<char>) -> Option<Seq<char>> {
    if begins_with(s, p) {
        Some(s.skip(p.len() as int))
    } else {
        None
    }
}

pub fn strip_prefix<'a>(s: &'a [char], p: &str) -> (r: Option<&'a [char]>)
    ensures
        match r {
            Some(t) => without_prefix(s@, p@) == Some(t@),
            None => without_prefix(s@, p@) is None,
        },
{
    let p = chars_of(p);
    if is_at(s, p.as_slice(), 0) {
        Some(rest(s, p.len()))
    } else {
        None
    }
}

/// Where `p` first stands in `s`, at `i` or later.
pub open spec fn find_from(s: Seq<char>, p: Seq<char>, i: int) -> Option<int>
    decreases s.len() + 1 - i,
{
    if i < 0 || i + p.len() > s.len() {
        None
    } else if occurs_at(s, p, i) {
        Some(i)
    } else {
        find_from(s, p, i + 1)
    }
}

/// What `find_from` finds is the first place, and it finds one where there is one.
pub proof fn lemma_find_from(s: Seq<char>, p: Seq<char>, i: int)
    requires
        0 <= i,
    ensures
        match find_from(s, p, i) {
            Some(k) => i <= k && k + p.len() <= s.len() && occurs_at(s, p, k) && forall|j: int|
                i <= j < k ==> !occurs_at(s, p, j),
            None => forall|j: int| i <= j ==> !occurs_at(s, p, j),
        },
    decreases s.len() + 1 - i,
{
    if i + p.len() > s.len() {
    } else if occurs_at(s, p, i) {
    } else {
        lemma_find_from(s, p, i + 1);
    }
}

pub fn find(s: &[char], p: &[char], from: usize) -> (r: Option<usize>)
    requires
        from <= s@.len(),
    ensures
        match r {
            Some(k) => find_from(s@, p@, from as int) == Some(k as int) && from <= k && k + p@.len()
                <= s@.len() <= usize::MAX,
            None => find_from(s@, p@, from as int) is None,
        },
{
    let mut i: usize = from;
    while p.len() <= s.len() - i
        invariant
            from <= i <= s@.len(),
            find_from(s@, p@, from as int) == find_from(s@, p@, i as int),
        decreases s@.len() - i,
    {
        if is_at(s, p, i) {
            return Some(i);
        }
        proof {
            if i == s@.len() {
                assert(s@.subrange(i as int, i as int) =~= p@);
            }
        }
        i += 1;
    }
    None
}

/// Whether `p` stands anywhere in `s`.
pub open spec fn contains(s: Seq<char>, p: Seq<char>) -> bool {
    find_from(s, p, 0) is Some
}

pub fn has_text(s: &[char], p: &str) -> (r: bool)
    ensures
        r == contains(s@, p@),
{
    let p = chars_of(p);
    find(s, p.as_slice(), 0).is_some()
}

/// The end of the run of characters of the kind `k` that begins at `i`.
pub open spec fn run_end(s: Seq<char>, i: int, k: Class) -> int
    decreases s.len() - i,
{
    if 0 <= i < s.len() && of_class(s[i], k) {
        run_end(s, i + 1, k)
    } else {
        i
    }
}

/// A run holds only characters of its kind and stops before one that is not.
pub proof fn lemma_run_end(s: Seq<char>, i: int, k: Class)
    requires
        0 <= i <= s.len(),
    ensures
        i <= run_end(s, i, k) <= s.len(),
        forall|j: int| i <= j < run_end(s, i, k) ==> of_class(#[trigger] s[j], k),
        run_end(s, i, k) < s.len() ==> !of_class(s[run_end(s, i, k)], k),
    decreases s.len() - i,
{
    if i < s.len() && of_class(s[i], k) {
        lemma_run_end(s, i + 1, k);
    }
}

pub fn skip_run(s: &[char], from: usize, k: Class) -> (r: usize)
    requires
        from <= s@.len(),
    ensures
        r == run_end(s@, from as int, k),
        from <= r <= s@.len(),
{
    let mut i: usize = from;
    while i < s.len() && is_of_class(s[i], k)
        invariant
            from <= i <= s@.len(),
            run_end(s@, from as int, k) == run_end(s@, i as int, k),
        decreases s@.len() - i,
    {
        i += 1;
    }
    i
}

/// `s` without the white space it begins with.
pub open spec fn trimmed_start(s: Seq<char>) -> Seq<char> {
    s.skip(run_end(s, 0, Class::Space))
}

pub fn trim_start<'a>(s: &'a [char]) -> (r: &'a [char])
    ensures
        r@ == trimmed_start(s@),
{
    rest(s, skip_run(s, 0, Class::Space))
}

/// `s` without the white space it ends with.
pub open spec fn trimmed_end(s: Seq<char>) -> Seq<char>
    decreases s.len(),
{
    if s.len() > 0 && white_space(s.last()) {
        trimmed_end(s.drop_last())
    } else {
        s
    }
}

pub fn trim_end<'a>(s: &'a [char]) -> (r: &'a [char])
    ensures
        r@ == trimmed_end(s@),
{
    let mut n: usize = s.len();
    proof {
        assert(s@.take(n as int) =~= s@);
    }
    while n > 0 && is_white_space(s[n - 1])
        invariant
            n <= s@.len(),
            trimmed_end(s@) == trimmed_end(s@.take(n as int)),
        decreases n,
    {
        proof {
            assert(s@.take(n as int).drop_last() =~= s@.take(n - 1));
        }
        n -= 1;
    }
    head(s, n)
}

/// `s` without the white space at both ends.
pub open spec fn trimmed(s: Seq<char>) -> Seq<char> {
    trimmed_end(trimmed_start(s))
}

pub fn trim<'a>(s: &'a [char]) -> (r: &'a [char])
    ensures
        r@ == trimmed(s@),
{
    trim_end(trim_start(s))
}

/// The ASCII lower case of a character.
pub open spec fn lower_char(c: char) -> char {
    if ascii_upper(c) {
        (c as u32 + 32) as char
    } else {
        c
    }
}

/// A text in ASCII lower case.
pub open spec fn lower_text(s: Seq<char>) -> Seq<char> {
    Seq::new(s.len(), |i: int| lower_char(s[i]))
}

fn to_lower(c: char) -> (r: char)
    ensures
        r == lower_char(c),
{
    if 'A' <= c && c <= 'Z' {
        ((c as u8) + 32) as char
    } else {
        c
    }
}

pub fn lowered(s: &[char]) -> (r: Vec<char>)
    ensures
        r@ == lower_text(s@),
{
    let mut out: Vec<char> = Vec::new();
    let mut i: usize = 0;
    while i < s.len()
        invariant
            i <= s@.len(),
            out@.len() == i,
            forall|j: int| 0 <= j < i ==> out@[j] == lower_char(s@[j]),
        decreases s@.len() - i,
    {
        out.push(to_lower(s[i]));
        i += 1;
    }
    proof {
        assert(out@ =~= lower_text(s@));
    }
    out
}

/// The texts that a sequence of character vectors spells.
pub open spec fn spelled(v: Seq<Vec<char>>) -> Seq<Seq<char>> {
    Seq::new(v.len(), |i: int| v[i]@)
}

/// The texts that a sequence of strings spells.
pub open spec fn texts(v: Seq<String>) -> Seq<Seq<char>> {
    Seq::new(v.len(), |i: int| v[i]@)
}

/// The text that an optional string spells.
pub open spec fn opt_text(s: Option<String>) -> Option<Seq<char>> {
    match s {
        Some(s) => Some(s@),
        None => None,
    }
}

/// A copy of an optional reference to a string.
pub fn opt_copy(s: Option<&String>) -> (r: Option<String>)
    ensures
        match s {
            Some(t) => opt_text(r) == Some(t@),
            None => r is None,
        },
{
    match s {
        Some(t) => Some(t.clone()),
        None => None,
    }
}

/// Whether one of `list` spells `t`.
pub fn lists(list: &Vec<Vec<char>>, t: &[char]) -> (r: bool)
    ensures
        r == spelled(list@).contains(t@),
{
    let mut i: usize = 0;
    while i < list.len()
        invariant
            i <= list@.len(),
            forall|j: int| 0 <= j < i ==> list@[j]@ != t@,
        decreases list@.len() - i,
    {
        if same(list[i].as_slice(), t) {
            proof {
                assert(spelled(list@)[i as int] == t@);
            }
            return true;
        }
        i += 1;
    }
    false
}

/// A line without the carriage return that it may end in.
pub open spec fn without_return(s: Seq<char>) -> Seq<char> {
    if s.len() > 0 && s.last() == '\r' {
        s.drop_last()
    } else {
        s
    }
}

/// The lines of a text: each is ended by a line feed, or by a carriage return
/// and a line feed; the last one may lack its end.
pub open spec fn lines_of(s: Seq<char>) -> Seq<Seq<char>>
    decreases s.len(),
{
    if s.len() == 0 {
        Seq::empty()
    } else {
        match find_from(s, seq!['\n'], 0) {
            None => seq![s],
            Some(k) => if 0 <= k < s.len() {
                seq![without_return(s.take(k))] + lines_of(s.skip(k + 1))
            } else {
                seq![s]
            },
        }
    }
}

pub fn lines(s: &[char]) -> (r: Vec<Vec<char>>)
    ensures
        spelled(r@) == lines_of(s@),
{
    let mut out: Vec<Vec<char>> = Vec::new();
    let mut i: usize = 0;
    let mut feed: Vec<char> = Vec::new();
    feed.push('\n');
    proof {
        assert(feed@ =~= seq!['\n']);
        assert(s@.skip(0) =~= s@);
        assert(spelled(out@) + lines_of(s@.skip(0)) =~= lines_of(s@));
    }
    while i < s.len()
        invariant
            i <= s@.len(),
            feed@ == seq!['\n'],
            spelled(out@) + lines_of(s@.skip(i as int)) == lines_of(s@),
        decreases s@.len() - i,
    {
        let tail = rest(s, i);
        let ghost before = spelled(out@);
        match find(tail, feed.as_slice(), 0) {
            None => {
                out.push(copy_chars(tail));
                i = s.len();
                proof {
                    assert(spelled(out@) =~= before + seq![tail@]);
                    assert(s@.skip(i as int) =~= Seq::<char>::empty());
                    assert(lines_of(s@.skip(i as int)) =~= Seq::<Seq<char>>::empty());
                    assert(spelled(out@) + lines_of(s@.skip(i as int)) =~= before + seq![tail@]);
                }
            },
            Some(k) => {
                let end = if k > 0 && tail[k - 1] == '\r' {
                    k - 1
                } else {
                    k
                };
                out.push(copy_chars(head(tail, end)));
                let ghost j = i as int;
                i = i + k + 1;
                proof {
                    assert(without_return(tail@.take(k as int)) =~= tail@.take(end as int));
                    assert(spelled(out@) =~= before + seq![tail@.take(end as int)]);
                    assert(s@.skip(j).skip(k + 1) =~= s@.skip(i as int));
                    assert(spelled(out@) + lines_of(s@.skip(i as int)) =~= before + (seq![
                        tail@.take(end as int),
                    ] + lines_of(s@.skip(i as int))));
                }
            },
        }
    }
    proof {
        assert(s@.skip(i as int) =~= Seq::<char>::empty());
        assert(spelled(out@) + lines_of(s@.skip(i as int)) =~= spelled(out@));
    }
    out
}

/// The pieces of a text: the runs of the kind `ink` that runs of the kind `gap`
/// part.
pub open spec fn pieces_of(s: Seq<char>, gap: Class, ink: Class) -> Seq<Seq<char>>
    decreases s.len(),
{
    let a = run_end(s, 0, gap);
    let b = run_end(s, a, ink);
    if 0 <= a < b <= s.len() {
        seq![s.subrange(a, b)] + pieces_of(s.skip(b), gap, ink)
    } else {
        Seq::empty()
    }
}

pub fn pieces(s: &[char], gap: Class, ink: Class) -> (r: Vec<Vec<char>>)
    ensures
        spelled(r@) == pieces_of(s@, gap, ink),
{
    let mut out: Vec<Vec<char>> = Vec::new();
    let mut cur = rest(s, 0);
    proof {
        assert(s@.skip(0) =~= s@);
        assert(spelled(out@) + pieces_of(cur@, gap, ink) =~= pieces_of(s@, gap, ink));
    }
    loop
        invariant_except_break
            spelled(out@) + pieces_of(cur@, gap, ink) == pieces_of(s@, gap, ink),
        ensures
            spelled(out@) == pieces_of(s@, gap, ink),
        decreases cur@.len(),
    {
        let a = skip_run(cur, 0, gap);
        let b = skip_run(cur, a, ink);
        if b == a {
            proof {
                assert(spelled(out@) + pieces_of(cur@, gap, ink) =~= spelled(out@));
            }
            break;
        }
        let ghost before = spelled(out@);
        let ghost was = cur@;
        out.push(copy_chars(part(cur, a, b)));
        cur = rest(cur, b);
        proof {
            let w = was.subrange(a as int, b as int);
            let later = pieces_of(cur@, gap, ink);
            assert(spelled(out@) =~= before + seq![w]);
            assert(spelled(out@) + later =~= before + (seq![w] + later));
        }
    }
    out
}

/// The words of a text, which white space parts.
pub open spec fn words_of(s: Seq<char>) -> Seq<Seq<char>> {
    pieces_of(s, Class::Space, Class::Ink)
}

pub fn words(s: &[char]) -> (r: Vec<Vec<char>>)
    ensures
        spelled(r@) == words_of(s@),
{
    pieces(s, Class::Space, Class::Ink)
}

/// Whether `s` ends with `p`.
pub open spec fn finishes_with(s: Seq<char>, p: Seq<char>) -> bool {
    occurs_at(s, p, s.len() - p.len())
}

pub fn ends_with(s: &[char], p: &str) -> (r: bool)
    ensures
        r == finishes_with(s@, p@),
{
    let p = chars_of(p);
    if p.len() > s.len() {
        return false;
    }
    is_at(s, p.as_slice(), s.len() - p.len())
}

/// `s` with every carriage return that stands before a line feed taken out.
pub open spec fn without_returns(s: Seq<char>) -> Seq<char>
    decreases s.len(),
{
    if s.len() == 0 {
        Seq::empty()
    } else if s.len() >= 2 && s[0] == '\r' && s[1] == '\n' {
        seq!['\n'] + without_returns(s.skip(2))
    } else {
        seq![s[0]] + without_returns(s.skip(1))
    }
}

pub fn drop_returns(s: &[char]) -> (r: Vec<char>)
    ensures
        r@ == without_returns(s@),
{
    let mut out: Vec<char> = Vec::new();
    let mut i: usize = 0;
    proof {
        assert(s@.skip(0) =~= s@);
        assert(out@ + without_returns(s@) =~= without_returns(s@));
    }
    while i < s.len()
        invariant
            i <= s@.len(),
            out@ + without_returns(s@.skip(i as int)) == without_returns(s@),
        decreases s@.len() - i,
    {
        let ghost was = out@;
        let ghost at = i as int;
        let ghost tail = s@.skip(at);
        proof {
            assert(tail[0] == s@[at]);
        }
        if s[i] == '\r' && i + 1 < s.len() && s[i + 1] == '\n' {
            out.push('\n');
            i += 2;
            proof {
                assert(tail[1] == s@[at + 1]);
                assert(tail.skip(2) =~= s@.skip(i as int));
                let later = without_returns(s@.skip(i as int));
                assert(out@ + later =~= was + (seq!['\n'] + later));
            }
        } else {
            out.push(s[i]);
            i += 1;
            proof {
                assert(tail.skip(1) =~= s@.skip(i as int));
                let later = without_returns(s@.skip(i as int));
                assert(tail.len() >= 2 ==> tail[1] == s@[at + 1]);
                assert(out@ + later =~= was + (seq![s@[at]] + later));
            }
        }
    }
    proof {
        assert(s@.skip(i as int) =~= Seq::<char>::empty());
        assert(out@ + without_returns(s@.skip(i as int)) =~= out@);
    }
    out
}

/// The texts with a line feed between each and the next.
pub open spec fn joined(list: Seq<Seq<char>>) -> Seq<char>
    decreases list.len(),
{
    if list.len() == 0 {
        Seq::empty()
    } else if list.len() == 1 {
        list[0]
    } else {
        joined(list.drop_last()).push('\n') + list.last()
    }
}

pub fn join(list: &Vec<Vec<char>>) -> (r: Vec<char>)
    ensures
        r@ == joined(spelled(list@)),
{
    let mut out: Vec<char> = Vec::new();
    let mut i: usize = 0;
    let ghost all = spelled(list@);
    while i < list.len()
        invariant
            i <= list@.len(),
            all == spelled(list@),
            out@ == joined(all.take(i as int)),
        decreases list@.len() - i,
    {
        if i > 0 {
            out.push('\n');
        }
        let mut piece = copy_chars(list[i].as_slice());
        out.append(&mut piece);
        proof {
            assert(all.take(i + 1).drop_last() =~= all.take(i as int));
            assert(all.take(i + 1).last() == list@[i as int]@);
            if i == 0 {
                assert(Seq::<char>::empty() + list@[0]@ =~= list@[0]@);
            }
        }
        i += 1;
    }
    proof {
        assert(all.take(list@.len() as int) =~= all);
    }
    out
}

/// `s` without the byte-order marks that it begins with.
pub open spec fn without_marks(s: Seq<char>) -> Seq<char>
    decreases s.len(),
{
    if s.len() > 0 && s[0] == '\u{feff}' {
        without_marks(s.skip(1))
    } else {
        s
    }
}

pub fn drop_marks<'a>(s: &'a [char]) -> (r: &'a [char])
    ensures
        r@ == without_marks(s@),
{
    let mut cur = s;
    while cur.len() > 0 && cur[0] == '\u{feff}'
        invariant
            without_marks(cur@) == without_marks(s@),
        decreases cur@.len(),
    {
        cur = rest(cur, 1);
    }
    cur
}

/// `s` without the byte-order mark that it may begin with.
pub open spec fn without_mark(s: Seq<char>) -> Seq<char> {
    if s.len() > 0 && s[0] == '\u{feff}' {
        s.skip(1)
    } else {
        s
    }
}

pub fn drop_mark<'a>(s: &'a [char]) -> (r: &'a [char])
    ensures
        r@ == without_mark(s@),
{
    if s.len() > 0 && s[0] == '\u{feff}' {
        rest(s, 1)
    } else {
        s
    }
}

/// Where `c` last stands in `s`.
pub open spec fn last_index(s: Seq<char>, c: char) -> Option<int>
    decreases s.len(),
{
    if s.len() == 0 {
        None
    } else if s.last() == c {
        Some(s.len() - 1)
    } else {
        last_index(s.drop_last(), c)
    }
}

pub fn find_last(s: &[char], c: char) -> (r: Option<usize>)
    ensures
        match r {
            Some(k) => last_index(s@, c) == Some(k as int) && k < s@.len(),
            None => last_index(s@, c) is None,
        },
{
    let mut n: usize = s.len();
    proof {
        assert(s@.take(n as int) =~= s@);
    }
    while n > 0
        invariant
            n <= s@.len(),
            last_index(s@, c) == last_index(s@.take(n as int), c),
        decreases n,
    {
        proof {
            assert(s@.take(n as int).drop_last() =~= s@.take(n - 1));
            assert(s@.take(n as int).last() == s@[n - 1]);
        }
        n -= 1;
        if s[n] == c {
            return Some(n);
        }
    }
    None
}

/// Where `c` first stands in `s`, at `i` or later.
pub open spec fn index_from(s: Seq<char>, c: char, i: int) -> Option<int>
    decreases s.len() - i,
{
    if !(0 <= i < s.len()) {
        None
    } else if s[i] == c {
        Some(i)
    } else {
        index_from(s, c, i + 1)
    }
}

pub fn find_char(s: &[char], c: char, from: usize) -> (r: Option<usize>)
    requires
        from <= s@.len(),
    ensures
        match r {
            Some(k) => index_from(s@, c, from as int) == Some(k as int) && from <= k < s@.len()
                <= usize::MAX,
            None => index_from(s@, c, from as int) is None,
        },
{
    let mut i: usize = from;
    while i < s.len()
        invariant
            from <= i <= s@.len(),
            index_from(s@, c, from as int) == index_from(s@, c, i as int),
        decreases s@.len() - i,
    {
        if s[i] == c {
            return Some(i);
        }
        i += 1;
    }
    None
}

/// Whether a text has no line feed.
pub open spec fn one_line(s: Seq<char>) -> bool {
    forall|i: int| 0 <= i < s.len() ==> #[trigger] s[i] != '\n'
}

/// The first line feed of a text is where `find_from` says.
proof fn lemma_feed(s: Seq<char>, k: int)
    requires
        0 <= k < s.len(),
        s[k] == '\n',
        one_line(s.take(k)),
    ensures
        find_from(s, seq!['\n'], 0) == Some(k),
{
    lemma_find_from(s, seq!['\n'], 0);
    assert(s.subrange(k, k + 1) =~= seq!['\n']);
    assert(occurs_at(s, seq!['\n'], k));
    let f = find_from(s, seq!['\n'], 0)->Some_0;
    assert(f <= k);
    if f < k {
        assert(s.subrange(f, f + 1)[0] == '\n');
        assert(s.take(k)[f] == s[f]);
    }
}

/// The lines of a text hold no line feed.
pub proof fn lemma_lines_are_lines(s: Seq<char>)
    ensures
        forall|i: int| 0 <= i < lines_of(s).len() ==> one_line(#[trigger] lines_of(s)[i]),
    decreases s.len(),
{
    if s.len() > 0 {
        lemma_find_from(s, seq!['\n'], 0);
        match find_from(s, seq!['\n'], 0) {
            None => {
                assert forall|i: int| 0 <= i < s.len() implies #[trigger] s[i] != '\n' by {
                    if s[i] == '\n' {
                        assert(s.subrange(i, i + 1) =~= seq!['\n']);
                        assert(occurs_at(s, seq!['\n'], i));
                    }
                }
            },
            Some(k) => {
                lemma_lines_are_lines(s.skip(k + 1));
                assert forall|i: int| 0 <= i < k implies #[trigger] s[i] != '\n' by {
                    if s[i] == '\n' {
                        assert(s.subrange(i, i + 1) =~= seq!['\n']);
                        assert(occurs_at(s, seq!['\n'], i));
                    }
                }
                let first = without_return(s.take(k));
                assert(one_line(first)) by {
                    assert forall|i: int| 0 <= i < first.len() implies #[trigger] first[i] != '\n' by {
                        assert(first[i] == s[i]);
                    }
                }
                let others = lines_of(s.skip(k + 1));
                assert forall|i: int| 0 <= i < lines_of(s).len() implies one_line(
                    #[trigger] lines_of(s)[i],
                ) by {
                    if i > 0 {
                        assert(lines_of(s)[i] == others[i - 1]);
                    }
                }
            },
        }
    }
}

/// Joining puts the first text, a line feed and the others joined.
proof fn lemma_joined_front(list: Seq<Seq<char>>)
    requires
        list.len() >= 2,
    ensures
        joined(list) == list[0].push('\n') + joined(list.skip(1)),
    decreases list.len(),
{
    if list.len() == 2 {
        assert(joined(list.drop_last()) == list[0]);
        assert(joined(list.skip(1)) == list[1]);
    } else {
        lemma_joined_front(list.drop_last());
        assert(list.drop_last().skip(1) =~= list.skip(1).drop_last());
        let a = list[0].push('\n');
        let b = joined(list.skip(1).drop_last());
        assert(joined(list.skip(1)) == b.push('\n') + list.last());
        assert((a + b).push('\n') + list.last() =~= a + (b.push('\n') + list.last()));
    }
}

/// The lines of joined lines are those lines, perhaps without a carriage return.
pub proof fn lemma_lines_of_joined(list: Seq<Seq<char>>, i: int)
    requires
        forall|j: int| 0 <= j < list.len() ==> one_line(#[trigger] list[j]),
        0 <= i < lines_of(joined(list)).len(),
    ensures
        exists|j: int|
            0 <= j < list.len() && (lines_of(joined(list))[i] == #[trigger] list[j] || lines_of(
                joined(list),
            )[i] == without_return(list[j])),
    decreases list.len(),
{
    let s = joined(list);
    if list.len() == 0 {
    } else if list.len() == 1 {
        lemma_find_from(s, seq!['\n'], 0);
        if find_from(s, seq!['\n'], 0) is Some {
            let k = find_from(s, seq!['\n'], 0)->Some_0;
            assert(s.subrange(k, k + 1)[0] == '\n');
            assert(list[0][k] == '\n');
        }
        assert(lines_of(s)[i] == list[0]);
    } else {
        lemma_joined_front(list);
        let later = list.skip(1);
        let k = list[0].len() as int;
        assert(s.take(k) =~= list[0]);
        assert(s[k] == '\n');
        lemma_feed(s, k);
        assert(s.skip(k + 1) =~= joined(later));
        assert(lines_of(s) == seq![without_return(list[0])] + lines_of(joined(later)));
        if i == 0 {
            assert(lines_of(s)[0] == without_return(list[0]));
        } else {
            assert forall|j: int| 0 <= j < later.len() implies one_line(#[trigger] later[j]) by {
                assert(later[j] == list[j + 1]);
            }
            lemma_lines_of_joined(later, i - 1);
            let j = choose|j: int|
                0 <= j < later.len() && (lines_of(joined(later))[i - 1] == #[trigger] later[j]
                    || lines_of(joined(later))[i - 1] == without_return(later[j]));
            assert(list[j + 1] == later[j]);
        }
    }
}

/// What a line begins with, behind its white space, it also begins with when a
/// carriage return is at its end.
pub proof fn lemma_begins_without_return(line: Seq<char>, p: Seq<char>)
    requires
        p.len() > 0,
        begins_with(trimmed_start(without_return(line)), p),
    ensures
        begins_with(trimmed_start(line), p),
{
    let cut = without_return(line);
    let a = run_end(cut, 0, Class::Space);
    lemma_run_end(cut, 0, Class::Space);
    lemma_run_end(line, 0, Class::Space);
    let b = run_end(line, 0, Class::Space);
    assert(a < cut.len());
    assert(line[a] == cut[a]);
    if b < a {
        assert(cut[b] == line[b]);
    }
    if a < b {
        assert(of_class(line[a], Class::Space));
    }
    assert(trimmed_start(line).subrange(0, p.len() as int) =~= trimmed_start(cut).subrange(
        0,
        p.len() as int,
    ));
}

/// Trimming the end leaves a beginning that does not end in white space.
proof fn lemma_trimmed_end(s: Seq<char>)
    ensures
        trimmed_end(s).len() <= s.len(),
        trimmed_end(s) == s.take(trimmed_end(s).len() as int),
        trimmed_end(s).len() > 0 ==> !white_space(trimmed_end(s).last()),
    decreases s.len(),
{
    if s.len() > 0 && white_space(s.last()) {
        lemma_trimmed_end(s.drop_last());
        assert(s.drop_last().take(trimmed_end(s).len() as int) =~= s.take(
            trimmed_end(s).len() as int,
        ));
    } else {
        assert(s.take(s.len() as int) =~= s);
    }
}

/// What is trimmed has nothing left to trim.
pub proof fn lemma_trimmed_twice(s: Seq<char>)
    ensures
        trimmed(trimmed(s)) == trimmed(s),
{
    let a = trimmed_start(s);
    let x = trimmed(s);
    lemma_run_end(s, 0, Class::Space);
    lemma_trimmed_end(a);
    if x.len() > 0 {
        assert(x[0] == a[0]);
        assert(!white_space(a[0]));
        assert(run_end(x, 0, Class::Space) == 0);
    }
    lemma_run_end(x, 0, Class::Space);
    assert(x.skip(0) =~= x);
    assert(trimmed_start(x) =~= x);
}

/// Texts with `sep` between them.
pub open spec fn parted(list: Seq<Seq<char>>, sep: Seq<char>) -> Seq<char>
    decreases list.len(),
{
    if list.len() == 0 {
        Seq::empty()
    } else if list.len() == 1 {
        list[0]
    } else {
        parted(list.drop_last(), sep) + sep + list.last()
    }
}

/// Texts with `sep` between them.
pub fn join_with(list: &Vec<String>, sep: &str) -> (r: String)
    ensures
        r@ == parted(texts(list@), sep@),
{
    let mut out = String::new();
    let ghost all = texts(list@);
    let mut i: usize = 0;
    proof {
        assert(all.take(0) =~= Seq::<Seq<char>>::empty());
        assert(out@ =~= Seq::<char>::empty());
    }
    while i < list.len()
        invariant
            i <= list@.len(),
            all == texts(list@),
            out@ == parted(all.take(i as int), sep@),
        decreases list@.len() - i,
    {
        let ghost before = out@;
        if i > 0 {
            push_text(&mut out, sep);
        }
        push_text(&mut out, list[i].as_str());
        proof {
            let t = all.take(i + 1);
            assert(t.drop_last() =~= all.take(i as int));
            assert(t.last() == list@[i as int]@);
            if i == 0 {
                assert(before =~= Seq::<char>::empty());
                assert(out@ =~= t[0]);
            } else {
                assert(out@ =~= before + sep@ + t.last());
            }
        }
        i += 1;
    }
    proof {
        assert(all.take(all.len() as int) =~= all);
    }
    out
}

/// A text with spaces behind it, up to a width.
pub open spec fn padded(s: Seq<char>, width: nat) -> Seq<char> {
    if s.len() < width {
        s + Seq::new((width - s.len()) as nat, |i: int| ' ')
    } else {
        s
    }
}

/// Add a text with spaces behind it, up to a width.
pub fn push_padded(out: &mut String, s: &str, width: usize)
    ensures
        final(out)@ == old(out)@ + padded(s@, width as nat),
{
    let all = chars_of(s);
    push_text(out, s);
    let ghost before = out@;
    let mut i = all.len();
    while i < width
        invariant
            all@ == s@,
            s@.len() <= i,
            i <= width || i == s@.len(),
            before == old(out)@ + s@,
            out@ == before + Seq::new((i - s@.len()) as nat, |j: int| ' '),
        decreases width - i,
    {
        out.push(' ');
        i += 1;
        proof {
            assert(out@ =~= before + Seq::new((i - s@.len()) as nat, |j: int| ' '));
        }
    }
    proof {
        assert(out@ =~= old(out)@ + padded(s@, width as nat));
    }
}

/// What the standard library writes of a text that is not plain, in quotes.
pub uninterp spec fn escaped(s: Seq<char>) -> Seq<char>;

/// Whether a text stands in quotes as it is: printable ASCII, without a quote or a
/// backslash.
pub open spec fn is_plain(s: Seq<char>) -> bool {
    forall|i: int|
        0 <= i < s.len() ==> ' ' <= (#[trigger] s[i]) <= '~' && s[i] != '"' && s[i] != '\\'
}

/// A text in quotes.
pub open spec fn in_quotes(s: Seq<char>) -> Seq<char> {
    if is_plain(s) {
        seq!['"'] + s + seq!['"']
    } else {
        escaped(s)
    }
}

/// The `Debug` form of `str`: printable ASCII other than the quote and the backslash
/// stands between quotes as it is. How any other text is escaped follows Unicode's
/// tables and is only named.
#[verifier::external_body]
pub(crate) fn quoted(s: &str) -> (r: String)
    ensures
        is_plain(s@) ==> r@ == seq!['"'] + s@ + seq!['"'],
        !is_plain(s@) ==> r@ == escaped(s@),
{
    format!("{:?}", s)
}

/// A text without the byte-order mark that it may begin with.
pub fn unmarked(s: &str) -> (r: String)
    ensures
        r@ == without_mark(s@),
{
    let all = chars_of(s);
    string_of(drop_mark(all.as_slice()))
}

/// A run is what its first and its next character say.
pub proof fn lemma_run_ends(s: Seq<char>, a: int, b: int, k: Class)
    requires
        0 <= a <= b <= s.len(),
        forall|j: int| a <= j < b ==> of_class(#[trigger] s[j], k),
        b < s.len() ==> !of_class(s[b], k),
    ensures
        run_end(s, a, k) == b,
    decreases b - a,
{
    if a < b {
        assert(of_class(s[a], k));
        lemma_run_ends(s, a + 1, b, k);
    }
}

/// White space before a text is trimmed, and nothing else.
pub proof fn law_leading_space_is_trimmed(lead: Seq<char>, text: Seq<char>)
    requires
        forall|i: int| 0 <= i < lead.len() ==> white_space(#[trigger] lead[i]),
        text.len() > 0 ==> !white_space(text[0]),
    ensures
        trimmed_start(lead + text) == text,
{
    let s = lead + text;
    let n = lead.len() as int;
    assert forall|j: int| 0 <= j < n implies of_class(#[trigger] s[j], Class::Space) by {
        assert(s[j] == lead[j]);
    }
    if text.len() > 0 {
        assert(s[n] == text[0]);
    }
    lemma_run_ends(s, 0, n, Class::Space);
    assert(s.skip(n) =~= text);
}

/// White space on both sides of a text is trimmed, and nothing else.
pub proof fn law_space_around_is_trimmed(lead: Seq<char>, text: Seq<char>, end: Seq<char>)
    requires
        forall|i: int| 0 <= i < lead.len() ==> white_space(#[trigger] lead[i]),
        forall|i: int| 0 <= i < end.len() ==> white_space(#[trigger] end[i]),
        text.len() > 0,
        !white_space(text[0]),
        !white_space(text.last()),
    ensures
        trimmed(lead + text + end) == text,
    decreases end.len(),
{
    let s = text + end;
    assert(lead + text + end =~= lead + s);
    assert(s[0] == text[0]);
    law_leading_space_is_trimmed(lead, s);
    if end.len() > 0 {
        let fewer = end.drop_last();
        assert forall|i: int| 0 <= i < fewer.len() implies white_space(#[trigger] fewer[i]) by {
            assert(fewer[i] == end[i]);
        }
        law_space_around_is_trimmed(lead, text, fewer);
        assert(lead + text + fewer =~= lead + (text + fewer));
        assert((text + fewer)[0] == text[0]);
        law_leading_space_is_trimmed(lead, text + fewer);
        assert(s.last() == end.last());
        assert(end.last() == end[end.len() - 1]);
        assert(s.drop_last() =~= text + fewer);
    } else {
        assert(s =~= text);
        assert(trimmed_end(text) == text);
    }
}

/// A text is parted by gaps: the first piece stands behind its gap, and the others are
/// those of the rest.
pub proof fn law_pieces_follow_each_other(
    space: Seq<char>,
    word: Seq<char>,
    rest: Seq<char>,
    gap: Class,
    ink: Class,
)
    requires
        forall|i: int| 0 <= i < space.len() ==> of_class(#[trigger] space[i], gap),
        word.len() > 0,
        forall|i: int| 0 <= i < word.len() ==> of_class(#[trigger] word[i], ink),
        !of_class(word[0], gap),
        rest.len() > 0 ==> !of_class(rest[0], ink),
    ensures
        pieces_of(space + word + rest, gap, ink) == seq![word] + pieces_of(rest, gap, ink),
{
    let s = space + word + rest;
    let a = space.len() as int;
    let b = a + word.len();
    assert forall|j: int| 0 <= j < a implies of_class(#[trigger] s[j], gap) by {
        assert(s[j] == space[j]);
    }
    assert(s[a] == word[0]);
    lemma_run_ends(s, 0, a, gap);
    assert forall|j: int| a <= j < b implies of_class(#[trigger] s[j], ink) by {
        assert(s[j] == word[j - a]);
    }
    if b < s.len() {
        assert(s[b] == rest[0]);
    }
    lemma_run_ends(s, a, b, ink);
    assert(s.subrange(a, b) =~= word);
    assert(s.skip(b) =~= rest);
}

/// A text of nothing but gaps has no pieces.
pub proof fn law_gaps_are_no_pieces(space: Seq<char>, gap: Class, ink: Class)
    requires
        forall|i: int| 0 <= i < space.len() ==> of_class(#[trigger] space[i], gap),
    ensures
        pieces_of(space, gap, ink) == Seq::<Seq<char>>::empty(),
{
    lemma_run_ends(space, 0, space.len() as int, gap);
}

/// A character is found where it first stands.
pub proof fn law_characters_are_found(before: Seq<char>, c: char, after: Seq<char>, other: Seq<char>)
    requires
        forall|i: int| 0 <= i < before.len() ==> #[trigger] before[i] != c,
        forall|i: int| 0 <= i < other.len() ==> #[trigger] other[i] != c,
    ensures
        index_from(before + seq![c] + after, c, 0) == Some(before.len() as int),
        index_from(other, c, 0) is None,
        last_index(other + seq![c] + before, c) == Some(other.len() as int),
        last_index(other, c) is None,
{
    lemma_index_is(before + seq![c] + after, c, 0, before.len() as int);
    lemma_index_none(other, c, 0);
    lemma_last_index_is(other + seq![c] + before, c, other.len() as int);
    lemma_last_index_none(other, c);
}

proof fn lemma_index_is(s: Seq<char>, c: char, i: int, k: int)
    requires
        0 <= i <= k < s.len(),
        s[k] == c,
        forall|j: int| i <= j < k ==> #[trigger] s[j] != c,
    ensures
        index_from(s, c, i) == Some(k),
    decreases k - i,
{
    if i < k {
        assert(s[i] != c);
        lemma_index_is(s, c, i + 1, k);
    }
}

proof fn lemma_index_none(s: Seq<char>, c: char, i: int)
    requires
        0 <= i <= s.len(),
        forall|j: int| i <= j < s.len() ==> #[trigger] s[j] != c,
    ensures
        index_from(s, c, i) is None,
    decreases s.len() - i,
{
    if i < s.len() {
        assert(s[i] != c);
        lemma_index_none(s, c, i + 1);
    }
}

pub proof fn lemma_last_index_is(s: Seq<char>, c: char, k: int)
    requires
        0 <= k < s.len(),
        s[k] == c,
        forall|j: int| k < j < s.len() ==> #[trigger] s[j] != c,
    ensures
        last_index(s, c) == Some(k),
    decreases s.len(),
{
    if k < s.len() - 1 {
        assert(s[s.len() - 1] != c);
        let t = s.drop_last();
        assert forall|j: int| k < j < t.len() implies #[trigger] t[j] != c by {
            assert(t[j] == s[j]);
        }
        lemma_last_index_is(t, c, k);
    }
}

pub proof fn lemma_last_index_none(s: Seq<char>, c: char)
    requires
        forall|j: int| 0 <= j < s.len() ==> #[trigger] s[j] != c,
    ensures
        last_index(s, c) is None,
    decreases s.len(),
{
    if s.len() > 0 {
        assert(s[s.len() - 1] != c);
        let t = s.drop_last();
        assert forall|j: int| 0 <= j < t.len() implies #[trigger] t[j] != c by {
            assert(t[j] == s[j]);
        }
        lemma_last_index_none(t, c);
    }
}

/// A line is what stands before its end: a line feed, with or without a carriage return
/// before it. The other lines are those of the rest.
pub proof fn law_lines_end_at_their_feeds(line: Seq<char>, rest: Seq<char>)
    requires
        forall|i: int| 0 <= i < line.len() ==> #[trigger] line[i] != '\n',
        line.len() > 0 ==> line.last() != '\r',
    ensures
        lines_of(line.push('\n') + rest) == seq![line] + lines_of(rest),
        lines_of(line.push('\r').push('\n') + rest) == seq![line] + lines_of(rest),
        line.len() > 0 ==> lines_of(line) == seq![line],
        lines_of(Seq::empty()) == Seq::<Seq<char>>::empty(),
{
    lemma_first_line(line, rest);
    lemma_first_line(line.push('\r'), rest);
    assert(line.push('\r').drop_last() =~= line);
    if line.len() > 0 {
        lemma_find_from(line, seq!['\n'], 0);
        assert forall|j: int| 0 <= j implies !occurs_at(line, seq!['\n'], j) by {
            if occurs_at(line, seq!['\n'], j) {
                assert(line.subrange(j, j + 1)[0] == line[j]);
            }
        }
    }
}

proof fn lemma_first_line(line: Seq<char>, rest: Seq<char>)
    requires
        forall|i: int| 0 <= i < line.len() ==> #[trigger] line[i] != '\n',
    ensures
        lines_of(line.push('\n') + rest) == seq![without_return(line)] + lines_of(rest),
{
    let s = line.push('\n') + rest;
    let k = line.len() as int;
    lemma_find_from(s, seq!['\n'], 0);
    assert(s[k] == '\n');
    assert(s.subrange(k, k + 1) =~= seq!['\n']);
    assert(occurs_at(s, seq!['\n'], k));
    assert forall|j: int| 0 <= j < k implies !#[trigger] occurs_at(s, seq!['\n'], j) by {
        if occurs_at(s, seq!['\n'], j) {
            assert(s.subrange(j, j + 1)[0] == s[j]);
            assert(s[j] == line[j]);
        }
    }
    assert(s.take(k) =~= line);
    assert(s.skip(k + 1) =~= rest);
}

/// A text loses one byte-order mark that it begins with, and nothing else.
pub proof fn law_one_mark_is_dropped(s: Seq<char>)
    ensures
        without_mark(seq!['\u{feff}'] + s) == s,
        s.len() == 0 || s[0] != '\u{feff}' ==> without_mark(s) == s,
{
    assert((seq!['\u{feff}'] + s).skip(1) =~= s);
}

/// Texts are joined in their order, with what parts them between each two.
pub proof fn law_texts_are_parted(list: Seq<Seq<char>>, last: Seq<char>, sep: Seq<char>)
    ensures
        parted(Seq::empty(), sep) == Seq::<char>::empty(),
        parted(seq![last], sep) == last,
        list.len() > 0 ==> parted(list.push(last), sep) == parted(list, sep) + sep + last,
        joined(seq![last]) == last,
{
    assert(list.push(last).drop_last() =~= list);
    assert(seq![last].drop_last() =~= Seq::<Seq<char>>::empty());
}

/// A text is widened by spaces behind it up to its width, and never cut.
pub proof fn law_padding_is_behind(s: Seq<char>, width: nat, i: int)
    ensures
        padded(s, width).len() == (if s.len() < width {
            width
        } else {
            s.len()
        }),
        padded(s, width).take(s.len() as int) == s,
        s.len() <= i < padded(s, width).len() ==> padded(s, width)[i] == ' ',
{
    assert(padded(s, width).take(s.len() as int) =~= s);
}

/// Lower case changes the letters from A to Z alone, each to the letter with the same
/// place from a to z.
pub proof fn law_lower_case_is_letter_by_letter(s: Seq<char>, i: int)
    requires
        0 <= i < s.len(),
    ensures
        lower_text(s).len() == s.len(),
        'A' <= s[i] <= 'Z' ==> lower_text(s)[i] as int - 'a' as int == s[i] as int - 'A' as int,
        !('A' <= s[i] <= 'Z') ==> lower_text(s)[i] == s[i],
{
}

/// Of a text that is all white space nothing is left, and of another something is.
pub proof fn law_only_white_space_is_trimmed_away(s: Seq<char>)
    ensures
        (trimmed(s).len() == 0) == (forall|i: int|
            0 <= i < s.len() ==> white_space(#[trigger] s[i])),
{
    lemma_run_end(s, 0, Class::Space);
    let a = run_end(s, 0, Class::Space);
    if forall|i: int| 0 <= i < s.len() ==> white_space(#[trigger] s[i]) {
        assert forall|i: int| 0 <= i < s.len() implies of_class(#[trigger] s[i], Class::Space) by {
        }
        lemma_run_ends(s, 0, s.len() as int, Class::Space);
        assert(trimmed_start(s).len() == 0);
    } else {
        let i = choose|i: int| 0 <= i < s.len() && !white_space(#[trigger] s[i]);
        assert(a <= i) by {
            if i < a {
                assert(of_class(s[i], Class::Space));
            }
        }
        assert(s.skip(a)[i - a] == s[i]);
        lemma_end_kept(s.skip(a), i - a);
    }
}

proof fn lemma_end_kept(s: Seq<char>, i: int)
    requires
        0 <= i < s.len(),
        !white_space(s[i]),
    ensures
        trimmed_end(s).len() > i,
    decreases s.len(),
{
    if white_space(s.last()) {
        assert(s.drop_last()[i] == s[i]);
        lemma_end_kept(s.drop_last(), i);
    }
}

/// Whether the words of a text are these.
#[verifier::opaque]
pub open spec fn reads(s: Seq<char>, list: Seq<Seq<char>>) -> bool {
    words_of(s) == list
}

/// A word before other words, with white space before it, is read before them.
pub proof fn lemma_reads(space: Seq<char>, word: Seq<char>, rest: Seq<char>, list: Seq<Seq<char>>)
    requires
        forall|i: int| 0 <= i < space.len() ==> white_space(#[trigger] space[i]),
        word.len() > 0,
        forall|i: int| 0 <= i < word.len() ==> !white_space(#[trigger] word[i]),
        rest.len() > 0 ==> white_space(rest[0]),
        reads(rest, list),
    ensures
        reads(space + word + rest, seq![word] + list),
{
    reveal(reads);
    law_pieces_follow_each_other(space, word, rest, Class::Space, Class::Ink);
}

/// Nothing is read in an empty text.
pub proof fn lemma_reads_nothing()
    ensures
        reads(Seq::empty(), Seq::empty()),
{
    reveal(reads);
    law_gaps_are_no_pieces(Seq::empty(), Class::Space, Class::Ink);
}

/// What is read in a text are its words.
pub proof fn lemma_words_read(s: Seq<char>, list: Seq<Seq<char>>)
    requires
        reads(s, list),
    ensures
        words_of(s) == list,
{
    reveal(reads);
}

/// A line end of two characters becomes a line feed, and every other character stays.
pub proof fn law_line_ends_become_feeds(c: char, rest: Seq<char>)
    requires
        c != '\r' || rest.len() == 0 || rest[0] != '\n',
    ensures
        without_returns(seq!['\r', '\n'] + rest) == seq!['\n'] + without_returns(rest),
        without_returns(seq![c] + rest) == seq![c] + without_returns(rest),
        without_returns(Seq::empty()) == Seq::<char>::empty(),
{
    let two = seq!['\r', '\n'] + rest;
    let one = seq![c] + rest;
    let feed = seq!['\n'] + rest;
    assert(two.skip(2) =~= rest);
    assert(two.skip(1) =~= feed);
    assert(feed.skip(1) =~= rest);
    assert(one.skip(1) =~= rest);
    assert(one[0] == c);
    if rest.len() > 0 {
        assert(one[1] == rest[0]);
    }
    reveal_with_fuel(without_returns, 3);
}

} // verus!
