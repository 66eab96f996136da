//! Reader for Wallpaper Engine `MDLV` puppet models.
//!
//! A scene layer whose `models/*.json` names a `"puppet"` is a deforming mesh
//! rather than a quad. This parses that mesh, its skeleton, attachments and
//! animation.
//!
//! **Version driven, never wallpaper driven.** The format exists in several
//! revisions and each gives every length from the file itself:
//!
//! * sections are found by scanning for the `MD??NNNN` tags and validated by the
//!   small header that follows each one; a section's end comes from the *next
//!   section offset the file stores itself*;
//! * element counts come from the file's own count fields;
//! * per-element byte sizes come from the file's own size fields, so a bone
//!   matrix or a keyframe may change size without touching this code;
//! * the mesh block stores its own vertex and index byte lengths.
//!
//! A 32-bit float of the file is held as its bits.
use vstd::prelude::*;
use crate::bytes::{le_u16, le_u32};
use crate::numbers::parse_natural;
use crate::text::{decode_lossy, string_of};
use vstd::slice::slice_subrange;

verus! {

/// The length of a section tag, e.g. `MDLS0004`.
pub const TAG_LEN: usize = 8;

/// The material path always begins here, after the `MDLV` fixed prefix.
pub const MATERIAL_OFF: usize = 21;

/// How far past the material string to look for the mesh block.
pub const MESH_SEARCH_WINDOW: usize = 160;

pub const MIN_STRIDE: usize = 16;

pub const MAX_STRIDE: usize = 256;

/// Bytes per keyframe record: 9 floats (position, two unknowns, rotation, scale).
pub const KEYFRAME_BYTES: usize = 36;

/// The number that the `n` bytes at `o` hold, where they are there.
pub open spec fn number_at(d: Seq<u8>, o: int, n: nat) -> Option<nat> {
    if crate::bytes::holds(d, o, n as int) {
        Some(crate::bytes::le(d, o, n))
    } else {
        None
    }
}

fn u16_at(d: &[u8], o: usize) -> (r: Option<u16>)
    ensures
        match r {
            Some(v) => number_at(d@, o as int, 2) == Some(v as nat),
            None => number_at(d@, o as int, 2) is None,
        },
{
    if d.len() >= 2 && o <= d.len() - 2 {
        Some(le_u16(d, o))
    } else {
        None
    }
}

fn u32_at(d: &[u8], o: usize) -> (r: Option<u32>)
    ensures
        match r {
            Some(v) => number_at(d@, o as int, 4) == Some(v as nat) && o + 4 <= usize::MAX,
            None => number_at(d@, o as int, 4) is None,
        },
{
    if d.len() >= 4 && o <= d.len() - 4 {
        Some(le_u32(d, o))
    } else {
        None
    }
}

/// Where the first zero byte is, at `o` or later and before `end`.
pub open spec fn zero_from(d: Seq<u8>, o: int, end: int) -> Option<int>
    decreases end - o,
{
    if !(0 <= o < end && end <= d.len()) {
        None
    } else if d[o] == 0 {
        Some(o)
    } else {
        zero_from(d, o + 1, end)
    }
}

/// The smaller of two numbers.
pub open spec fn lesser(a: int, b: int) -> int {
    if a < b {
        a
    } else {
        b
    }
}

/// The NUL-terminated string at `o` that does not reach past `limit`, and where the
/// byte behind its end is.
pub open spec fn zstring_at(d: Seq<u8>, o: int, limit: int) -> Option<(Seq<char>, int)> {
    match zero_from(d, o, lesser(limit, d.len() as int)) {
        Some(end) => Some((crate::text::utf8_lossy(d.subrange(o, end)), end + 1)),
        None => None,
    }
}

fn find_zero(d: &[u8], o: usize, end: usize) -> (r: Option<usize>)
    requires
        end <= d@.len(),
    ensures
        match r {
            Some(k) => zero_from(d@, o as int, end as int) == Some(k as int) && o <= k < end,
            None => zero_from(d@, o as int, end as int) is None,
        },
{
    let mut i: usize = o;
    while i < end
        invariant
            o <= i,
            i <= end || i == o,
            end <= d@.len(),
            zero_from(d@, o as int, end as int) == zero_from(d@, i as int, end as int),
        decreases end - i,
    {
        if d[i] == 0 {
            return Some(i);
        }
        i += 1;
    }
    None
}

/// NUL-terminated string, not reading past `limit`.
fn zstring(d: &[u8], o: usize, limit: usize) -> (r: Option<(String, usize)>)
    ensures
        match r {
            Some((s, next)) => zstring_at(d@, o as int, limit as int) == Some((s@, next as int))
                && o < next <= limit && next <= d@.len(),
            None => zstring_at(d@, o as int, limit as int) is None,
        },
{
    let end = if limit < d.len() {
        limit
    } else {
        d.len()
    };
    match find_zero(d, o, end) {
        Some(k) => Some((decode_lossy(slice_subrange(d, o, k)), k + 1)),
        None => None,
    }
}

/// The bits of `n` floats from `o` on.
pub open spec fn floats(d: Seq<u8>, o: int, n: nat) -> Seq<u32> {
    Seq::new(n, |i: int| crate::bytes::le(d, o + 4 * i, 4) as u32)
}

/// The bits of `n` floats from `o` on, where they are there.
fn read_f32s(d: &[u8], o: usize, n: usize) -> (r: Option<Vec<u32>>)
    requires
        n <= 64,
    ensures
        match r {
            Some(v) => crate::bytes::holds(d@, o as int, 4 * n) && v@ == floats(
                d@,
                o as int,
                n as nat,
            ),
            None => !crate::bytes::holds(d@, o as int, 4 * n),
        },
{
    if d.len() < 4 * n || o > d.len() - 4 * n {
        return None;
    }
    let mut out: Vec<u32> = Vec::new();
    let mut i: usize = 0;
    while i < n
        invariant
            i <= n <= 64,
            o + 4 * n <= d@.len() <= usize::MAX,
            out@.len() == i,
            forall|j: int|
                0 <= j < i ==> #[trigger] out@[j] == crate::bytes::le(d@, o + 4 * j, 4) as u32,
        decreases n - i,
    {
        out.push(le_u32(d, o + 4 * i));
        i += 1;
    }
    proof {
        assert(out@ =~= floats(d@, o as int, n as nat));
    }
    Some(out)
}

/// The 4x4 matrix at `o`, row by row; zeros where the file ends before it does.
pub open spec fn matrix_at(d: Seq<u8>, o: int) -> Seq<u32> {
    if crate::bytes::holds(d, o, 64) {
        floats(d, o, 16)
    } else {
        Seq::new(16, |i: int| 0u32)
    }
}

fn mat4(d: &[u8], o: usize) -> (r: Vec<u32>)
    ensures
        r@ == matrix_at(d@, o as int),
{
    match read_f32s(d, o, 16) {
        Some(v) => v,
        None => {
            let v: Vec<u32> = vec![0u32; 16];
            proof {
                assert(v@ =~= matrix_at(d@, o as int));
            }
            v
        },
    }
}

pub open spec fn upper_byte(b: u8) -> bool {
    0x41 <= b && b <= 0x5A
}

pub open spec fn digit_byte(b: u8) -> bool {
    0x30 <= b && b <= 0x39
}

/// Whether bytes are a `MD??NNNN` section tag.
pub open spec fn is_tag(t: Seq<u8>) -> bool {
    &&& t.len() == 8
    &&& t[0] == 0x4D
    &&& t[1] == 0x44
    &&& upper_byte(t[2]) && upper_byte(t[3])
    &&& digit_byte(t[4]) && digit_byte(t[5]) && digit_byte(t[6]) && digit_byte(t[7])
}

/// Is `t` a `MD??NNNN` section tag?
pub fn is_mdl_tag(t: &[u8]) -> (r: bool)
    ensures
        r == is_tag(t@),
{
    t.len() == 8 && t[0] == 0x4D && t[1] == 0x44 && 0x41 <= t[2] && t[2] <= 0x5A && 0x41 <= t[3]
        && t[3] <= 0x5A && 0x30 <= t[4] && t[4] <= 0x39 && 0x30 <= t[5] && t[5] <= 0x39 && 0x30
        <= t[6] && t[6] <= 0x39 && 0x30 <= t[7] && t[7] <= 0x39
}

/// Where a section lies, and how many elements it has.
#[derive(Debug, Clone, Copy, PartialEq, Eq, Structural)]
pub struct Section {
    pub offset: usize,
    /// Offset of the section that follows, as stored by the file itself.
    pub next: usize,
    /// Element count from the section header.
    pub count: u16,
}

/// The section whose header is at `off`: a tag, a zero byte, where the next section
/// is, and a count.
pub open spec fn header_at(d: Seq<u8>, off: int) -> Option<Section> {
    if crate::bytes::holds(d, off, 15) && is_tag(d.subrange(off, off + 8)) && d[off + 8] == 0 && off
        < crate::bytes::le(d, off + 9, 4) <= d.len() {
        Some(
            Section {
                offset: off as usize,
                next: crate::bytes::le(d, off + 9, 4) as usize,
                count: crate::bytes::le(d, off + 13, 2) as u16,
            },
        )
    } else {
        None
    }
}

/// The section whose header is at `off`.
pub fn section_at(d: &[u8], off: usize) -> (r: Option<Section>)
    ensures
        r == header_at(d@, off as int),
{
    if d.len() < 15 || off > d.len() - 15 {
        return None;
    }
    if !is_mdl_tag(slice_subrange(d, off, off + 8)) {
        return None;
    }
    // The byte after the tag is a pad; a section whose pad is not zero is a
    // coincidental byte run, not a real header.
    if d[off + 8] != 0 {
        return None;
    }
    let next = le_u32(d, off + 9);
    if next as u64 <= off as u64 || next as u64 > d.len() as u64 {
        return None;
    }
    Some(Section { offset: off, next: next as usize, count: le_u16(d, off + 13) })
}

/// The text of a section tag.
pub open spec fn tag_text(d: Seq<u8>, off: int) -> Seq<char> {
    Seq::new(8, |i: int| d[off + i] as char)
}

/// The sections that are found from `off` on, each tag once, behind those that are
/// known.
pub open spec fn sections_from(
    d: Seq<u8>,
    off: int,
    known: Seq<(Seq<char>, Section)>,
) -> Seq<(Seq<char>, Section)>
    decreases d.len() - off,
{
    if off < 0 || off + 8 > d.len() {
        known
    } else {
        match header_at(d, off) {
            Some(sec) => if tag_known(known, tag_text(d, off)) {
                sections_from(d, off + 1, known)
            } else {
                sections_from(d, off + 1, known.push((tag_text(d, off), sec)))
            },
            None => sections_from(d, off + 1, known),
        }
    }
}

/// Whether a section of that tag is among those that are known.
pub open spec fn tag_known(known: Seq<(Seq<char>, Section)>, tag: Seq<char>) -> bool {
    exists|i: int| 0 <= i < known.len() && (#[trigger] known[i]).0 == tag
}

/// What named sections stand for.
pub open spec fn section_views(v: Seq<(String, Section)>) -> Seq<(Seq<char>, Section)> {
    Seq::new(v.len(), |i: int| (v[i].0@, v[i].1))
}

fn tag_at(d: &[u8], off: usize) -> (r: Vec<char>)
    requires
        off + 8 <= d@.len(),
    ensures
        r@ == tag_text(d@, off as int),
{
    let len = d.len();
    let mut out: Vec<char> = Vec::new();
    let mut i: usize = 0;
    while i < 8
        invariant
            i <= 8,
            off + 8 <= d@.len() <= usize::MAX,
            out@.len() == i,
            forall|j: int| 0 <= j < i ==> #[trigger] out@[j] == d@[off + j] as char,
        decreases 8 - i,
    {
        out.push(d[off + i] as char);
        i += 1;
    }
    proof {
        assert(out@ =~= tag_text(d@, off as int));
    }
    out
}

fn knows_tag(known: &Vec<(String, Section)>, tag: &[char]) -> (r: bool)
    ensures
        r == tag_known(section_views(known@), tag@),
{
    let mut i: usize = 0;
    while i < known.len()
        invariant
            i <= known@.len(),
            forall|j: int| 0 <= j < i ==> (#[trigger] known@[j]).0@ != tag@,
        decreases known@.len() - i,
    {
        let t = crate::text::chars_of(known[i].0.as_str());
        if crate::text::same(t.as_slice(), tag) {
            proof {
                assert(section_views(known@)[i as int].0 == tag@);
            }
            return true;
        }
        i += 1;
    }
    false
}

/// Every distinct section in file order, found by scanning for validated tags.
///
/// Scanning (rather than assuming a fixed position for each) is what makes the
/// parse independent of the version: the file says where its sections are.
pub fn find_sections(d: &[u8]) -> (r: Vec<(String, Section)>)
    ensures
        section_views(r@) == sections_from(d@, 0, Seq::empty()),
{
    let mut out: Vec<(String, Section)> = Vec::new();
    let mut i: usize = 0;
    let len = d.len();
    proof {
        assert(section_views(out@) =~= Seq::<(Seq<char>, Section)>::empty());
    }
    while d.len() >= 8 && i <= d.len() - 8
        invariant
            i <= d@.len() <= usize::MAX,
            sections_from(d@, 0, Seq::empty()) == sections_from(
                d@,
                i as int,
                section_views(out@),
            ),
        decreases d@.len() - i,
    {
        let ghost was = section_views(out@);
        if let Some(sec) = section_at(d, i) {
            let tag = tag_at(d, i);
            if !knows_tag(&out, tag.as_slice()) {
                out.push((string_of(tag.as_slice()), sec));
                proof {
                    assert(section_views(out@) =~= was.push((tag@, sec)));
                }
            }
        }
        i += 1;
    }
    out
}

/// The first section whose tag begins with `prefix`.
pub open spec fn first_section(
    list: Seq<(Seq<char>, Section)>,
    prefix: Seq<char>,
    i: int,
) -> Option<Section>
    decreases list.len() - i,
{
    if i < 0 || i >= list.len() {
        None
    } else if crate::text::begins_with(list[i].0, prefix) {
        Some(list[i].1)
    } else {
        first_section(list, prefix, i + 1)
    }
}

fn find_section(list: &Vec<(String, Section)>, prefix: &str) -> (r: Option<Section>)
    ensures
        r == first_section(section_views(list@), prefix@, 0),
{
    let mut i: usize = 0;
    while i < list.len()
        invariant
            i <= list@.len(),
            first_section(section_views(list@), prefix@, 0) == first_section(
                section_views(list@),
                prefix@,
                i as int,
            ),
        decreases list@.len() - i,
    {
        let t = crate::text::chars_of(list[i].0.as_str());
        if crate::text::starts_with(t.as_slice(), prefix) {
            return Some(list[i].1);
        }
        i += 1;
    }
    None
}

/// Whether a section lies within the file.
pub open spec fn inside(sec: Section, d: Seq<u8>) -> bool {
    sec.offset < sec.next <= d.len()
}

/// The sections of a file lie within it.
pub proof fn law_sections_lie_within_the_file(d: Seq<u8>, prefix: Seq<char>, sec: Section)
    requires
        d.len() <= usize::MAX,
        first_section(sections_from(d, 0, Seq::empty()), prefix, 0) == Some(sec),
    ensures
        inside(sec, d),
{
    lemma_sections_inside(d, 0, Seq::empty());
    lemma_first_is_listed(sections_from(d, 0, Seq::empty()), prefix, 0);
}

proof fn lemma_sections_inside(d: Seq<u8>, off: int, known: Seq<(Seq<char>, Section)>)
    requires
        0 <= off,
        d.len() <= usize::MAX,
        forall|i: int| 0 <= i < known.len() ==> inside((#[trigger] known[i]).1, d),
    ensures
        forall|i: int|
            0 <= i < sections_from(d, off, known).len() ==> inside(
                (#[trigger] sections_from(d, off, known)[i]).1,
                d,
            ),
    decreases d.len() - off,
{
    if off + 8 <= d.len() {
        match header_at(d, off) {
            Some(sec) => {
                let more = known.push((tag_text(d, off), sec));
                assert forall|i: int| 0 <= i < more.len() implies inside((#[trigger] more[i]).1, d) by {
                    if i < known.len() {
                        assert(more[i] == known[i]);
                    }
                }
                lemma_sections_inside(d, off + 1, more);
                lemma_sections_inside(d, off + 1, known);
                assert(sections_from(d, off, known) == sections_from(d, off + 1, more)
                    || sections_from(d, off, known) == sections_from(d, off + 1, known));
            },
            None => {
                lemma_sections_inside(d, off + 1, known);
                assert(sections_from(d, off, known) == sections_from(d, off + 1, known));
            },
        }
    }
}

proof fn lemma_first_is_listed(list: Seq<(Seq<char>, Section)>, prefix: Seq<char>, i: int)
    requires
        0 <= i,
    ensures
        first_section(list, prefix, i) matches Some(sec) ==> exists|j: int|
            0 <= j < list.len() && (#[trigger] list[j]).1 == sec,
    decreases list.len() - i,
{
    if i < list.len() {
        if crate::text::begins_with(list[i].0, prefix) {
            assert(list[i].1 == list[i].1);
        } else {
            lemma_first_is_listed(list, prefix, i + 1);
        }
    }
}

/// Each tag is found once, whatever the file repeats.
pub proof fn law_each_tag_is_found_once(d: Seq<u8>, off: int, known: Seq<(Seq<char>, Section)>)
    requires
        forall|i: int, j: int| 0 <= i < j < known.len() ==> (#[trigger] known[i]).0 != (#[trigger] known[j]).0,
    ensures
        forall|i: int, j: int|
            0 <= i < j < sections_from(d, off, known).len() ==> (#[trigger] sections_from(
                d,
                off,
                known,
            )[i]).0 != (#[trigger] sections_from(d, off, known)[j]).0,
    decreases d.len() - off,
{
    if 0 <= off && off + 8 <= d.len() {
        match header_at(d, off) {
            Some(sec) => {
                let tag = tag_text(d, off);
                if !tag_known(known, tag) {
                    let more = known.push((tag, sec));
                    assert forall|i: int, j: int| 0 <= i < j < more.len() implies (
                    #[trigger] more[i]).0 != (#[trigger] more[j]).0 by {
                        if j == known.len() {
                            assert(known[i].0 == more[i].0);
                        } else {
                            assert(more[i] == known[i] && more[j] == known[j]);
                        }
                    }
                    law_each_tag_is_found_once(d, off + 1, more);
                    assert(sections_from(d, off, known) == sections_from(d, off + 1, more));
                } else {
                    law_each_tag_is_found_once(d, off + 1, known);
                    assert(sections_from(d, off, known) == sections_from(d, off + 1, known));
                }
            },
            None => {
                law_each_tag_is_found_once(d, off + 1, known);
                assert(sections_from(d, off, known) == sections_from(d, off + 1, known));
            },
        }
    }
}

/// A bone of the skeleton.
#[derive(Debug, Clone)]
pub struct Bone {
    /// Index of the parent bone, or `-1` for a root.
    pub parent: i32,
    /// 4x4 bind matrix, row-major.
    pub bind: Vec<u32>,
    /// Free-form per-bone parameter string from the file.
    pub params: String,
}

/// What a bone stands for.
#[verifier::ext_equal]
pub ghost struct BoneModel {
    pub parent: i32,
    pub bind: Seq<u32>,
    pub params: Seq<char>,
}

impl View for Bone {
    type V = BoneModel;

    open spec fn view(&self) -> BoneModel {
        BoneModel { parent: self.parent, bind: self.bind@, params: self.params@ }
    }
}

/// What the bones of a list stand for.
pub open spec fn bone_views(v: Seq<Bone>) -> Seq<BoneModel> {
    Seq::new(v.len(), |i: int| v[i]@)
}

/// The bone at `p` of a section that ends at `end`, and where it ends: five bytes,
/// the parent, the size of the matrix block, the block, and a string.
pub open spec fn bone_at(d: Seq<u8>, p: int, end: int) -> Option<(BoneModel, int)> {
    if p + 13 > end {
        None
    } else {
        let size = crate::bytes::le(d, p + 9, 4) as int;
        if size % 4 != 0 || p + 13 + size > end {
            None
        } else {
            match zstring_at(d, p + 13 + size, end) {
                Some((params, next)) => Some(
                    (
                        BoneModel {
                            parent: crate::bytes::le(d, p + 5, 4) as u32 as i32,
                            bind: matrix_at(d, p + 13),
                            params,
                        },
                        next,
                    ),
                ),
                None => None,
            }
        }
    }
}

/// The bones at `p`, up to `left` of them; the first that does not fit ends the list.
pub open spec fn bones_at(d: Seq<u8>, p: int, end: int, left: nat) -> Seq<BoneModel>
    decreases left,
{
    if left == 0 {
        Seq::empty()
    } else {
        match bone_at(d, p, end) {
            Some((bone, next)) => seq![bone] + bones_at(d, next, end, (left - 1) as nat),
            None => Seq::empty(),
        }
    }
}

fn read_bone(d: &[u8], p: usize, end: usize) -> (r: Option<(Bone, usize)>)
    requires
        end <= d@.len(),
    ensures
        match r {
            Some((bone, next)) => bone_at(d@, p as int, end as int) == Some((bone@, next as int))
                && p < next <= end,
            None => bone_at(d@, p as int, end as int) is None,
        },
{
    let len = d.len();
    if end < 13 || p > end - 13 {
        return None;
    }
    let parent = le_u32(d, p + 5) as i32;
    let size = le_u32(d, p + 9);
    let at = p + 13;
    if size % 4 != 0 || size as u64 > (end - at) as u64 {
        return None;
    }
    let bind = mat4(d, at);
    match zstring(d, at + size as usize, end) {
        Some((params, next)) => Some((Bone { parent, bind, params }, next)),
        None => None,
    }
}

/// The bones of a skeleton section.
pub fn parse_skeleton(d: &[u8], sec: &Section) -> (r: Vec<Bone>)
    requires
        inside(*sec, d@),
    ensures
        bone_views(r@) == bones_at(d@, sec.offset + 17, sec.next as int, sec.count as nat),
{
    let len = d.len();
    let ghost want = bones_at(d@, sec.offset + 17, sec.next as int, sec.count as nat);
    let mut bones: Vec<Bone> = Vec::new();
    if sec.next - sec.offset < 17 {
        proof {
            assert(bone_at(d@, sec.offset + 17, sec.next as int) is None);
            assert(bone_views(bones@) =~= want);
        }
        return bones;
    }
    let mut p: usize = sec.offset + 17;
    let mut left: u16 = sec.count;
    proof {
        assert(bone_views(bones@) + want =~= want);
    }
    while left > 0
        invariant
            sec.next <= d@.len(),
            want == bones_at(d@, sec.offset + 17, sec.next as int, sec.count as nat),
            bone_views(bones@) + bones_at(d@, p as int, sec.next as int, left as nat) == want,
        decreases left,
    {
        let ghost was = bone_views(bones@);
        match read_bone(d, p, sec.next) {
            Some((bone, next)) => {
                let ghost later = bones_at(d@, next as int, sec.next as int, (left - 1) as nat);
                bones.push(bone);
                p = next;
                proof {
                    assert(bone_views(bones@) =~= was + seq![bone@]);
                    assert(bone_views(bones@) + later =~= was + (seq![bone@] + later));
                }
            },
            None => {
                proof {
                    assert(bone_views(bones@) + Seq::<BoneModel>::empty() =~= bone_views(bones@));
                }
                return bones;
            },
        }
        left -= 1;
    }
    proof {
        assert(bone_views(bones@) + Seq::<BoneModel>::empty() =~= bone_views(bones@));
    }
    bones
}

/// Something that hangs off a bone.
#[derive(Debug, Clone)]
pub struct Attachment {
    /// Index of the bone this attachment hangs off (observed values are all
    /// below the bone count, but the meaning is inferred, not proven).
    pub kind: u16,
    pub name: String,
    /// 4x4 matrix, row-major.
    pub matrix: Vec<u32>,
}

/// What an attachment stands for.
#[verifier::ext_equal]
pub ghost struct AttachmentModel {
    pub kind: u16,
    pub name: Seq<char>,
    pub matrix: Seq<u32>,
}

impl View for Attachment {
    type V = AttachmentModel;

    open spec fn view(&self) -> AttachmentModel {
        AttachmentModel { kind: self.kind, name: self.name@, matrix: self.matrix@ }
    }
}

/// What the attachments of a list stand for.
pub open spec fn attachment_views(v: Seq<Attachment>) -> Seq<AttachmentModel> {
    Seq::new(v.len(), |i: int| v[i]@)
}

/// The attachment at `p` of a section that ends at `end`, and where it ends: a kind,
/// a string, and a matrix.
pub open spec fn attachment_at(d: Seq<u8>, p: int, end: int) -> Option<(AttachmentModel, int)> {
    match number_at(d, p, 2) {
        None => None,
        Some(kind) => match zstring_at(d, p + 2, end) {
            None => None,
            Some((name, at)) => if at + 64 > end {
                None
            } else {
                Some(
                    (
                        AttachmentModel { kind: kind as u16, name, matrix: matrix_at(d, at) },
                        at + 64,
                    ),
                )
            },
        },
    }
}

/// The attachments at `p`, up to `left` of them; the first that does not fit ends
/// the list.
pub open spec fn attachments_at(d: Seq<u8>, p: int, end: int, left: nat) -> Seq<AttachmentModel>
    decreases left,
{
    if left == 0 {
        Seq::empty()
    } else {
        match attachment_at(d, p, end) {
            Some((a, next)) => seq![a] + attachments_at(d, next, end, (left - 1) as nat),
            None => Seq::empty(),
        }
    }
}

fn read_attachment(d: &[u8], p: usize, end: usize) -> (r: Option<(Attachment, usize)>)
    requires
        end <= d@.len(),
        p <= end,
    ensures
        match r {
            Some((a, next)) => attachment_at(d@, p as int, end as int) == Some((a@, next as int))
                && p < next <= end,
            None => attachment_at(d@, p as int, end as int) is None,
        },
{
    let len = d.len();
    let kind = match u16_at(d, p) {
        Some(k) => k,
        None => return None,
    };
    match zstring(d, p + 2, end) {
        None => None,
        Some((name, at)) => {
            if end - at < 64 {
                return None;
            }
            let matrix = mat4(d, at);
            Some((Attachment { kind, name, matrix }, at + 64))
        },
    }
}

/// The attachments of an attachment section.
pub fn parse_attachments(d: &[u8], sec: &Section) -> (r: Vec<Attachment>)
    requires
        inside(*sec, d@),
    ensures
        attachment_views(r@) == attachments_at(
            d@,
            sec.offset + 15,
            sec.next as int,
            sec.count as nat,
        ),
{
    let len = d.len();
    let ghost want = attachments_at(d@, sec.offset + 15, sec.next as int, sec.count as nat);
    let mut items: Vec<Attachment> = Vec::new();
    if sec.next - sec.offset < 15 {
        proof {
            assert(zstring_at(d@, sec.offset + 17, sec.next as int) is None);
            assert(attachment_at(d@, sec.offset + 15, sec.next as int) is None);
            assert(attachment_views(items@) =~= want);
        }
        return items;
    }
    let mut p: usize = sec.offset + 15;
    let mut left: u16 = sec.count;
    proof {
        assert(attachment_views(items@) + want =~= want);
    }
    while left > 0
        invariant
            p <= sec.next <= d@.len(),
            want == attachments_at(d@, sec.offset + 15, sec.next as int, sec.count as nat),
            attachment_views(items@) + attachments_at(d@, p as int, sec.next as int, left as nat)
                == want,
        decreases left,
    {
        let ghost was = attachment_views(items@);
        match read_attachment(d, p, sec.next) {
            Some((a, next)) => {
                let ghost later = attachments_at(
                    d@,
                    next as int,
                    sec.next as int,
                    (left - 1) as nat,
                );
                items.push(a);
                p = next;
                proof {
                    assert(attachment_views(items@) =~= was + seq![a@]);
                    assert(attachment_views(items@) + later =~= was + (seq![a@] + later));
                }
            },
            None => {
                proof {
                    assert(attachment_views(items@) + Seq::<AttachmentModel>::empty()
                        =~= attachment_views(items@));
                }
                return items;
            },
        }
        left -= 1;
    }
    proof {
        assert(attachment_views(items@) + Seq::<AttachmentModel>::empty() =~= attachment_views(
            items@,
        ));
    }
    items
}

/// Where a bone is at a frame.
#[derive(Debug, Clone, Copy)]
pub struct Keyframe {
    pub position: [u32; 3],
    /// Rotation in radians (a 2D puppet stores a single scalar).
    pub rotation: u32,
    pub scale: [u32; 3],
}

/// The keyframes of one bone.
#[derive(Debug, Clone)]
pub struct Track {
    pub keys: Vec<Keyframe>,
}

/// An animation of the skeleton.
#[derive(Debug, Clone)]
pub struct PuppetAnimation {
    pub name: String,
    /// `"loop"`, `"single"`, … as stored by the editor.
    pub mode: String,
    pub fps: u32,
    /// Length in frames; tracks carry `length + 1` keys.
    pub length: u32,
    /// One track per bone, in bone order.
    pub tracks: Vec<Track>,
}

/// What a keyframe stands for.
#[verifier::ext_equal]
pub ghost struct KeyModel {
    pub position: Seq<u32>,
    pub rotation: u32,
    pub scale: Seq<u32>,
}

impl View for Keyframe {
    type V = KeyModel;

    open spec fn view(&self) -> KeyModel {
        KeyModel { position: self.position@, rotation: self.rotation, scale: self.scale@ }
    }
}

impl View for Track {
    type V = Seq<KeyModel>;

    open spec fn view(&self) -> Seq<KeyModel> {
        Seq::new(self.keys@.len(), |i: int| self.keys@[i]@)
    }
}

/// What an animation stands for.
#[verifier::ext_equal]
pub ghost struct AnimationModel {
    pub name: Seq<char>,
    pub mode: Seq<char>,
    pub fps: u32,
    pub length: u32,
    pub tracks: Seq<Seq<KeyModel>>,
}

/// What the tracks of a list stand for.
pub open spec fn track_views(v: Seq<Track>) -> Seq<Seq<KeyModel>> {
    Seq::new(v.len(), |i: int| v[i]@)
}

impl View for PuppetAnimation {
    type V = AnimationModel;

    open spec fn view(&self) -> AnimationModel {
        AnimationModel {
            name: self.name@,
            mode: self.mode@,
            fps: self.fps,
            length: self.length,
            tracks: track_views(self.tracks@),
        }
    }
}

/// What the animations of a list stand for.
pub open spec fn animation_views(v: Seq<PuppetAnimation>) -> Seq<AnimationModel> {
    Seq::new(v.len(), |i: int| v[i]@)
}

/// The keyframe that nine floats are: position, two unknowns, rotation, scale.
pub open spec fn key_of(v: Seq<u32>) -> KeyModel {
    KeyModel { position: v.subrange(0, 3), rotation: v[5], scale: v.subrange(6, 9) }
}

/// How many keys a track of `size` bytes has: one more than the animation's length
/// where that divides the bytes, else as many as fit exactly, else none.
pub open spec fn key_count(length: u32, size: int) -> int {
    if length > 0 && size % (length + 1) == 0 {
        length + 1
    } else if size % 36 == 0 {
        size / 36
    } else {
        0
    }
}

/// The track at `p` of a section that ends at `end`, and where it ends: four bytes,
/// a size, and that many bytes of keys. A key smaller than one keyframe is none.
pub open spec fn track_at(d: Seq<u8>, p: int, end: int, length: u32) -> Option<(Seq<KeyModel>, int)> {
    if !crate::bytes::holds(d, p, 8) {
        None
    } else {
        let size = crate::bytes::le(d, p + 4, 4) as int;
        let at = p + 8;
        let count = key_count(length, size);
        if at + size > end {
            None
        } else if count == 0 {
            Some((Seq::empty(), at + size))
        } else if size / count < 36 {
            None
        } else {
            Some(
                (
                    Seq::new(
                        count as nat,
                        |k: int| key_of(floats(d, at + k * (size / count), 9)),
                    ),
                    at + size,
                ),
            )
        }
    }
}

/// The `left` tracks at `p`, and where they end.
pub open spec fn tracks_at(d: Seq<u8>, p: int, end: int, length: u32, left: nat) -> Option<
    (Seq<Seq<KeyModel>>, int),
>
    decreases left,
{
    if left == 0 {
        Some((Seq::empty(), p))
    } else {
        match track_at(d, p, end, length) {
            None => None,
            Some((track, next)) => match tracks_at(d, next, end, length, (left - 1) as nat) {
                None => None,
                Some((others, last)) => Some((seq![track] + others, last)),
            },
        }
    }
}

/// The animation at `p` of a section that ends at `end`, and where its tracks end:
/// eight bytes, a name, a mode, the rate, the length, four bytes, the number of
/// tracks, and the tracks.
pub open spec fn animation_at(d: Seq<u8>, p: int, end: int) -> Option<(AnimationModel, int)> {
    if !crate::bytes::holds(d, p, 8) {
        None
    } else {
        match zstring_at(d, p + 8, end) {
            None => None,
            Some((name, p1)) => match zstring_at(d, p1, end) {
                None => None,
                Some((mode, p2)) => if p2 + 24 > end {
                    None
                } else {
                    let length = crate::bytes::le(d, p2 + 4, 4) as u32;
                    let count = crate::bytes::le(d, p2 + 12, 4);
                    if count > 4096 {
                        None
                    } else {
                        match tracks_at(d, p2 + 16, end, length, count) {
                            None => None,
                            Some((tracks, last)) => Some(
                                (
                                    AnimationModel {
                                        name,
                                        mode,
                                        fps: crate::bytes::le(d, p2, 4) as u32,
                                        length,
                                        tracks,
                                    },
                                    last,
                                ),
                            ),
                        }
                    }
                },
            },
        }
    }
}

/// The `left` animations at `p` with `trailer` bytes behind each, where they end
/// exactly at `end`.
pub open spec fn animations_at(d: Seq<u8>, p: int, end: int, trailer: int, left: nat) -> Option<
    Seq<AnimationModel>,
>
    decreases left,
{
    if left == 0 {
        if p == end {
            Some(Seq::empty())
        } else {
            None
        }
    } else {
        match animation_at(d, p, end) {
            None => None,
            Some((a, last)) => if last + trailer > end {
                None
            } else {
                match animations_at(d, last + trailer, end, trailer, (left - 1) as nat) {
                    None => None,
                    Some(others) => Some(seq![a] + others),
                }
            },
        }
    }
}

/// A list with others before it.
pub open spec fn behind<T>(first: Seq<T>, r: Option<Seq<T>>) -> Option<Seq<T>> {
    match r {
        Some(s) => Some(first + s),
        None => None,
    }
}

/// The animations of a section: those of the first trailer, from `trailer` on and
/// below 256, with which the list ends exactly at the section's end.
pub open spec fn animations_from(d: Seq<u8>, sec: Section, trailer: int) -> Seq<AnimationModel>
    decreases 256 - trailer,
{
    if trailer < 0 || trailer >= 256 {
        Seq::empty()
    } else {
        match animations_at(d, sec.offset + 17, sec.next as int, trailer, sec.count as nat) {
            Some(list) => list,
            None => animations_from(d, sec, trailer + 1),
        }
    }
}

fn read_key(d: &[u8], o: usize) -> (r: Keyframe)
    requires
        crate::bytes::holds(d@, o as int, 36),
    ensures
        r@ == key_of(floats(d@, o as int, 9)),
{
    let v = read_f32s(d, o, 9).unwrap();
    let r = Keyframe { position: [v[0], v[1], v[2]], rotation: v[5], scale: [v[6], v[7], v[8]] };
    proof {
        assert(r.position@ =~= v@.subrange(0, 3));
        assert(r.scale@ =~= v@.subrange(6, 9));
    }
    r
}

/// The keys lie within the track.
proof fn lemma_key_inside(size: int, count: int, k: int)
    by (nonlinear_arith)
    requires
        0 <= size,
        0 < count,
        0 <= k < count,
    ensures
        0 <= k * (size / count),
        k * (size / count) + size / count <= size,
{
    assert(count * (size / count) <= size);
    assert((k + 1) * (size / count) <= count * (size / count));
}

fn read_track(d: &[u8], p: usize, end: usize, length: u32) -> (r: Option<(Track, usize)>)
    requires
        end <= d@.len(),
    ensures
        match r {
            Some((track, next)) => track_at(d@, p as int, end as int, length) == Some(
                (track@, next as int),
            ) && p < next <= end,
            None => track_at(d@, p as int, end as int, length) is None,
        },
{
    let len = d.len();
    if len < 8 || p > len - 8 {
        return None;
    }
    let size = le_u32(d, p + 4);
    let at = p + 8;
    if at > end || size as u64 > (end - at) as u64 {
        return None;
    }
    // Tracks are contiguous per frame; the observed correlation is `length + 1`
    // keys, but the size field is authoritative.
    let per_frame: u64 = length as u64 + 1;
    let count: u64 = if length > 0 && size as u64 % per_frame == 0 {
        per_frame
    } else if size % 36 == 0 {
        (size / 36) as u64
    } else {
        0
    };
    let mut keys: Vec<Keyframe> = Vec::new();
    let next = at + size as usize;
    if count > 0 {
        let stride: u64 = size as u64 / count;
        // A stride smaller than one keyframe cannot be right.
        if stride < 36 {
            return None;
        }
        let mut k: u64 = 0;
        while k < count
            invariant
                k <= count,
                count > 0,
                stride == size as int / count as int,
                stride >= 36,
                at + size <= end <= d@.len() <= usize::MAX,
                keys@.len() == k,
                forall|j: int|
                    0 <= j < k ==> (#[trigger] keys@[j])@ == key_of(
                        floats(d@, at + j * (size as int / count as int), 9),
                    ),
            decreases count - k,
        {
            proof {
                lemma_key_inside(size as int, count as int, k as int);
            }
            let o = at + (k * stride) as usize;
            keys.push(read_key(d, o));
            k += 1;
        }
    }
    let track = Track { keys };
    proof {
        assert(track_at(d@, p as int, end as int, length) is Some);
        assert(track@ =~= track_at(d@, p as int, end as int, length)->Some_0.0);
    }
    Some((track, next))
}

fn read_tracks(d: &[u8], p: usize, end: usize, length: u32, count: u32) -> (r: Option<
    (Vec<Track>, usize),
>)
    requires
        end <= d@.len(),
        p <= end,
    ensures
        match r {
            Some((tracks, next)) => tracks_at(d@, p as int, end as int, length, count as nat)
                == Some((track_views(tracks@), next as int)) && p <= next <= end,
            None => tracks_at(d@, p as int, end as int, length, count as nat) is None,
        },
{
    let mut tracks: Vec<Track> = Vec::new();
    let mut at: usize = p;
    let mut left: u32 = count;
    let ghost want = tracks_at(d@, p as int, end as int, length, count as nat);
    proof {
        lemma_tracks_behind(Seq::empty(), want);
        assert(track_views(tracks@) =~= Seq::<Seq<KeyModel>>::empty());
    }
    while left > 0
        invariant
            end <= d@.len(),
            p <= at <= end,
            want == tracks_at(d@, p as int, end as int, length, count as nat),
            want == tracks_behind(
                track_views(tracks@),
                tracks_at(d@, at as int, end as int, length, left as nat),
            ),
        decreases left,
    {
        let ghost was = track_views(tracks@);
        match read_track(d, at, end, length) {
            None => {
                return None;
            },
            Some((track, next)) => {
                tracks.push(track);
                at = next;
                proof {
                    let later = tracks_at(d@, next as int, end as int, length, (left - 1) as nat);
                    assert(track_views(tracks@) =~= was + seq![track@]);
                    if later is Some {
                        assert(was + (seq![track@] + later->Some_0.0) =~= was + seq![track@]
                            + later->Some_0.0);
                    }
                }
            },
        }
        left -= 1;
    }
    proof {
        assert(track_views(tracks@) + Seq::<Seq<KeyModel>>::empty() =~= track_views(tracks@));
    }
    Some((tracks, at))
}

/// Tracks with others before them.
spec fn tracks_behind(
    first: Seq<Seq<KeyModel>>,
    r: Option<(Seq<Seq<KeyModel>>, int)>,
) -> Option<(Seq<Seq<KeyModel>>, int)> {
    match r {
        Some((s, last)) => Some((first + s, last)),
        None => None,
    }
}

proof fn lemma_tracks_behind(none: Seq<Seq<KeyModel>>, r: Option<(Seq<Seq<KeyModel>>, int)>)
    requires
        none.len() == 0,
    ensures
        tracks_behind(none, r) == r,
{
    if r is Some {
        assert(none + r->Some_0.0 =~= r->Some_0.0);
    }
}

fn read_animation(d: &[u8], p: usize, end: usize) -> (r: Option<(PuppetAnimation, usize)>)
    requires
        end <= d@.len(),
    ensures
        match r {
            Some((a, next)) => animation_at(d@, p as int, end as int) == Some((a@, next as int))
                && p < next <= end,
            None => animation_at(d@, p as int, end as int) is None,
        },
{
    let len = d.len();
    if len < 8 || p > len - 8 {
        return None;
    }
    let (name, p1) = match zstring(d, p + 8, end) {
        Some(x) => x,
        None => return None,
    };
    let (mode, p2) = match zstring(d, p1, end) {
        Some(x) => x,
        None => return None,
    };
    if end - p2 < 24 {
        return None;
    }
    let fps = le_u32(d, p2);
    let length = le_u32(d, p2 + 4);
    let count = le_u32(d, p2 + 12);
    if count > 4096 {
        return None;
    }
    match read_tracks(d, p2 + 16, end, length, count) {
        None => None,
        Some((tracks, next)) => Some((PuppetAnimation { name, mode, fps, length, tracks }, next)),
    }
}

/// The animations of a section with `trailer` bytes behind each, where they end
/// exactly at the section's end.
pub fn animations_with_trailer(d: &[u8], sec: &Section, trailer: usize) -> (r: Option<
    Vec<PuppetAnimation>,
>)
    requires
        inside(*sec, d@),
    ensures
        match r {
            Some(list) => animations_at(
                d@,
                sec.offset + 17,
                sec.next as int,
                trailer as int,
                sec.count as nat,
            ) == Some(animation_views(list@)),
            None => animations_at(
                d@,
                sec.offset + 17,
                sec.next as int,
                trailer as int,
                sec.count as nat,
            ) is None,
        },
{
    let len = d.len();
    let end = sec.next;
    let ghost want = animations_at(
        d@,
        sec.offset + 17,
        sec.next as int,
        trailer as int,
        sec.count as nat,
    );
    if end - sec.offset < 17 {
        proof {
            assert(zstring_at(d@, sec.offset + 25, end as int) is None);
        }
        return None;
    }
    let mut anims: Vec<PuppetAnimation> = Vec::new();
    let mut p: usize = sec.offset + 17;
    let mut left: u16 = sec.count;
    proof {
        assert(animation_views(anims@) =~= Seq::<AnimationModel>::empty());
        if want is Some {
            assert(Seq::<AnimationModel>::empty() + want->Some_0 =~= want->Some_0);
        }
    }
    while left > 0
        invariant
            p <= end <= d@.len(),
            end == sec.next,
            want == animations_at(
                d@,
                sec.offset + 17,
                sec.next as int,
                trailer as int,
                sec.count as nat,
            ),
            want == behind(
                animation_views(anims@),
                animations_at(d@, p as int, end as int, trailer as int, left as nat),
            ),
        decreases left,
    {
        let ghost was = animation_views(anims@);
        match read_animation(d, p, end) {
            None => {
                return None;
            },
            Some((a, last)) => {
                if end - last < trailer {
                    return None;
                }
                anims.push(a);
                p = last + trailer;
                proof {
                    let later = animations_at(
                        d@,
                        p as int,
                        end as int,
                        trailer as int,
                        (left - 1) as nat,
                    );
                    assert(animation_views(anims@) =~= was + seq![a@]);
                    if later is Some {
                        assert(was + (seq![a@] + later->Some_0) =~= was + seq![a@] + later->Some_0);
                    }
                }
            },
        }
        left -= 1;
    }
    proof {
        assert(animation_views(anims@) + Seq::<AnimationModel>::empty() =~= animation_views(anims@));
    }
    // The list must land exactly on the section end for the trailer to be right.
    if p != end {
        return None;
    }
    Some(anims)
}

/// The animations of an animation section.
///
/// The per-animation trailer length is not stored, so recover it: the value that
/// makes the animation list end exactly on the section end. Parsing is retried for
/// each candidate; the checks inside reject wrong ones.
pub fn parse_animations(d: &[u8], sec: &Section) -> (r: Vec<PuppetAnimation>)
    requires
        inside(*sec, d@),
    ensures
        animation_views(r@) == animations_from(d@, *sec, 0),
{
    let mut trailer: usize = 0;
    while trailer < 256
        invariant
            trailer <= 256,
            inside(*sec, d@),
            animations_from(d@, *sec, 0) == animations_from(d@, *sec, trailer as int),
        decreases 256 - trailer,
    {
        if let Some(anims) = animations_with_trailer(d, sec, trailer) {
            return anims;
        }
        trailer += 1;
    }
    let none: Vec<PuppetAnimation> = Vec::new();
    proof {
        assert(animation_views(none@) =~= Seq::<AnimationModel>::empty());
    }
    none
}

/// A mesh of textured triangles.
#[derive(Debug, Clone)]
pub struct Mesh {
    pub positions: Vec<[u32; 3]>,
    pub uvs: Vec<[u32; 2]>,
    pub indices: Vec<u32>,
    /// Bytes per vertex record.
    pub stride: usize,
    /// Raw per-vertex records, `stride / 4` floats each. Kept so per-vertex
    /// attributes whose slots are not yet pinned (skin weights) can be read
    /// without re-parsing.
    pub records: Vec<Vec<u32>>,
}

/// What a mesh stands for.
#[verifier::ext_equal]
pub ghost struct MeshModel {
    pub positions: Seq<Seq<u32>>,
    pub uvs: Seq<Seq<u32>>,
    pub indices: Seq<u32>,
    pub stride: int,
    pub records: Seq<Seq<u32>>,
}

impl View for Mesh {
    type V = MeshModel;

    open spec fn view(&self) -> MeshModel {
        MeshModel {
            positions: Seq::new(self.positions@.len(), |i: int| self.positions@[i]@),
            uvs: Seq::new(self.uvs@.len(), |i: int| self.uvs@[i]@),
            indices: self.indices@,
            stride: self.stride as int,
            records: Seq::new(self.records@.len(), |i: int| self.records@[i]@),
        }
    }
}

/// A mesh that the bytes may hold: where its vertices begin, and whether its
/// indices are 32 bits wide.
#[derive(Debug, Clone)]
pub struct MeshCandidate {
    pub start: usize,
    pub wide: bool,
    pub mesh: Mesh,
}

/// What a candidate stands for.
#[verifier::ext_equal]
pub ghost struct CandidateModel {
    pub start: int,
    pub wide: bool,
    pub mesh: MeshModel,
}

impl View for MeshCandidate {
    type V = CandidateModel;

    open spec fn view(&self) -> CandidateModel {
        CandidateModel { start: self.start as int, wide: self.wide, mesh: self.mesh@ }
    }
}

/// What the candidates of a list stand for.
pub open spec fn candidate_views(v: Seq<MeshCandidate>) -> Seq<CandidateModel> {
    Seq::new(v.len(), |i: int| v[i]@)
}

/// Bytes per index.
pub open spec fn index_size(wide: bool) -> nat {
    if wide {
        4
    } else {
        2
    }
}

/// The indices that `bytes` bytes from `at` on hold.
pub open spec fn indices_at(d: Seq<u8>, at: int, bytes: int, wide: bool) -> Seq<u32> {
    Seq::new(
        (bytes / index_size(wide) as int) as nat,
        |k: int| crate::bytes::le(d, at + k * index_size(wide), index_size(wide)) as u32,
    )
}

/// The greatest of the first `n` numbers, or zero.
pub open spec fn greatest(s: Seq<u32>, n: int) -> int
    decreases n,
{
    if n <= 0 {
        0
    } else if s[n - 1] > greatest(s, n - 1) {
        s[n - 1] as int
    } else {
        greatest(s, n - 1)
    }
}

/// Whether a vertex block begins at `vs`: its length stands before it, is a multiple
/// of four, and an index block with its own length follows, all within the file.
pub open spec fn blocks_at(d: Seq<u8>, vs: int) -> Option<(int, int)> {
    match number_at(d, vs - 4, 4) {
        None => None,
        Some(vb) => if vb == 0 || vb % 4 != 0 || vs + vb + 4 > d.len() {
            None
        } else {
            let ib = crate::bytes::le(d, vs + vb, 4) as int;
            if ib == 0 || ib > 0x1000_0000 || vs + vb + 4 + ib > d.len() {
                None
            } else {
                Some((vb as int, ib))
            }
        },
    }
}

/// The record of the vertex `i`.
pub open spec fn record_at(d: Seq<u8>, vs: int, stride: int, i: int) -> Seq<u32> {
    floats(d, vs + i * stride, (stride / 4) as nat)
}

/// The mesh whose vertices begin at `vs`, its indices being of one width: the index
/// bytes make whole triangles, the highest index says how many vertices there are,
/// and the vertex bytes make that many records of an admissible size.
pub open spec fn candidate_at(d: Seq<u8>, vs: int, wide: bool) -> Option<CandidateModel> {
    match blocks_at(d, vs) {
        None => None,
        Some((vb, ib)) => {
            let indices = indices_at(d, vs + vb + 4, ib, wide);
            let n = greatest(indices, indices.len() as int) + 1;
            let stride = vb / n;
            if ib % (3 * index_size(wide) as int) != 0 || n < 3 || vb % n != 0 || stride % 4 != 0
                || stride < MIN_STRIDE || stride > MAX_STRIDE {
                None
            } else {
                Some(
                    CandidateModel {
                        start: vs,
                        wide,
                        mesh: MeshModel {
                            positions: Seq::new(
                                n as nat,
                                |i: int| record_at(d, vs, stride, i).subrange(0, 3),
                            ),
                            uvs: Seq::new(
                                n as nat,
                                |i: int|
                                    record_at(d, vs, stride, i).subrange(
                                        stride / 4 - 2,
                                        stride / 4,
                                    ),
                            ),
                            indices,
                            stride,
                            records: Seq::new(n as nat, |i: int| record_at(d, vs, stride, i)),
                        },
                    },
                )
            }
        },
    }
}

/// A list of one, or of none.
pub open spec fn listed_option<T>(o: Option<T>) -> Seq<T> {
    match o {
        Some(x) => seq![x],
        None => Seq::empty(),
    }
}

/// The candidates whose vertices begin at `vs` or later and before `end`, narrow
/// indices before wide ones.
pub open spec fn candidates_from(d: Seq<u8>, vs: int, end: int) -> Seq<CandidateModel>
    decreases end - vs,
{
    if vs >= end {
        Seq::empty()
    } else {
        listed_option(candidate_at(d, vs, false)) + listed_option(candidate_at(d, vs, true))
            + candidates_from(d, vs + 1, end)
    }
}

/// Where the search for the mesh ends, the material string ending at `nul`.
pub open spec fn search_end(d: Seq<u8>, nul: int) -> int {
    lesser(
        nul + MESH_SEARCH_WINDOW,
        if d.len() < 12 {
            0
        } else {
            d.len() - 12
        },
    )
}

/// Every mesh that the bytes behind the material string may hold.
pub open spec fn mesh_candidates_of(d: Seq<u8>) -> Seq<CandidateModel> {
    match zero_from(d, MATERIAL_OFF as int, d.len() as int) {
        None => Seq::empty(),
        Some(nul) => candidates_from(d, nul + 1, search_end(d, nul)),
    }
}

fn read_indices(d: &[u8], at: usize, bytes: usize, wide: bool) -> (r: Vec<u32>)
    requires
        at + bytes <= d@.len(),
    ensures
        r@ == indices_at(d@, at as int, bytes as int, wide),
{
    let len = d.len();
    let size: usize = if wide {
        4
    } else {
        2
    };
    let count = bytes / size;
    let mut out: Vec<u32> = Vec::new();
    let mut k: usize = 0;
    while k < count
        invariant
            k <= count,
            size == index_size(wide),
            count * size <= bytes,
            at + bytes <= d@.len() == len,
            out@.len() == k,
            forall|j: int|
                0 <= j < k ==> #[trigger] out@[j] == crate::bytes::le(
                    d@,
                    at + j * index_size(wide),
                    index_size(wide),
                ) as u32,
        decreases count - k,
    {
        proof {
            assert(k * size + size <= count * size) by (nonlinear_arith)
                requires
                    k < count,
                    0 < size,
            ;
        }
        let v: u32 = if wide {
            le_u32(d, at + k * size)
        } else {
            le_u16(d, at + k * size) as u32
        };
        out.push(v);
        k += 1;
    }
    proof {
        assert(out@ =~= indices_at(d@, at as int, bytes as int, wide));
    }
    out
}

fn highest(v: &Vec<u32>) -> (r: u32)
    ensures
        r == greatest(v@, v@.len() as int),
{
    let mut most: u32 = 0;
    let mut i: usize = 0;
    while i < v.len()
        invariant
            i <= v@.len(),
            most == greatest(v@, i as int),
        decreases v@.len() - i,
    {
        if v[i] > most {
            most = v[i];
        }
        i += 1;
    }
    most
}

/// The records of a mesh lie within its vertex block.
proof fn lemma_record_inside(vb: int, n: int, i: int)
    by (nonlinear_arith)
    requires
        0 < n,
        0 <= vb,
        vb % n == 0,
        0 <= i < n,
    ensures
        0 <= i * (vb / n),
        i * (vb / n) + vb / n <= vb,
{
    assert(n * (vb / n) == vb);
    assert((i + 1) * (vb / n) <= n * (vb / n));
}

fn read_candidate(d: &[u8], vs: usize, wide: bool) -> (r: Option<MeshCandidate>)
    requires
        4 <= vs <= d@.len(),
    ensures
        match r {
            Some(c) => candidate_at(d@, vs as int, wide) == Some(c@),
            None => candidate_at(d@, vs as int, wide) is None,
        },
{
    let len = d.len();
    let vb = match u32_at(d, vs - 4) {
        Some(v) => v,
        None => return None,
    };
    if vb == 0 || vb % 4 != 0 || vb as u64 + 4 > (len - vs) as u64 {
        return None;
    }
    let io = vs + vb as usize;
    let ib = le_u32(d, io);
    if ib == 0 || ib > 0x1000_0000 || ib as u64 > (len - io - 4) as u64 {
        return None;
    }
    let esize: u32 = if wide {
        4
    } else {
        2
    };
    let indices = read_indices(d, io + 4, ib as usize, wide);
    let count: u64 = highest(&indices) as u64 + 1;
    if ib % (3 * esize) != 0 || count < 3 || vb as u64 % count != 0 {
        return None;
    }
    let stride = (vb as u64 / count) as usize;
    if stride % 4 != 0 || stride < MIN_STRIDE || stride > MAX_STRIDE {
        return None;
    }
    let nf = stride / 4;
    let mut positions: Vec<[u32; 3]> = Vec::new();
    let mut uvs: Vec<[u32; 2]> = Vec::new();
    let mut records: Vec<Vec<u32>> = Vec::new();
    let mut i: u64 = 0;
    while i < count
        invariant
            i <= count,
            3 <= count,
            vb as int % count as int == 0,
            stride == vb as int / count as int,
            stride % 4 == 0,
            MIN_STRIDE <= stride <= MAX_STRIDE,
            nf == stride / 4,
            vs + vb + 4 <= d@.len() == len,
            positions@.len() == i,
            uvs@.len() == i,
            records@.len() == i,
            forall|j: int|
                0 <= j < i ==> (#[trigger] positions@[j])@ == record_at(
                    d@,
                    vs as int,
                    stride as int,
                    j,
                ).subrange(0, 3),
            forall|j: int|
                0 <= j < i ==> (#[trigger] uvs@[j])@ == record_at(
                    d@,
                    vs as int,
                    stride as int,
                    j,
                ).subrange(nf - 2, nf as int),
            forall|j: int|
                0 <= j < i ==> (#[trigger] records@[j])@ == record_at(
                    d@,
                    vs as int,
                    stride as int,
                    j,
                ),
        decreases count - i,
    {
        proof {
            lemma_record_inside(vb as int, count as int, i as int);
        }
        let o = vs + (i * stride as u64) as usize;
        let v = read_f32s(d, o, nf).unwrap();
        let position: [u32; 3] = [v[0], v[1], v[2]];
        let uv: [u32; 2] = [v[nf - 2], v[nf - 1]];
        proof {
            assert(position@ =~= v@.subrange(0, 3));
            assert(uv@ =~= v@.subrange(nf - 2, nf as int));
        }
        positions.push(position);
        uvs.push(uv);
        records.push(v);
        i += 1;
    }
    let c = MeshCandidate { start: vs, wide, mesh: Mesh { positions, uvs, indices, stride, records } };
    proof {
        let want = candidate_at(d@, vs as int, wide)->Some_0;
        assert(c@.mesh.positions =~= want.mesh.positions);
        assert(c@.mesh.uvs =~= want.mesh.uvs);
        assert(c@.mesh.records =~= want.mesh.records);
    }
    Some(c)
}

/// Every mesh that the bytes behind the material string may hold.
///
/// The mesh block is not a tagged section, so it is found by probing the bytes just
/// after the material string. A candidate is one whose vertex and index arrays
/// agree: the record stride divides the vertex byte length exactly. The mesh is the
/// first of them whose triangles are consistently wound.
pub fn mesh_candidates(d: &[u8]) -> (r: Vec<MeshCandidate>)
    ensures
        candidate_views(r@) == mesh_candidates_of(d@),
{
    let len = d.len();
    let mut out: Vec<MeshCandidate> = Vec::new();
    proof {
        assert(candidate_views(out@) =~= Seq::<CandidateModel>::empty());
    }
    let nul = match find_zero(d, MATERIAL_OFF, len) {
        Some(k) => k,
        None => return out,
    };
    let room = if len < 12 {
        0
    } else {
        len - 12
    };
    let end = if MESH_SEARCH_WINDOW < room && nul < room - MESH_SEARCH_WINDOW {
        nul + MESH_SEARCH_WINDOW
    } else {
        room
    };
    let mut vs: usize = nul + 1;
    let ghost want = mesh_candidates_of(d@);
    proof {
        assert(end == search_end(d@, nul as int));
        assert(candidate_views(out@) + want =~= want);
    }
    while vs < end
        invariant
            4 <= vs,
            end <= d@.len() == len,
            want == mesh_candidates_of(d@),
            candidate_views(out@) + candidates_from(d@, vs as int, end as int) == want,
        decreases end - vs,
    {
        let ghost was = candidate_views(out@);
        let narrow = read_candidate(d, vs, false);
        let wide = read_candidate(d, vs, true);
        let ghost a = listed_option(candidate_at(d@, vs as int, false));
        let ghost b = listed_option(candidate_at(d@, vs as int, true));
        if let Some(c) = narrow {
            out.push(c);
        }
        proof {
            assert(candidate_views(out@) =~= was + a);
        }
        if let Some(c) = wide {
            out.push(c);
        }
        proof {
            assert(candidate_views(out@) =~= was + a + b);
            let later = candidates_from(d@, vs + 1, end as int);
            assert(was + a + b + later =~= was + (a + b + later));
        }
        vs += 1;
    }
    proof {
        assert(candidate_views(out@) + Seq::<CandidateModel>::empty() =~= candidate_views(out@));
    }
    out
}

/// A parsed puppet model.
#[derive(Debug, Clone)]
pub struct PuppetModel {
    /// Numeric revision from the `MDLV####` tag (e.g. 23 for `MDLV0023`).
    pub version: u32,
    pub material: String,
    /// What the mesh may be, see [`choose_mesh`].
    pub meshes: Vec<MeshCandidate>,
    pub bones: Vec<Bone>,
    pub attachments: Vec<Attachment>,
    pub animations: Vec<PuppetAnimation>,
}

/// Why a file is not a puppet model.
#[derive(Debug, Clone, Copy, PartialEq, Eq, Structural)]
pub enum MdlvError {
    /// The file is too short to hold a tag.
    TooShort,
    /// The tag is not that of a puppet model.
    NotPuppet,
    /// The version in the tag is not a number.
    BadVersion,
}

/// Whether a file begins with `MDLV`.
pub open spec fn is_puppet(d: Seq<u8>) -> bool {
    d[0] == 0x4D && d[1] == 0x44 && d[2] == 0x4C && d[3] == 0x56
}

/// The version behind the tag, where it is a number.
pub open spec fn version_of(d: Seq<u8>) -> Option<nat> {
    crate::numbers::natural_read(tag_text(d, 0).skip(4), u32::MAX as nat)
}

/// The section of a kind, where the file has one.
pub open spec fn section_of(d: Seq<u8>, prefix: Seq<char>) -> Option<Section> {
    first_section(sections_from(d, 0, Seq::empty()), prefix, 0)
}

/// Whether a model is what the file says.
pub open spec fn describes(d: Seq<u8>, m: PuppetModel) -> bool {
    &&& version_of(d) == Some(m.version as nat)
    &&& m.material@ == match zstring_at(d, MATERIAL_OFF as int, d.len() as int) {
        Some((s, _)) => s,
        None => Seq::empty(),
    }
    &&& candidate_views(m.meshes@) == mesh_candidates_of(d)
    &&& bone_views(m.bones@) == match section_of(d, "MDLS"@) {
        Some(s) => bones_at(d, s.offset + 17, s.next as int, s.count as nat),
        None => Seq::empty(),
    }
    &&& attachment_views(m.attachments@) == match section_of(d, "MDAT"@) {
        Some(s) => attachments_at(d, s.offset + 15, s.next as int, s.count as nat),
        None => Seq::empty(),
    }
    &&& animation_views(m.animations@) == match section_of(d, "MDLA"@) {
        Some(s) => animations_from(d, s, 0),
        None => Seq::empty(),
    }
}

/// Parse a puppet model from raw `.mdl` bytes.
pub fn parse(bytes: &[u8]) -> (r: Result<PuppetModel, MdlvError>)
    ensures
        match r {
            Err(MdlvError::TooShort) => bytes@.len() < 8,
            Err(MdlvError::NotPuppet) => bytes@.len() >= 8 && !is_puppet(bytes@),
            Err(MdlvError::BadVersion) => bytes@.len() >= 8 && is_puppet(bytes@) && version_of(
                bytes@,
            ) is None,
            Ok(m) => bytes@.len() >= 8 && is_puppet(bytes@) && describes(bytes@, m),
        },
{
    let len = bytes.len();
    if len < 8 {
        return Err(MdlvError::TooShort);
    }
    if !(bytes[0] == 0x4D && bytes[1] == 0x44 && bytes[2] == 0x4C && bytes[3] == 0x56) {
        return Err(MdlvError::NotPuppet);
    }
    let tag = tag_at(bytes, 0);
    let version = match parse_natural(crate::text::rest(tag.as_slice(), 4), u32::MAX as u64) {
        Some(v) => v as u32,
        None => return Err(MdlvError::BadVersion),
    };
    let material = match zstring(bytes, MATERIAL_OFF, len) {
        Some((s, _)) => s,
        None => String::new(),
    };
    let sections = find_sections(bytes);
    let meshes = mesh_candidates(bytes);
    let bones = match find_section(&sections, "MDLS") {
        Some(s) => {
            proof {
                law_sections_lie_within_the_file(bytes@, "MDLS"@, s);
            }
            parse_skeleton(bytes, &s)
        },
        None => Vec::new(),
    };
    let attachments = match find_section(&sections, "MDAT") {
        Some(s) => {
            proof {
                law_sections_lie_within_the_file(bytes@, "MDAT"@, s);
            }
            parse_attachments(bytes, &s)
        },
        None => Vec::new(),
    };
    let animations = match find_section(&sections, "MDLA") {
        Some(s) => {
            proof {
                law_sections_lie_within_the_file(bytes@, "MDLA"@, s);
            }
            parse_animations(bytes, &s)
        },
        None => Vec::new(),
    };
    proof {
        assert(bone_views(Seq::empty()) =~= Seq::<BoneModel>::empty());
        assert(attachment_views(Seq::empty()) =~= Seq::<AttachmentModel>::empty());
        assert(animation_views(Seq::empty()) =~= Seq::<AnimationModel>::empty());
    }
    Ok(PuppetModel { version, material, meshes, bones, attachments, animations })
}

/// Three vertices of a mesh.
#[derive(Debug, Clone, Copy, PartialEq, Eq, Structural)]
pub struct Triangle {
    pub a: u32,
    pub b: u32,
    pub c: u32,
}

/// The triangle `t` of an index list.
pub open spec fn triangle_at(indices: Seq<u32>, t: int) -> Triangle {
    Triangle { a: indices[3 * t], b: indices[3 * t + 1], c: indices[3 * t + 2] }
}

/// Whether all of a triangle's vertices are there.
pub open spec fn has_vertices(t: Triangle, vertices: nat) -> bool {
    t.a < vertices && t.b < vertices && t.c < vertices
}

/// How far apart the sampled triangles lie: about six hundred are enough.
pub open spec fn sample_step(triangles: int) -> int {
    if triangles / 600 > 1 {
        triangles / 600
    } else {
        1
    }
}

/// The sampled triangles from `t` on whose vertices are there.
pub open spec fn sampled_from(indices: Seq<u32>, vertices: nat, t: int) -> Seq<Triangle>
    decreases
            if t < indices.len() / 3 {
                indices.len() / 3 - t
            } else {
                0
            },
{
    if t < 0 || t >= indices.len() / 3 {
        Seq::empty()
    } else {
        let others = sampled_from(indices, vertices, t + sample_step(indices.len() as int / 3));
        if has_vertices(triangle_at(indices, t), vertices) {
            seq![triangle_at(indices, t)] + others
        } else {
            others
        }
    }
}

/// The triangles whose winding is looked at; one with an index outside the vertex
/// list is skipped.
pub fn sampled_triangles(vertices: usize, indices: &Vec<u32>) -> (r: Vec<Triangle>)
    ensures
        r@ == sampled_from(indices@, vertices as nat, 0),
{
    let tris = indices.len() / 3;
    let step: usize = if tris / 600 > 1 {
        tris / 600
    } else {
        1
    };
    let ghost want = sampled_from(indices@, vertices as nat, 0);
    let mut out: Vec<Triangle> = Vec::new();
    let mut t: usize = 0;
    proof {
        assert(out@ + want =~= want);
    }
    while t < tris
        invariant
            tris == indices@.len() / 3,
            indices@.len() <= usize::MAX,
            1 <= step <= tris || step == 1,
            step == sample_step(tris as int),
            want == sampled_from(indices@, vertices as nat, 0),
            out@ + sampled_from(indices@, vertices as nat, t as int) == want,
        decreases tris + step - t,
    {
        let tri = Triangle { a: indices[3 * t], b: indices[3 * t + 1], c: indices[3 * t + 2] };
        let ghost later = sampled_from(indices@, vertices as nat, t + step);
        let ghost was = out@;
        if (tri.a as u64) < vertices as u64 && (tri.b as u64) < vertices as u64 && (tri.c as u64)
            < vertices as u64 {
            out.push(tri);
            proof {
                assert(out@ + later =~= was + (seq![tri] + later));
            }
        }
        t += step;
    }
    proof {
        assert(out@ + Seq::<Triangle>::empty() =~= out@);
    }
    out
}

/// Which way a triangle is wound.
#[derive(Debug, Clone, Copy, PartialEq, Eq, Structural)]
pub enum Turn {
    Left,
    Right,
    Flat,
}

/// How many of the first `n` turns go one way.
pub open spec fn turns_of(turns: Seq<Turn>, way: Turn, n: int) -> nat
    decreases n,
{
    if n <= 0 {
        0
    } else {
        turns_of(turns, way, n - 1) + if turns[n - 1] == way {
            1nat
        } else {
            0nat
        }
    }
}

/// How many triangles are wound the way that most are, and how many are wound at
/// all. A correctly paired position (or UV) array produces consistently wound
/// triangles, so the two are nearly equal; an arbitrarily paired array gives about
/// half.
pub fn winding_votes(turns: &Vec<Turn>) -> (r: (usize, usize))
    ensures
        ({
            let left = turns_of(turns@, Turn::Left, turns@.len() as int);
            let right = turns_of(turns@, Turn::Right, turns@.len() as int);
            r.1 == left + right && r.0 == (if left > right {
                left
            } else {
                right
            })
        }),
{
    let mut left: usize = 0;
    let mut right: usize = 0;
    let mut i: usize = 0;
    while i < turns.len()
        invariant
            i <= turns@.len(),
            left == turns_of(turns@, Turn::Left, i as int),
            right == turns_of(turns@, Turn::Right, i as int),
            left + right <= i,
        decreases turns@.len() - i,
    {
        match turns[i] {
            Turn::Left => {
                left += 1;
            },
            Turn::Right => {
                right += 1;
            },
            Turn::Flat => {},
        }
        i += 1;
    }
    if left > right {
        (left, left + right)
    } else {
        (right, left + right)
    }
}

/// Whether triangles are wound consistently: some are wound at all, and of those at
/// least nineteen in twenty the same way.
pub open spec fn wound_alike(turns: Seq<Turn>) -> bool {
    let left = turns_of(turns, Turn::Left, turns.len() as int);
    let right = turns_of(turns, Turn::Right, turns.len() as int);
    left + right > 0 && (20 * left >= 19 * (left + right) || 20 * right >= 19 * (left + right))
}

/// Whether triangles are wound consistently.
pub fn is_wound_alike(turns: &Vec<Turn>) -> (r: bool)
    ensures
        r == wound_alike(turns@),
{
    let (most, all) = winding_votes(turns);
    all > 0 && 20 * (most as u128) >= 19 * (all as u128)
}

/// How the sampled triangles of a candidate are wound, in the plane and in the texture.
#[derive(Debug, Clone)]
pub struct MeshTurns {
    pub plane: Vec<Turn>,
    pub texture: Vec<Turn>,
}

/// Whether the vertex and index arrays of a candidate agree: both its positions and
/// its texture coordinates make consistently wound triangles.
pub open spec fn arrays_agree(t: MeshTurns) -> bool {
    wound_alike(t.plane@) && wound_alike(t.texture@)
}

/// Which of the candidates is the mesh: the first whose arrays agree. `turns` says how
/// the triangles of each of them are wound.
pub fn choose_mesh(list: &Vec<MeshCandidate>, turns: &Vec<MeshTurns>) -> (r: Option<usize>)
    requires
        list@.len() == turns@.len(),
    ensures
        match r {
            Some(i) => i < list@.len() && arrays_agree(turns@[i as int]) && forall|j: int|
                0 <= j < i ==> !arrays_agree(#[trigger] turns@[j]),
            None => forall|j: int| 0 <= j < list@.len() ==> !arrays_agree(#[trigger] turns@[j]),
        },
{
    let mut i: usize = 0;
    while i < list.len()
        invariant
            i <= list@.len() == turns@.len(),
            forall|j: int| 0 <= j < i ==> !arrays_agree(#[trigger] turns@[j]),
        decreases list@.len() - i,
    {
        if is_wound_alike(&turns[i].plane) && is_wound_alike(&turns[i].texture) {
            return Some(i);
        }
        i += 1;
    }
    None
}

/// The first of two candidates comes first in the file, and where they begin at one
/// place it is the one with narrow indices: those are preferred.
pub proof fn law_narrow_indices_are_preferred(d: Seq<u8>, i: int, j: int)
    requires
        0 <= i < j < mesh_candidates_of(d).len(),
    ensures
        ({
            let a = mesh_candidates_of(d)[i];
            let b = mesh_candidates_of(d)[j];
            a.start < b.start || (a.start == b.start && !a.wide && b.wide)
        }),
{
    match zero_from(d, MATERIAL_OFF as int, d.len() as int) {
        Some(nul) => {
            lemma_candidates_ordered(d, nul + 1, search_end(d, nul), i, j);
        },
        None => {},
    }
}

proof fn lemma_candidates_ordered(d: Seq<u8>, vs: int, end: int, i: int, j: int)
    requires
        0 <= j < candidates_from(d, vs, end).len(),
    ensures
        candidates_from(d, vs, end)[j].start >= vs,
        0 <= i < j ==> ({
            let a = candidates_from(d, vs, end)[i];
            let b = candidates_from(d, vs, end)[j];
            a.start < b.start || (a.start == b.start && !a.wide && b.wide)
        }),
    decreases end - vs,
{
    let here = listed_option(candidate_at(d, vs, false)) + listed_option(candidate_at(d, vs, true));
    let n = here.len();
    let later = candidates_from(d, vs + 1, end);
    let all = candidates_from(d, vs, end);
    assert(all == here + later);
    if j >= n {
        lemma_candidates_ordered(d, vs + 1, end, i - n, j - n);
        assert(all[j] == later[j - n]);
        if 0 <= i < n {
            assert(all[i] == here[i]);
        } else if n <= i < j {
            assert(all[i] == later[i - n]);
        }
    } else {
        assert(all[j] == here[j]);
        if 0 <= i < j {
            assert(all[i] == here[i]);
        }
    }
}

impl Track {
    /// The keys around a frame: keys are one per frame, so the surrounding pair is a
    /// direct index, and behind the last key there is only that one.
    pub fn around(&self, frame: usize) -> (r: Option<(Keyframe, Keyframe)>)
        ensures
            match r {
                None => self.keys@.len() == 0,
                Some((a, b)) => if frame + 1 < self.keys@.len() {
                    a == self.keys@[frame as int] && b == self.keys@[frame + 1]
                } else {
                    self.keys@.len() > 0 && a == self.keys@.last() && b == self.keys@.last()
                },
            },
    {
        let n = self.keys.len();
        if n == 0 {
            None
        } else if frame >= n - 1 {
            Some((self.keys[n - 1], self.keys[n - 1]))
        } else {
            Some((self.keys[frame], self.keys[frame + 1]))
        }
    }
}

/// Whether two files are the same up to `end`.
pub open spec fn same_before(d: Seq<u8>, e: Seq<u8>, end: int) -> bool {
    &&& 0 <= end <= d.len()
    &&& end <= e.len()
    &&& forall|i: int| 0 <= i < end ==> #[trigger] d[i] == e[i]
}

proof fn lemma_le_same(d: Seq<u8>, e: Seq<u8>, end: int, at: int, n: nat)
    requires
        same_before(d, e, end),
        0 <= at,
        at + n <= end,
    ensures
        crate::bytes::le(d, at, n) == crate::bytes::le(e, at, n),
    decreases n,
{
    if n > 0 {
        lemma_le_same(d, e, end, at + 1, (n - 1) as nat);
        assert(d[at] == e[at]);
    }
}

proof fn lemma_zstring_same(d: Seq<u8>, e: Seq<u8>, end: int, o: int)
    requires
        same_before(d, e, end),
        0 <= o,
    ensures
        zstring_at(d, o, end) == zstring_at(e, o, end),
        zstring_at(d, o, end) matches Some((_, p)) ==> o < p <= end,
{
    lemma_zero_same(d, e, end, o);
    match zero_from(d, o, end) {
        Some(k) => {
            assert(d.subrange(o, k) =~= e.subrange(o, k));
        },
        None => {},
    }
}

proof fn lemma_zero_same(d: Seq<u8>, e: Seq<u8>, end: int, o: int)
    requires
        same_before(d, e, end),
        0 <= o,
    ensures
        zero_from(d, o, end) == zero_from(e, o, end),
        zero_from(d, o, end) matches Some(k) ==> o <= k < end,
    decreases end - o,
{
    if o < end {
        assert(d[o] == e[o]);
        lemma_zero_same(d, e, end, o + 1);
    }
}

proof fn lemma_track_same(d: Seq<u8>, e: Seq<u8>, end: int, p: int, length: u32)
    requires
        same_before(d, e, end),
        0 <= p,
    ensures
        track_at(d, p, end, length) == track_at(e, p, end, length),
        track_at(d, p, end, length) matches Some((_, next)) ==> p <= next <= end,
{
    if p + 8 <= end {
        lemma_le_same(d, e, end, p + 4, 4);
        let size = crate::bytes::le(d, p + 4, 4) as int;
        let at = p + 8;
        let count = key_count(length, size);
        if at + size <= end && count > 0 && size / count >= 36 {
            let a = track_at(d, p, end, length)->Some_0.0;
            let b = track_at(e, p, end, length)->Some_0.0;
            assert forall|k: int| 0 <= k < count implies a[k] == b[k] by {
                lemma_key_inside(size, count, k);
                let o = at + k * (size / count);
                assert forall|i: int| 0 <= i < 9 implies floats(d, o, 9)[i] == floats(e, o, 9)[i] by {
                    lemma_le_same(d, e, end, o + 4 * i, 4);
                }
                assert(floats(d, o, 9) =~= floats(e, o, 9));
            }
            assert(a =~= b);
        }
    }
}

proof fn lemma_tracks_same(d: Seq<u8>, e: Seq<u8>, end: int, p: int, length: u32, left: nat)
    requires
        same_before(d, e, end),
        0 <= p,
    ensures
        tracks_at(d, p, end, length, left) == tracks_at(e, p, end, length, left),
        tracks_at(d, p, end, length, left) matches Some((_, last)) ==> p <= last,
    decreases left,
{
    if left > 0 {
        lemma_track_same(d, e, end, p, length);
        match track_at(d, p, end, length) {
            Some((_, next)) => {
                lemma_tracks_same(d, e, end, next, length, (left - 1) as nat);
            },
            None => {},
        }
    }
}

proof fn lemma_animation_same(d: Seq<u8>, e: Seq<u8>, end: int, p: int)
    requires
        same_before(d, e, end),
        0 <= p,
    ensures
        animation_at(d, p, end) == animation_at(e, p, end),
        animation_at(d, p, end) matches Some((_, last)) ==> p <= last,
{
    lemma_zstring_same(d, e, end, p + 8);
    match zstring_at(d, p + 8, end) {
        Some((_, p1)) => {
            lemma_zstring_same(d, e, end, p1);
            match zstring_at(d, p1, end) {
                Some((_, p2)) => {
                    if p2 + 24 <= end {
                        lemma_le_same(d, e, end, p2, 4);
                        lemma_le_same(d, e, end, p2 + 4, 4);
                        lemma_le_same(d, e, end, p2 + 12, 4);
                        lemma_tracks_same(
                            d,
                            e,
                            end,
                            p2 + 16,
                            crate::bytes::le(d, p2 + 4, 4) as u32,
                            crate::bytes::le(d, p2 + 12, 4),
                        );
                    }
                },
                None => {},
            }
        },
        None => {},
    }
}

proof fn lemma_animations_same(
    d: Seq<u8>,
    e: Seq<u8>,
    end: int,
    p: int,
    trailer: int,
    left: nat,
)
    requires
        same_before(d, e, end),
        0 <= p,
        0 <= trailer,
    ensures
        animations_at(d, p, end, trailer, left) == animations_at(e, p, end, trailer, left),
        animations_at(d, p, end, trailer, left) matches Some(list) ==> list.len() == left,
    decreases left,
{
    if left > 0 {
        lemma_animation_same(d, e, end, p);
        match animation_at(d, p, end) {
            Some((_, last)) => {
                lemma_animations_same(d, e, end, last + trailer, trailer, (left - 1) as nat);
            },
            None => {},
        }
    }
}

/// What stands at the stored end of a section or behind it never matters to its
/// animations, and there are as many of them as the section counts.
pub proof fn law_animations_stay_in_their_section(
    d: Seq<u8>,
    e: Seq<u8>,
    sec: Section,
    trailer: int,
)
    requires
        same_before(d, e, sec.next as int),
        0 <= trailer,
    ensures
        animations_at(d, sec.offset + 17, sec.next as int, trailer, sec.count as nat)
            == animations_at(e, sec.offset + 17, sec.next as int, trailer, sec.count as nat),
        animations_at(d, sec.offset + 17, sec.next as int, trailer, sec.count as nat) matches Some(
            list,
        ) ==> list.len() == sec.count,
        animations_from(d, sec, trailer) == animations_from(e, sec, trailer),
    decreases 256 - trailer,
{
    lemma_animations_same(
        d,
        e,
        sec.next as int,
        sec.offset + 17,
        trailer,
        sec.count as nat,
    );
    if trailer < 256 {
        law_animations_stay_in_their_section(d, e, sec, trailer + 1);
    }
}

/// Whether `d` holds at `vs` the vertices of a mesh, and behind them its indices, each
/// with its length in bytes before it: `vertices` are the floats of all the vertices,
/// `width` of them for each.
pub open spec fn mesh_stored(
    d: Seq<u8>,
    vs: int,
    vertices: Seq<u32>,
    width: nat,
    indices: Seq<u32>,
    wide: bool,
) -> bool {
    let size: nat = if wide {
        4
    } else {
        2
    };
    &&& crate::bytes::stores(d, vs - 4, seq![(4 * vertices.len()) as u32], 4)
    &&& crate::bytes::stores(d, vs, vertices, 4)
    &&& crate::bytes::stores(
        d,
        vs + 4 * vertices.len(),
        seq![(size * indices.len()) as u32],
        4,
    )
    &&& crate::bytes::stores(d, vs + 4 * vertices.len() + 4, indices, size)
    &&& vertices.len() % width == 0
}

/// Whether numbers can be a mesh: at least three vertices of four to 64 floats, whole
/// triangles, every vertex that an index names there and the last one named, and
/// everything of a size that the file can state.
pub open spec fn can_be_mesh(
    vertices: Seq<u32>,
    width: nat,
    indices: Seq<u32>,
    wide: bool,
    last: int,
) -> bool {
    &&& 4 <= width <= 64
    &&& 3 * width <= vertices.len() < 0x4000_0000
    &&& 0 < indices.len() <= 0x400_0000
    &&& indices.len() % 3 == 0
    &&& forall|k: int| 0 <= k < indices.len() ==> #[trigger] indices[k] < vertices.len() / width
    &&& 0 <= last < indices.len()
    &&& indices[last] == vertices.len() / width - 1
    &&& !wide ==> vertices.len() / width <= 0x1_0000
}

proof fn lemma_greatest(s: Seq<u32>, n: int, k: int, top: int)
    requires
        0 <= n <= s.len(),
        forall|i: int| 0 <= i < s.len() ==> #[trigger] s[i] <= top,
        0 <= top,
    ensures
        greatest(s, n) <= top,
        0 <= k < n ==> greatest(s, n) >= s[k],
    decreases n,
{
    if n > 0 {
        lemma_greatest(s, n - 1, k, top);
        assert(s[n - 1] <= top);
    }
}

/// A mesh that is stored is read back: every vertex has the position that its record
/// begins with and the texture coordinates that it ends with, and the indices are those
/// that were stored.
#[verifier::spinoff_prover]
pub proof fn law_a_stored_mesh_is_read_back(
    d: Seq<u8>,
    vs: int,
    vertices: Seq<u32>,
    width: nat,
    indices: Seq<u32>,
    wide: bool,
    last: int,
    i: int,
)
    requires
        mesh_stored(d, vs, vertices, width, indices, wide),
        can_be_mesh(vertices, width, indices, wide, last),
        0 <= i < vertices.len() / width,
    ensures
        candidate_at(d, vs, wide) matches Some(c) && {
            &&& c.start == vs && c.wide == wide
            &&& c.mesh.stride == 4 * width
            &&& c.mesh.indices == indices
            &&& c.mesh.positions.len() == vertices.len() / width
            &&& c.mesh.uvs.len() == vertices.len() / width
            &&& c.mesh.records.len() == vertices.len() / width
            &&& c.mesh.positions[i] == seq![
                vertices[i * width],
                vertices[i * width + 1],
                vertices[i * width + 2],
            ]
            &&& c.mesh.uvs[i] == seq![
                vertices[i * width + width - 2],
                vertices[i * width + width - 1],
            ]
            &&& c.mesh.records[i] == vertices.subrange(i * width, i * width + width)
        },
{
    let size: nat = if wide {
        4
    } else {
        2
    };
    let n = (vertices.len() / width) as int;
    let w = width as int;
    let total = vertices.len() as int;
    let vb = 4 * total;
    let ib = size * indices.len();
    assert(total == n * w) by {
        vstd::arithmetic::div_mod::lemma_fundamental_div_mod(total, w);
        assert(w * n == n * w) by (nonlinear_arith);
    }
    let counts = seq![vb as u32];
    crate::bytes::lemma_stored(d, vs - 4, counts, 4, 0);
    assert(counts[0] == vb);
    let sizes = seq![ib as u32];
    crate::bytes::lemma_stored(d, vs + vb, sizes, 4, 0);
    assert(sizes[0] == ib);
    assert(number_at(d, vs - 4, 4) == Some(vb as nat));
    assert(vs + vb + 4 + indices.len() * size <= d.len());
    assert(indices.len() * size == ib) by (nonlinear_arith)
        requires
            ib == size * indices.len(),
    ;
    assert(blocks_at(d, vs) == Some((vb, ib as int)));
    let read = indices_at(d, vs + vb + 4, ib as int, wide);
    let len = indices.len();
    assert(ib / size == len && ib % (3 * size) == 0) by {
        if wide {
            assert((4 * len) / 4 == len && (4 * len) % 12 == 0);
        } else {
            assert((2 * len) / 2 == len && (2 * len) % 6 == 0);
        }
    }
    assert(read =~= indices) by {
        assert forall|k: int| 0 <= k < indices.len() implies #[trigger] read[k] == indices[k] by {
            if !wide {
                assert forall|m: int| 0 <= m < indices.len() implies #[trigger] indices[m]
                    < 0x1_0000 by {}
            }
            crate::bytes::lemma_stored(d, vs + vb + 4, indices, size, k);
        }
    }
    lemma_greatest(indices, indices.len() as int, last, n - 1);
    assert(greatest(read, read.len() as int) + 1 == n);
    assert(vb == n * (4 * w)) by (nonlinear_arith)
        requires
            vb == 4 * total,
            total == n * w,
    ;
    assert((4 * w) * n + 0 == vb) by (nonlinear_arith)
        requires
            vb == n * (4 * w),
    ;
    vstd::arithmetic::div_mod::lemma_fundamental_div_mod_converse(vb, n, 4 * w, 0);
    let stride = vb / n;
    assert(stride == 4 * w);
    assert(stride / 4 == w && stride % 4 == 0);
    let c = candidate_at(d, vs, wide)->Some_0;
    let record = record_at(d, vs, stride, i);
    assert(0 <= i * w && i * w + w <= total) by (nonlinear_arith)
        requires
            0 <= i < n,
            total == n * w,
            w > 0,
    ;
    assert(i * stride == 4 * (i * w)) by (nonlinear_arith)
        requires
            stride == 4 * w,
    ;
    assert(record =~= vertices.subrange(i * w, i * w + w)) by {
        assert forall|k: int| 0 <= k < w implies #[trigger] record[k] == vertices[i * w + k] by {
            crate::bytes::lemma_stored(d, vs, vertices, 4, i * w + k);
        }
    }
    assert(c.mesh.records[i] == record);
    assert(c.mesh.positions[i] =~= seq![
        vertices[i * w],
        vertices[i * w + 1],
        vertices[i * w + 2],
    ]);
    assert(c.mesh.uvs[i] =~= seq![vertices[i * w + w - 2], vertices[i * w + w - 1]]);
}

/// A mesh that is stored within the search window behind the material string, `nul` being
/// the string's end, is among the candidates of the file.
pub proof fn law_a_stored_mesh_is_found(
    d: Seq<u8>,
    m: PuppetModel,
    nul: int,
    vs: int,
    vertices: Seq<u32>,
    width: nat,
    indices: Seq<u32>,
    wide: bool,
    last: int,
) -> (at: int)
    requires
        describes(d, m),
        21 <= nul < vs < nul + 160,
        nul < d.len(),
        d[nul] == 0,
        forall|k: int| 21 <= k < nul ==> #[trigger] d[k] != 0,
        mesh_stored(d, vs, vertices, width, indices, wide),
        can_be_mesh(vertices, width, indices, wide, last),
    ensures
        0 <= at < m.meshes@.len(),
        candidate_at(d, vs, wide) == Some(m.meshes@[at]@),
{
    assert(0 < vertices.len() / width) by (nonlinear_arith)
        requires
            3 * width <= vertices.len(),
            width > 0,
    ;
    law_a_stored_mesh_is_read_back(d, vs, vertices, width, indices, wide, last, 0);
    lemma_zero_from(d, 21, d.len() as int, nul);
    assert(vs < search_end(d, nul));
    let list = candidates_from(d, nul + 1, search_end(d, nul));
    let at = lemma_candidate_listed(d, nul + 1, search_end(d, nul), vs, wide);
    assert(candidate_views(m.meshes@) == list);
    assert(list[at] == m.meshes@[at]@);
    at
}

proof fn lemma_zero_from(d: Seq<u8>, o: int, end: int, nul: int)
    requires
        0 <= o <= nul < end <= d.len(),
        d[nul] == 0,
        forall|k: int| o <= k < nul ==> #[trigger] d[k] != 0,
    ensures
        zero_from(d, o, end) == Some(nul),
    decreases nul - o,
{
    if o < nul {
        lemma_zero_from(d, o + 1, end, nul);
    }
}

proof fn lemma_candidate_listed(d: Seq<u8>, from: int, end: int, vs: int, wide: bool) -> (at: int)
    requires
        from <= vs < end,
        candidate_at(d, vs, wide) is Some,
    ensures
        0 <= at < candidates_from(d, from, end).len(),
        candidates_from(d, from, end)[at] == candidate_at(d, vs, wide)->Some_0,
    decreases end - from,
{
    let narrow = listed_option(candidate_at(d, from, false));
    let broad = listed_option(candidate_at(d, from, true));
    if from == vs {
        if wide {
            narrow.len() as int
        } else {
            0
        }
    } else {
        let at = lemma_candidate_listed(d, from + 1, end, vs, wide);
        narrow.len() + broad.len() + at
    }
}

/// Whether a text stands at `o`, with a zero byte behind it that ends at `next`.
pub open spec fn text_stored(d: Seq<u8>, o: int, next: int, s: Seq<char>) -> bool {
    &&& 0 <= o < next <= d.len()
    &&& d.subrange(o, next - 1) == vstd::utf8::encode_utf8(s)
    &&& d[next - 1] == 0
    &&& forall|k: int| o <= k < next - 1 ==> #[trigger] d[k] != 0
}

/// A text with a zero byte behind it is read back.
pub proof fn law_texts_are_read_back(d: Seq<u8>, o: int, next: int, s: Seq<char>, limit: int)
    requires
        text_stored(d, o, next, s),
        next <= limit,
    ensures
        zstring_at(d, o, limit) == Some((s, next)),
{
    let end = lesser(limit, d.len() as int);
    lemma_zero_from(d, o, end, next - 1);
    vstd::utf8::encode_utf8_valid_utf8(s);
    vstd::utf8::encode_utf8_decode_utf8(s);
}

proof fn lemma_floats_stored(d: Seq<u8>, o: int, list: Seq<u32>)
    requires
        crate::bytes::stores(d, o, list, 4),
    ensures
        floats(d, o, list.len()) == list,
{
    assert forall|k: int| 0 <= k < list.len() implies #[trigger] floats(d, o, list.len())[k]
        == list[k] by {
        crate::bytes::lemma_stored(d, o, list, 4, k);
    }
    assert(floats(d, o, list.len()) =~= list);
}

/// A tag and a header behind it are read back as a section.
pub proof fn law_section_headers_are_read_back(d: Seq<u8>, off: int, next: u32, count: u16)
    requires
        0 <= off < next <= d.len(),
        off + 15 <= d.len(),
        d[off] == 'M' as u8 && d[off + 1] == 'D' as u8,
        'A' as u8 <= d[off + 2] <= 'Z' as u8,
        'A' as u8 <= d[off + 3] <= 'Z' as u8,
        forall|k: int| off + 4 <= k < off + 8 ==> '0' as u8 <= #[trigger] d[k] <= '9' as u8,
        d[off + 8] == 0,
        crate::bytes::stores(d, off + 9, seq![next], 4),
        crate::bytes::stores(d, off + 13, seq![count as u32], 2),
        off <= usize::MAX,
        next <= usize::MAX,
    ensures
        header_at(d, off) == Some(
            Section { offset: off as usize, next: next as usize, count },
        ),
{
    let tag = d.subrange(off, off + 8);
    assert(tag[0] == d[off] && tag[1] == d[off + 1] && tag[2] == d[off + 2] && tag[3] == d[off
        + 3]);
    assert(tag[4] == d[off + 4] && tag[5] == d[off + 5] && tag[6] == d[off + 6] && tag[7] == d[off
        + 7]);
    let n = seq![next];
    let c = seq![count as u32];
    crate::bytes::lemma_stored(d, off + 9, n, 4, 0);
    crate::bytes::lemma_stored(d, off + 13, c, 2, 0);
    assert(n[0] == next && c[0] == count);
}

/// Whether a bone is stored from `p` up to `next`: behind five bytes its parent, the size
/// of what follows, in it the matrix, and then a text.
pub open spec fn bone_stored(d: Seq<u8>, p: int, next: int, size: u32, b: BoneModel) -> bool {
    &&& 0 <= p
    &&& size >= 64 && size % 4 == 0
    &&& crate::bytes::stores(d, p + 5, seq![b.parent as u32, size], 4)
    &&& b.bind.len() == 16
    &&& crate::bytes::stores(d, p + 13, b.bind, 4)
    &&& text_stored(d, p + 13 + size, next, b.params)
}

proof fn lemma_signed(x: i32)
    by (bit_vector)
    ensures
        (x as u32) as i32 == x,
{
}

proof fn lemma_bone_stored(d: Seq<u8>, p: int, next: int, end: int, size: u32, b: BoneModel)
    requires
        bone_stored(d, p, next, size, b),
        next <= end <= d.len(),
    ensures
        bone_at(d, p, end) == Some((b, next)),
{
    let head = seq![b.parent as u32, size];
    crate::bytes::lemma_stored(d, p + 5, head, 4, 0);
    crate::bytes::lemma_stored(d, p + 5, head, 4, 1);
    assert(head[0] == b.parent as u32 && head[1] == size);
    lemma_signed(b.parent);
    lemma_floats_stored(d, p + 13, b.bind);
    law_texts_are_read_back(d, p + 13 + size, next, b.params, end);
    assert(bone_at(d, p, end)->Some_0.0 =~= b);
}

/// Bones that are stored one behind the other, `at[i]` being where the bone `i` begins,
/// are read back in their order, with their parents, matrices and texts.
pub proof fn law_stored_bones_are_read_back(
    d: Seq<u8>,
    at: Seq<int>,
    sizes: Seq<u32>,
    bones: Seq<BoneModel>,
    end: int,
    i: int,
)
    requires
        at.len() == bones.len() + 1,
        sizes.len() == bones.len(),
        at.last() <= end <= d.len(),
        forall|k: int|
            0 <= k < bones.len() ==> #[trigger] bone_stored(d, at[k], at[k + 1], sizes[k], bones[k]),
        forall|k: int| 0 <= k < at.len() ==> #[trigger] at[k] <= end,
        0 <= i <= bones.len(),
    ensures
        bones_at(d, at[i], end, (bones.len() - i) as nat) == bones.skip(i),
    decreases bones.len() - i,
{
    if i < bones.len() {
        assert(bone_stored(d, at[i], at[i + 1], sizes[i], bones[i]));
        assert(at[i + 1] <= end);
        lemma_bone_stored(d, at[i], at[i + 1], end, sizes[i], bones[i]);
        law_stored_bones_are_read_back(d, at, sizes, bones, end, i + 1);
        assert(seq![bones[i]] + bones.skip(i + 1) =~= bones.skip(i));
    } else {
        assert(bones.skip(i) =~= Seq::<BoneModel>::empty());
    }
}

/// The skeleton of a file is what is stored in its `MDLS` section, 17 bytes behind the
/// section's begin.
pub proof fn law_a_skeleton_is_read_back(
    d: Seq<u8>,
    m: PuppetModel,
    sec: Section,
    at: Seq<int>,
    sizes: Seq<u32>,
    bones: Seq<BoneModel>,
)
    requires
        describes(d, m),
        d.len() <= usize::MAX,
        section_of(d, "MDLS"@) == Some(sec),
        sec.count == bones.len(),
        at.len() == bones.len() + 1,
        sizes.len() == bones.len(),
        at[0] == sec.offset + 17,
        forall|k: int|
            0 <= k < bones.len() ==> #[trigger] bone_stored(d, at[k], at[k + 1], sizes[k], bones[k]),
        forall|k: int| 0 <= k < at.len() ==> #[trigger] at[k] <= sec.next,
    ensures
        bone_views(m.bones@) == bones,
{
    law_sections_lie_within_the_file(d, "MDLS"@, sec);
    law_stored_bones_are_read_back(d, at, sizes, bones, sec.next as int, 0);
    assert(bones.skip(0) =~= bones);
}

/// Whether an attachment is stored from `p` up to `next`: its bone, its name, and a
/// matrix.
pub open spec fn attachment_stored(d: Seq<u8>, p: int, next: int, a: AttachmentModel) -> bool {
    &&& crate::bytes::stores(d, p, seq![a.kind as u32], 2)
    &&& text_stored(d, p + 2, next - 64, a.name)
    &&& a.matrix.len() == 16
    &&& crate::bytes::stores(d, next - 64, a.matrix, 4)
}

/// Attachments that are stored one behind the other are read back in their order, with
/// their bones, names and matrices.
pub proof fn law_stored_attachments_are_read_back(
    d: Seq<u8>,
    at: Seq<int>,
    list: Seq<AttachmentModel>,
    end: int,
    i: int,
)
    requires
        at.len() == list.len() + 1,
        end <= d.len(),
        forall|k: int|
            0 <= k < list.len() ==> #[trigger] attachment_stored(d, at[k], at[k + 1], list[k]),
        forall|k: int| 0 <= k < at.len() ==> #[trigger] at[k] <= end,
        0 <= i <= list.len(),
    ensures
        attachments_at(d, at[i], end, (list.len() - i) as nat) == list.skip(i),
    decreases list.len() - i,
{
    if i < list.len() {
        let a = list[i];
        let next = at[i + 1];
        assert(attachment_stored(d, at[i], next, a));
        let head = seq![a.kind as u32];
        crate::bytes::lemma_stored(d, at[i], head, 2, 0);
        assert(head[0] == a.kind);
        law_texts_are_read_back(d, at[i] + 2, next - 64, a.name, end);
        lemma_floats_stored(d, next - 64, a.matrix);
        assert(attachment_at(d, at[i], end)->Some_0.0 =~= a);
        law_stored_attachments_are_read_back(d, at, list, end, i + 1);
        assert(seq![a] + list.skip(i + 1) =~= list.skip(i));
    } else {
        assert(list.skip(i) =~= Seq::<AttachmentModel>::empty());
    }
}

/// The attachments of a file are what is stored in its `MDAT` section, 15 bytes behind
/// the section's begin.
pub proof fn law_a_files_attachments_are_read_back(
    d: Seq<u8>,
    m: PuppetModel,
    sec: Section,
    at: Seq<int>,
    list: Seq<AttachmentModel>,
)
    requires
        describes(d, m),
        d.len() <= usize::MAX,
        section_of(d, "MDAT"@) == Some(sec),
        sec.count == list.len(),
        at.len() == list.len() + 1,
        at[0] == sec.offset + 15,
        forall|k: int|
            0 <= k < list.len() ==> #[trigger] attachment_stored(d, at[k], at[k + 1], list[k]),
        forall|k: int| 0 <= k < at.len() ==> #[trigger] at[k] <= sec.next,
    ensures
        attachment_views(m.attachments@) == list,
{
    law_sections_lie_within_the_file(d, "MDAT"@, sec);
    law_stored_attachments_are_read_back(d, at, list, sec.next as int, 0);
    assert(list.skip(0) =~= list);
}

/// Whether a track is stored from `p` up to `next`: behind four bytes the size of its
/// keys, and then the keys, each of `size` bytes that begin with nine floats: position,
/// two others, rotation, scale.
pub open spec fn track_stored(
    d: Seq<u8>,
    p: int,
    next: int,
    size: int,
    keys: Seq<KeyModel>,
    others: Seq<(u32, u32)>,
) -> bool {
    &&& size >= 36
    &&& others.len() == keys.len()
    &&& keys.len() * size <= u32::MAX
    &&& next == p + 8 + keys.len() * size
    &&& next <= d.len()
    &&& crate::bytes::stores(d, p + 4, seq![(keys.len() * size) as u32], 4)
    &&& 0 <= p
    &&& forall|k: int|
        0 <= k < keys.len() ==> (#[trigger] keys[k]).position.len() == 3 && keys[k].scale.len() == 3
            && crate::bytes::stores(
            d,
            p + 8 + k * size,
            keys[k].position + seq![others[k].0, others[k].1, keys[k].rotation] + keys[k].scale,
            4,
        )
}

/// A track with a key for each frame of its animation, and one more, is read back.
pub proof fn law_a_stored_track_is_read_back(
    d: Seq<u8>,
    p: int,
    next: int,
    end: int,
    size: int,
    keys: Seq<KeyModel>,
    others: Seq<(u32, u32)>,
)
    requires
        track_stored(d, p, next, size, keys, others),
        keys.len() >= 2,
        next <= end,
    ensures
        track_at(d, p, end, (keys.len() - 1) as u32) == Some((keys, next)),
{
    let n = keys.len() as int;
    let bytes = n * size;
    assert(n <= bytes) by (nonlinear_arith)
        requires
            n >= 2,
            size >= 36,
            bytes == n * size,
    ;
    let head = seq![bytes as u32];
    crate::bytes::lemma_stored(d, p + 4, head, 4, 0);
    assert(head[0] == bytes);
    assert(size * n + 0 == bytes) by (nonlinear_arith)
        requires
            bytes == n * size,
    ;
    vstd::arithmetic::div_mod::lemma_fundamental_div_mod_converse(bytes, n, size, 0);
    let length = (n - 1) as u32;
    assert(length + 1 == n);
    assert(key_count(length, bytes) == n);
    let read = track_at(d, p, end, length)->Some_0.0;
    assert(read.len() == n);
    assert forall|k: int| 0 <= k < n implies #[trigger] read[k] == keys[k] by {
        let v = keys[k].position + seq![others[k].0, others[k].1, keys[k].rotation] + keys[k].scale;
        assert(crate::bytes::stores(d, p + 8 + k * size, v, 4));
        lemma_floats_stored(d, p + 8 + k * size, v);
        assert(read[k] =~= keys[k]);
    }
    assert(read =~= keys);
}

/// Where an animation is stored: its tracks begin at `first`, `at[i]` being where the
/// track `i` begins.
pub ghost struct StoredAnimation {
    pub mode_at: int,
    pub numbers_at: int,
    pub at: Seq<int>,
    pub size: int,
    pub others: Seq<Seq<(u32, u32)>>,
    pub skipped: u32,
}

/// Whether an animation is stored from `p` on: behind eight bytes its name, its mode,
/// the rate, the length, four bytes, how many tracks there are, and the tracks.
pub open spec fn animation_stored(d: Seq<u8>, p: int, w: StoredAnimation, a: AnimationModel) -> bool {
    &&& 0 <= p
    &&& text_stored(d, p + 8, w.mode_at, a.name)
    &&& text_stored(d, w.mode_at, w.numbers_at, a.mode)
    &&& crate::bytes::stores(
        d,
        w.numbers_at,
        seq![a.fps, a.length, w.skipped, a.tracks.len() as u32],
        4,
    )
    &&& 0 < a.length < u32::MAX
    &&& 1 <= a.tracks.len() <= 4096
    &&& w.at.len() == a.tracks.len() + 1
    &&& w.others.len() == a.tracks.len()
    &&& w.at[0] == w.numbers_at + 16
    &&& forall|k: int|
        0 <= k < a.tracks.len() ==> (#[trigger] a.tracks[k]).len() == a.length + 1 && track_stored(
            d,
            w.at[k],
            w.at[k + 1],
            w.size,
            a.tracks[k],
            w.others[k],
        )
}

proof fn lemma_tracks_stored(d: Seq<u8>, end: int, w: StoredAnimation, a: AnimationModel, i: int)
    requires
        w.at.len() == a.tracks.len() + 1,
        w.others.len() == a.tracks.len(),
        0 < a.length < u32::MAX,
        forall|k: int|
            0 <= k < a.tracks.len() ==> (#[trigger] a.tracks[k]).len() == a.length + 1
                && track_stored(d, w.at[k], w.at[k + 1], w.size, a.tracks[k], w.others[k]),
        forall|k: int| 0 <= k < w.at.len() ==> #[trigger] w.at[k] <= end,
        0 <= i <= a.tracks.len(),
    ensures
        tracks_at(d, w.at[i], end, a.length, (a.tracks.len() - i) as nat) == Some(
            (a.tracks.skip(i), w.at.last()),
        ),
    decreases a.tracks.len() - i,
{
    if i < a.tracks.len() {
        let keys = a.tracks[i];
        assert(track_stored(d, w.at[i], w.at[i + 1], w.size, keys, w.others[i]));
        assert(w.at[i + 1] <= end);
        law_a_stored_track_is_read_back(
            d,
            w.at[i],
            w.at[i + 1],
            end,
            w.size,
            keys,
            w.others[i],
        );
        assert((keys.len() - 1) as u32 == a.length);
        lemma_tracks_stored(d, end, w, a, i + 1);
        assert(seq![keys] + a.tracks.skip(i + 1) =~= a.tracks.skip(i));
    } else {
        assert(a.tracks.skip(i) =~= Seq::<Seq<KeyModel>>::empty());
    }
}

/// An animation that is stored is read back: its name, mode, rate and length, and the
/// tracks of its bones in their order.
pub proof fn law_a_stored_animation_is_read_back(
    d: Seq<u8>,
    p: int,
    end: int,
    w: StoredAnimation,
    a: AnimationModel,
)
    requires
        animation_stored(d, p, w, a),
        forall|k: int| 0 <= k < w.at.len() ==> #[trigger] w.at[k] <= end,
        end <= d.len(),
    ensures
        animation_at(d, p, end) == Some((a, w.at.last())),
{
    let n = w.numbers_at;
    assert(track_stored(d, w.at[0], w.at[1], w.size, a.tracks[0], w.others[0]));
    let t = a.tracks[0].len() as int;
    assert(w.at[1] >= w.at[0] + 8) by (nonlinear_arith)
        requires
            w.at[1] == w.at[0] + 8 + t * w.size,
            t >= 0,
            w.size >= 36,
    ;
    assert(w.at[1] <= end);
    law_texts_are_read_back(d, p + 8, w.mode_at, a.name, end);
    law_texts_are_read_back(d, w.mode_at, n, a.mode, end);
    let v = seq![a.fps, a.length, w.skipped, a.tracks.len() as u32];
    crate::bytes::lemma_stored(d, n, v, 4, 0);
    crate::bytes::lemma_stored(d, n, v, 4, 1);
    crate::bytes::lemma_stored(d, n, v, 4, 3);
    assert(v[0] == a.fps && v[1] == a.length && v[3] == a.tracks.len());
    lemma_tracks_stored(d, end, w, a, 0);
    assert(a.tracks.skip(0) =~= a.tracks);
    assert(animation_at(d, p, end)->Some_0.0 =~= a);
}

/// Whether an animation is stored from `p` on, with `trailer` bytes behind it up to
/// `next`, in a section that ends at `end`.
pub open spec fn animation_fits(
    d: Seq<u8>,
    p: int,
    w: StoredAnimation,
    a: AnimationModel,
    trailer: int,
    next: int,
    end: int,
) -> bool {
    &&& animation_stored(d, p, w, a)
    &&& next == w.at.last() + trailer
    &&& next <= end
    &&& forall|j: int| 0 <= j < w.at.len() ==> #[trigger] w.at[j] <= end
}

/// Animations that are stored one behind the other, with `trailer` bytes behind each and
/// the section's end behind the last, are read back in their order.
pub proof fn law_stored_animations_are_read_back(
    d: Seq<u8>,
    at: Seq<int>,
    ws: Seq<StoredAnimation>,
    list: Seq<AnimationModel>,
    trailer: int,
    end: int,
    i: int,
)
    requires
        at.len() == list.len() + 1,
        ws.len() == list.len(),
        at.last() == end <= d.len(),
        0 <= trailer,
        forall|k: int|
            0 <= k < list.len() ==> #[trigger] animation_fits(
                d,
                at[k],
                ws[k],
                list[k],
                trailer,
                at[k + 1],
                end,
            ),
        0 <= i <= list.len(),
    ensures
        animations_at(d, at[i], end, trailer, (list.len() - i) as nat) == Some(list.skip(i)),
    decreases list.len() - i,
{
    if i < list.len() {
        assert(animation_fits(d, at[i], ws[i], list[i], trailer, at[i + 1], end));
        law_a_stored_animation_is_read_back(d, at[i], end, ws[i], list[i]);
        law_stored_animations_are_read_back(d, at, ws, list, trailer, end, i + 1);
        assert(seq![list[i]] + list.skip(i + 1) =~= list.skip(i));
    } else {
        assert(list.skip(i) =~= Seq::<AnimationModel>::empty());
    }
}

/// The animations of a file are those of its `MDLA` section, 17 bytes behind the
/// section's begin; where they are stored with nothing behind each, they are read back.
pub proof fn law_a_files_animations_are_read_back(
    d: Seq<u8>,
    m: PuppetModel,
    sec: Section,
    at: Seq<int>,
    ws: Seq<StoredAnimation>,
    list: Seq<AnimationModel>,
)
    requires
        describes(d, m),
        d.len() <= usize::MAX,
        section_of(d, "MDLA"@) == Some(sec),
        sec.count == list.len(),
        at.len() == list.len() + 1,
        ws.len() == list.len(),
        at[0] == sec.offset + 17,
        at.last() == sec.next,
        forall|k: int|
            0 <= k < list.len() ==> #[trigger] animation_fits(
                d,
                at[k],
                ws[k],
                list[k],
                0,
                at[k + 1],
                sec.next as int,
            ),
    ensures
        animation_views(m.animations@) == list,
{
    law_sections_lie_within_the_file(d, "MDLA"@, sec);
    law_stored_animations_are_read_back(d, at, ws, list, 0, sec.next as int, 0);
    assert(list.skip(0) =~= list);
}

/// The version is the four digits behind the magic, and the material is the text that
/// begins at the 21st byte.
pub proof fn law_version_and_material_are_read_back(
    d: Seq<u8>,
    m: PuppetModel,
    a: nat,
    b: nat,
    c: nat,
    e: nat,
    next: int,
    material: Seq<char>,
)
    requires
        describes(d, m),
        a < 10 && b < 10 && c < 10 && e < 10,
        d.len() >= 8,
        d[4] == '0' as u8 + a && d[5] == '0' as u8 + b && d[6] == '0' as u8 + c && d[7] == '0' as u8
            + e,
        text_stored(d, 21, next, material),
    ensures
        m.version == 1000 * a + 100 * b + 10 * c + e,
        m.material@ == material,
{
    law_texts_are_read_back(d, 21, next, material, d.len() as int);
    let t = tag_text(d, 0).skip(4);
    assert(t.len() == 4);
    assert(t[0] == d[4] as char && t[1] == d[5] as char && t[2] == d[6] as char && t[3] == d[7] as char);
    assert(crate::numbers::without_plus(t) =~= t);
    reveal_with_fuel(crate::numbers::digits_value, 5);
    assert(t.drop_last().drop_last().drop_last().drop_last().len() == 0);
}

/// The winding of a mesh does not depend on which way is called left, nor on triangles
/// that are not wound at all; triangles that are all wound one way are wound alike, and
/// as many one way as the other are not.
pub proof fn law_winding_is_a_matter_of_agreement(turns: Seq<Turn>, other: Seq<Turn>)
    requires
        turns.len() == other.len(),
        forall|i: int|
            0 <= i < turns.len() ==> #[trigger] other[i] == (match turns[i] {
                Turn::Left => Turn::Right,
                Turn::Right => Turn::Left,
                Turn::Flat => Turn::Flat,
            }),
    ensures
        wound_alike(turns) == wound_alike(other),
        wound_alike(turns.push(Turn::Flat)) == wound_alike(turns),
        (exists|i: int| 0 <= i < turns.len() && #[trigger] turns[i] == Turn::Left) && (forall|i: int|
            0 <= i < turns.len() ==> #[trigger] turns[i] != Turn::Right) ==> wound_alike(turns),
        !wound_alike(turns + other),
{
    let n = turns.len() as int;
    lemma_turns_mirrored(turns, other, n);
    lemma_turns_prefix(turns, seq![Turn::Flat], Turn::Left, n);
    lemma_turns_prefix(turns, seq![Turn::Flat], Turn::Right, n);
    assert(turns.push(Turn::Flat) =~= turns + seq![Turn::Flat]);
    reveal_with_fuel(turns_of, 2);
    if (exists|i: int| 0 <= i < turns.len() && #[trigger] turns[i] == Turn::Left) && (forall|i: int|
        0 <= i < turns.len() ==> #[trigger] turns[i] != Turn::Right) {
        let i = choose|i: int| 0 <= i < turns.len() && #[trigger] turns[i] == Turn::Left;
        lemma_turns_one_way(turns, n, i);
    }
    lemma_turns_added(turns, other, Turn::Left, n);
    lemma_turns_added(turns, other, Turn::Right, n);
}

proof fn lemma_turns_prefix(a: Seq<Turn>, b: Seq<Turn>, way: Turn, n: int)
    requires
        0 <= n <= a.len(),
    ensures
        turns_of(a + b, way, n) == turns_of(a, way, n),
    decreases n,
{
    if n > 0 {
        lemma_turns_prefix(a, b, way, n - 1);
        assert((a + b)[n - 1] == a[n - 1]);
    }
}

proof fn lemma_turns_added(a: Seq<Turn>, b: Seq<Turn>, way: Turn, n: int)
    requires
        0 <= n <= b.len(),
    ensures
        turns_of(a + b, way, a.len() + n) == turns_of(a, way, a.len() as int) + turns_of(b, way, n),
    decreases n,
{
    if n > 0 {
        lemma_turns_added(a, b, way, n - 1);
        assert((a + b)[a.len() + n - 1] == b[n - 1]);
    } else {
        lemma_turns_prefix(a, b, way, a.len() as int);
    }
}

proof fn lemma_turns_mirrored(a: Seq<Turn>, b: Seq<Turn>, n: int)
    requires
        a.len() == b.len(),
        0 <= n <= a.len(),
        forall|i: int|
            0 <= i < a.len() ==> #[trigger] b[i] == (match a[i] {
                Turn::Left => Turn::Right,
                Turn::Right => Turn::Left,
                Turn::Flat => Turn::Flat,
            }),
    ensures
        turns_of(b, Turn::Left, n) == turns_of(a, Turn::Right, n),
        turns_of(b, Turn::Right, n) == turns_of(a, Turn::Left, n),
    decreases n,
{
    if n > 0 {
        lemma_turns_mirrored(a, b, n - 1);
        assert(b[n - 1] == b[n - 1]);
    }
}

proof fn lemma_turns_one_way(a: Seq<Turn>, n: int, i: int)
    requires
        0 <= n <= a.len(),
        0 <= i < a.len(),
        a[i] == Turn::Left,
        forall|k: int| 0 <= k < a.len() ==> #[trigger] a[k] != Turn::Right,
    ensures
        turns_of(a, Turn::Right, n) == 0,
        i < n ==> turns_of(a, Turn::Left, n) > 0,
    decreases n,
{
    if n > 0 {
        lemma_turns_one_way(a, n - 1, i);
        assert(a[n - 1] != Turn::Right);
    }
}

/// Of a mesh with fewer than twelve hundred triangles, all whose vertices are there, every
/// triangle is looked at, in order: the triangle `t` is the indices from `3 * t` on.
pub proof fn law_small_meshes_are_looked_at_whole(indices: Seq<u32>, vertices: nat, t: int)
    requires
        indices.len() / 3 < 1200,
        forall|k: int| 0 <= k < indices.len() ==> #[trigger] indices[k] < vertices,
        0 <= t <= indices.len() / 3,
    ensures
        sampled_from(indices, vertices, t) == Seq::new(
            (indices.len() / 3 - t) as nat,
            |k: int|
                Triangle {
                    a: indices[3 * (t + k)],
                    b: indices[3 * (t + k) + 1],
                    c: indices[3 * (t + k) + 2],
                },
        ),
    decreases indices.len() / 3 - t,
{
    let n = indices.len() as int / 3;
    let want = Seq::new(
        (n - t) as nat,
        |k: int|
            Triangle {
                a: indices[3 * (t + k)],
                b: indices[3 * (t + k) + 1],
                c: indices[3 * (t + k) + 2],
            },
    );
    if t < n {
        law_small_meshes_are_looked_at_whole(indices, vertices, t + 1);
        assert(sample_step(n) == 1);
        assert(indices[3 * t] < vertices && indices[3 * t + 1] < vertices && indices[3 * t + 2]
            < vertices);
        assert(sampled_from(indices, vertices, t) =~= want);
    } else {
        assert(sampled_from(indices, vertices, t) =~= want);
    }
}

/// The keys around a frame are that of the frame and the one behind it; from the last frame
/// on they are the last key alone, and only a track without keys has none.
pub proof fn law_frames_lie_between_their_keys(
    t: Track,
    frame: usize,
    r: Option<(Keyframe, Keyframe)>,
)
    requires
        call_ensures(Track::around, (&t, frame), r),
    ensures
        r is None == (t.keys@.len() == 0),
        r matches Some((a, b)) ==> {
            &&& frame < t.keys@.len() - 1 ==> a == t.keys@[frame as int] && b == t.keys@[frame as int
                + 1]
            &&& frame >= t.keys@.len() - 1 ==> a == b && a == t.keys@[t.keys@.len() - 1]
        },
{
}

} // verus!
