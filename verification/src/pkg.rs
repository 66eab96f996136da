//! Reader for the Wallpaper Engine `scene.pkg` container.
//!
//! All integers are little-endian `u32`, strings are length-prefixed and not
//! NUL-terminated:
//!
//! ```text
//! u32    version_len
//! char[] version                  e.g. "PKGV0001"
//! u32    entry_count
//! entry_count x
//!     u32    name_len
//!     char[] name
//!     u32    offset               relative to the end of the entry table
//!     u32    size
//! <blob>
//! ```
use vstd::prelude::*;
use crate::bytes::le_u32;
use crate::strmap::StrMap;
use crate::text::{chars_of, decode_lossy, decode_strict, starts_with};
use vstd::slice::slice_subrange;

verus! {

/// Refuse absurd lengths early rather than trying to allocate them. Real names
/// are short paths; real packages in the reference corpus hold tens of entries.
pub const MAX_NAME_LEN: u32 = 4096;

/// The most entries that a package may have.
pub const MAX_ENTRIES: u32 = 1_048_576;

/// Where the contents of an entry lie.
#[derive(Debug, Clone, Copy, PartialEq, Eq, Structural)]
pub struct Entry {
    pub offset: u32,
    pub size: u32,
}

/// Why a file is not a package.
#[derive(Debug, Clone, Copy, PartialEq, Eq, Structural)]
pub enum PkgError {
    /// The file ends within an integer.
    LengthPastEnd,
    /// A string is too long for a package.
    StringTooLong(u32),
    /// The file ends within a string.
    StringPastEnd,
    /// The version string is not `PKGV####`.
    NotPkgv,
    /// There are too many entries for a package.
    TooManyEntries(u32),
    /// The entries do not reach exactly to the end of the file.
    Unaccounted { data_start: u64, addressed: u64, len: u64 },
}

/// An opened package.
#[derive(Debug)]
pub struct Package {
    pub bytes: Vec<u8>,
    /// Where entry data begins; `Entry::offset` is relative to this.
    pub data_start: usize,
    pub version: String,
    pub entries: StrMap<Entry>,
}

/// The integer at `pos`, and where it ends.
pub open spec fn integer_at(b: Seq<u8>, pos: int) -> Result<(u32, int), PkgError> {
    if pos + 4 <= b.len() {
        Ok((crate::bytes::le(b, pos, 4) as u32, pos + 4))
    } else {
        Err(PkgError::LengthPastEnd)
    }
}

/// The string of `len` bytes at `pos`, and where it ends.
pub open spec fn string_at(b: Seq<u8>, pos: int, len: u32) -> Result<(Seq<char>, int), PkgError> {
    if len > MAX_NAME_LEN {
        Err(PkgError::StringTooLong(len))
    } else if pos + len > b.len() {
        Err(PkgError::StringPastEnd)
    } else {
        Ok((crate::text::utf8_lossy(b.subrange(pos, pos + len)), pos + len))
    }
}

/// The string at `pos` with its length before it, and where it ends.
pub open spec fn counted_string_at(b: Seq<u8>, pos: int) -> Result<(Seq<char>, int), PkgError> {
    match integer_at(b, pos) {
        Err(e) => Err(e),
        Ok((len, at)) => string_at(b, at, len),
    }
}

/// One entry of the table: its name, where its contents lie, and where it ends.
pub open spec fn entry_at(b: Seq<u8>, pos: int) -> Result<(Seq<char>, Entry, int), PkgError> {
    match counted_string_at(b, pos) {
        Err(e) => Err(e),
        Ok((name, p1)) => match integer_at(b, p1) {
            Err(e) => Err(e),
            Ok((offset, p2)) => match integer_at(b, p2) {
                Err(e) => Err(e),
                Ok((size, p3)) => Ok((name, Entry { offset, size }, p3)),
            },
        },
    }
}

/// The table of `count` entries at `pos`, and where it ends; of two entries with
/// one name the later stays.
pub open spec fn table_at(b: Seq<u8>, pos: int, count: nat, known: Map<Seq<char>, Entry>) -> Result<
    (Map<Seq<char>, Entry>, int),
    PkgError,
>
    decreases count,
{
    if count == 0 {
        Ok((known, pos))
    } else {
        match entry_at(b, pos) {
            Err(e) => Err(e),
            Ok((name, entry, next)) => table_at(
                b,
                next,
                (count - 1) as nat,
                known.insert(name, entry),
            ),
        }
    }
}

/// Whether `n` is how far the entries reach.
pub open spec fn reaches(entries: Map<Seq<char>, Entry>, n: int) -> bool {
    &&& forall|k: Seq<char>| #[trigger]
        entries.dom().contains(k) ==> entries[k].offset + entries[k].size <= n
    &&& n == 0 || exists|k: Seq<char>| #[trigger]
        entries.dom().contains(k) && entries[k].offset + entries[k].size == n
}

/// How far the entries reach.
pub open spec fn reach(entries: Map<Seq<char>, Entry>) -> int {
    choose|n: int| n >= 0 && reaches(entries, n)
}

/// There is only one number that the entries reach.
proof fn lemma_reach(entries: Map<Seq<char>, Entry>, n: int)
    requires
        n >= 0,
        reaches(entries, n),
    ensures
        reach(entries) == n,
{
    let m = reach(entries);
    assert(m >= 0 && reaches(entries, m));
    if m != 0 {
        let k = choose|k: Seq<char>| #[trigger]
            entries.dom().contains(k) && entries[k].offset + entries[k].size == m;
        assert(m <= n);
    }
    if n != 0 {
        let k = choose|k: Seq<char>| #[trigger]
            entries.dom().contains(k) && entries[k].offset + entries[k].size == n;
        assert(n <= m);
    }
}

/// What a package says.
#[verifier::ext_equal]
pub ghost struct PackageModel {
    pub version: Seq<char>,
    pub entries: Map<Seq<char>, Entry>,
    pub data_start: int,
    pub bytes: Seq<u8>,
}

/// The package that bytes are, or why they are none.
pub open spec fn package_read(b: Seq<u8>) -> Result<PackageModel, PkgError> {
    match counted_string_at(b, 0) {
        Err(e) => Err(e),
        Ok((version, p1)) => if !crate::text::begins_with(version, "PKGV"@) {
            Err(PkgError::NotPkgv)
        } else {
            match integer_at(b, p1) {
                Err(e) => Err(e),
                Ok((count, p2)) => if count > MAX_ENTRIES {
                    Err(PkgError::TooManyEntries(count))
                } else {
                    match table_at(b, p2, count as nat, Map::empty()) {
                        Err(e) => Err(e),
                        Ok((entries, start)) => if start + reach(entries) != b.len() {
                            Err(
                                PkgError::Unaccounted {
                                    data_start: start as u64,
                                    addressed: reach(entries) as u64,
                                    len: b.len() as u64,
                                },
                            )
                        } else {
                            Ok(PackageModel { version, entries, data_start: start, bytes: b })
                        },
                    }
                },
            }
        },
    }
}

impl PackageModel {
    /// The contents of an entry.
    pub open spec fn contents(self, name: Seq<char>) -> Option<Seq<u8>> {
        if self.entries.dom().contains(name) {
            let e = self.entries[name];
            let start = self.data_start + e.offset;
            if start + e.size <= self.bytes.len() {
                Some(self.bytes.subrange(start, start + e.size))
            } else {
                None
            }
        } else {
            None
        }
    }

    /// The contents of an entry as text: none where they are not UTF-8, and
    /// without the byte-order mark that they may begin with.
    pub open spec fn text(self, name: Seq<char>) -> Option<Seq<char>> {
        match self.contents(name) {
            None => None,
            Some(raw) => {
                let plain = without_bom(raw);
                if vstd::utf8::valid_utf8(plain) {
                    Some(vstd::utf8::decode_utf8(plain))
                } else {
                    None
                }
            },
        }
    }
}

/// Bytes without the UTF-8 byte-order mark that they may begin with.
pub open spec fn without_bom(raw: Seq<u8>) -> Seq<u8> {
    if raw.len() >= 3 && raw[0] == 0xef && raw[1] == 0xbb && raw[2] == 0xbf {
        raw.skip(3)
    } else {
        raw
    }
}

impl View for Package {
    type V = PackageModel;

    open spec fn view(&self) -> PackageModel {
        PackageModel {
            version: self.version@,
            entries: self.entries@,
            data_start: self.data_start as int,
            bytes: self.bytes@,
        }
    }
}

fn read_u32(b: &[u8], pos: usize) -> (r: Result<(u32, usize), PkgError>)
    requires
        pos <= b@.len(),
    ensures
        match r {
            Ok((n, next)) => integer_at(b@, pos as int) == Ok::<(u32, int), PkgError>(
                (n, next as int),
            ) && next <= b@.len(),
            Err(e) => integer_at(b@, pos as int) == Err::<(u32, int), PkgError>(e),
        },
{
    if b.len() - pos < 4 {
        Err(PkgError::LengthPastEnd)
    } else {
        Ok((le_u32(b, pos), pos + 4))
    }
}

fn read_string(b: &[u8], pos: usize) -> (r: Result<(String, usize), PkgError>)
    requires
        pos <= b@.len(),
    ensures
        match r {
            Ok((s, next)) => counted_string_at(b@, pos as int) == Ok::<(Seq<char>, int), PkgError>(
                (s@, next as int),
            ) && next <= b@.len(),
            Err(e) => counted_string_at(b@, pos as int) == Err::<(Seq<char>, int), PkgError>(e),
        },
{
    let (len, at) = match read_u32(b, pos) {
        Ok(p) => p,
        Err(e) => return Err(e),
    };
    if len > MAX_NAME_LEN {
        return Err(PkgError::StringTooLong(len));
    }
    if b.len() - at < len as usize {
        return Err(PkgError::StringPastEnd);
    }
    let end = at + len as usize;
    Ok((decode_lossy(slice_subrange(b, at, end)), end))
}

fn read_entry(b: &[u8], pos: usize) -> (r: Result<(String, Entry, usize), PkgError>)
    requires
        pos <= b@.len(),
    ensures
        match r {
            Ok((name, entry, next)) => entry_at(b@, pos as int) == Ok::<
                (Seq<char>, Entry, int),
                PkgError,
            >((name@, entry, next as int)) && next <= b@.len(),
            Err(e) => entry_at(b@, pos as int) == Err::<(Seq<char>, Entry, int), PkgError>(e),
        },
{
    let (name, p1) = match read_string(b, pos) {
        Ok(p) => p,
        Err(e) => return Err(e),
    };
    let (offset, p2) = match read_u32(b, p1) {
        Ok(p) => p,
        Err(e) => return Err(e),
    };
    let (size, p3) = match read_u32(b, p2) {
        Ok(p) => p,
        Err(e) => return Err(e),
    };
    Ok((name, Entry { offset, size }, p3))
}

fn read_table(b: &[u8], pos: usize, count: u32) -> (r: Result<(StrMap<Entry>, usize), PkgError>)
    requires
        pos <= b@.len(),
    ensures
        match r {
            Ok((entries, next)) => table_at(b@, pos as int, count as nat, Map::empty()) == Ok::<
                (Map<Seq<char>, Entry>, int),
                PkgError,
            >((entries@, next as int)) && next <= b@.len(),
            Err(e) => table_at(b@, pos as int, count as nat, Map::empty()) == Err::<
                (Map<Seq<char>, Entry>, int),
                PkgError,
            >(e),
        },
{
    let mut entries: StrMap<Entry> = StrMap::new();
    let mut at: usize = pos;
    let mut left: u32 = count;
    while left > 0
        invariant
            at <= b@.len(),
            table_at(b@, pos as int, count as nat, Map::empty()) == table_at(
                b@,
                at as int,
                left as nat,
                entries@,
            ),
        decreases left,
    {
        match read_entry(b, at) {
            Ok((name, entry, next)) => {
                entries.insert(name, entry);
                at = next;
            },
            Err(e) => {
                return Err(e);
            },
        }
        left -= 1;
    }
    Ok((entries, at))
}

/// How far the entries reach.
fn addressed_by(entries: &StrMap<Entry>) -> (r: u64)
    ensures
        r == reach(entries@),
        r <= 2 * u32::MAX,
{
    let count = entries.len();
    let ghost keys = entries.keys();
    let mut most: u64 = 0;
    let mut i: usize = 0;
    while i < count
        invariant
            i <= count == keys.len(),
            keys == entries.keys(),
            crate::strmap::lists_keys(keys, entries@),
            most <= 2 * u32::MAX,
            forall|j: int|
                0 <= j < i ==> entries@[#[trigger] keys[j]].offset + entries@[keys[j]].size <= most,
            most == 0 || exists|j: int|
                0 <= j < i && entries@[#[trigger] keys[j]].offset + entries@[keys[j]].size == most,
        decreases count - i,
    {
        let e = entries.value_at(i);
        let end: u64 = e.offset as u64 + e.size as u64;
        proof {
            assert(entries@[keys[i as int]].offset + entries@[keys[i as int]].size == end);
        }
        if end > most {
            most = end;
        }
        i += 1;
    }
    proof {
        assert forall|k: Seq<char>| #[trigger] entries@.dom().contains(k) implies entries@[k].offset
            + entries@[k].size <= most by {
            let j = choose|j: int| 0 <= j < keys.len() && keys[j] == k;
            assert(entries@[keys[j]].offset + entries@[keys[j]].size <= most);
        }
        if most != 0 {
            let j = choose|j: int|
                0 <= j < keys.len() && entries@[#[trigger] keys[j]].offset + entries@[keys[j]].size
                    == most;
            assert(keys.contains(keys[j]));
            assert(entries@.dom().contains(keys[j]));
        }
        lemma_reach(entries@, most as int);
    }
    most
}

impl Package {
    /// Parse from memory buffer.
    pub fn parse(bytes: Vec<u8>) -> (r: Result<Self, PkgError>)
        ensures
            match r {
                Ok(p) => package_read(bytes@) == Ok::<PackageModel, PkgError>(p@),
                Err(e) => package_read(bytes@) == Err::<PackageModel, PkgError>(e),
            },
    {
        let b = bytes.as_slice();
        let (version, p1) = match read_string(b, 0) {
            Ok(p) => p,
            Err(e) => return Err(e),
        };
        let version_chars = chars_of(version.as_str());
        if !starts_with(version_chars.as_slice(), "PKGV") {
            return Err(PkgError::NotPkgv);
        }
        let (count, p2) = match read_u32(b, p1) {
            Ok(p) => p,
            Err(e) => return Err(e),
        };
        if count > MAX_ENTRIES {
            return Err(PkgError::TooManyEntries(count));
        }
        let (entries, data_start) = match read_table(b, p2, count) {
            Ok(p) => p,
            Err(e) => return Err(e),
        };
        // The entry table must end exactly where the data begins, so the last
        // byte addressed by any entry is the last byte of the file. This turns a
        // misparse into an error instead of silent garbage.
        let addressed = addressed_by(&entries);
        if (b.len() - data_start) as u64 != addressed {
            return Err(
                PkgError::Unaccounted {
                    data_start: data_start as u64,
                    addressed,
                    len: b.len() as u64,
                },
            );
        }
        Ok(Package { bytes, data_start, version, entries })
    }

    /// The contents of an entry.
    pub fn get(&self, name: &str) -> (r: Option<&[u8]>)
        ensures
            match r {
                Some(s) => self@.contents(name@) == Some(s@),
                None => self@.contents(name@) is None,
            },
    {
        match self.entries.get(name) {
            None => None,
            Some(e) => {
                let start: u128 = self.data_start as u128 + e.offset as u128;
                let end: u128 = start + e.size as u128;
                if end <= self.bytes.len() as u128 {
                    Some(slice_subrange(self.bytes.as_slice(), start as usize, end as usize))
                } else {
                    None
                }
            },
        }
    }

    /// Entry contents as text, tolerating the UTF-8 BOM some entries carry.
    pub fn get_str(&self, name: &str) -> (r: Option<&str>)
        ensures
            match r {
                Some(s) => self@.text(name@) == Some(s@),
                None => self@.text(name@) is None,
            },
    {
        match self.get(name) {
            None => None,
            Some(raw) => {
                let plain = if raw.len() >= 3 && raw[0] == 0xef && raw[1] == 0xbb && raw[2] == 0xbf {
                    slice_subrange(raw, 3, raw.len())
                } else {
                    raw
                };
                proof {
                    assert(plain@ =~= without_bom(raw@));
                }
                decode_strict(plain)
            },
        }
    }
}

proof fn lemma_table_at(b: Seq<u8>, pos: int, count: nat, known: Map<Seq<char>, Entry>)
    requires
        0 <= pos <= b.len(),
        known.dom().finite(),
    ensures
        table_at(b, pos, count, known) matches Ok((entries, start)) ==> pos <= start <= b.len()
            && entries.dom().finite(),
    decreases count,
{
    if count > 0 {
        match entry_at(b, pos) {
            Err(e) => {},
            Ok((name, entry, next)) => {
                lemma_table_at(b, next, (count - 1) as nat, known.insert(name, entry));
            },
        }
    }
}

/// Finitely many entries reach some way.
proof fn lemma_reach_exists(entries: Map<Seq<char>, Entry>)
    requires
        entries.dom().finite(),
    ensures
        reach(entries) >= 0,
        reaches(entries, reach(entries)),
{
    let n = lemma_some_reach(entries);
    assert(n >= 0 && reaches(entries, n));
}

proof fn lemma_some_reach(entries: Map<Seq<char>, Entry>) -> (n: int)
    requires
        entries.dom().finite(),
    ensures
        n >= 0,
        reaches(entries, n),
    decreases entries.dom().len(),
{
    if entries.dom() =~= Set::empty() {
        0
    } else {
        let k = entries.dom().choose();
        let fewer = entries.remove(k);
        let m = lemma_some_reach(fewer);
        let end = entries[k].offset + entries[k].size;
        let n = if end > m {
            end
        } else {
            m
        };
        assert forall|x: Seq<char>| #[trigger] entries.dom().contains(x) implies entries[x].offset
            + entries[x].size <= n by {
            if x != k {
                assert(fewer.dom().contains(x));
                assert(fewer[x] == entries[x]);
            }
        }
        if n == end {
            assert(entries.dom().contains(k));
        } else if n != 0 {
            let x = choose|x: Seq<char>| #[trigger]
                fewer.dom().contains(x) && fewer[x].offset + fewer[x].size == m;
            assert(entries.dom().contains(x));
        }
        n
    }
}

/// The entries of a package lie within it, and the last byte that one of them
/// takes is the last byte of the file.
pub proof fn law_entries_account_for_the_file(b: Seq<u8>, m: PackageModel, name: Seq<char>)
    requires
        package_read(b) == Ok::<PackageModel, PkgError>(m),
    ensures
        m.bytes == b,
        m.data_start + reach(m.entries) == b.len(),
        m.entries.dom().contains(name) ==> m.contents(name) is Some
            && m.contents(name)->Some_0.len() == m.entries[name].size,
        !m.entries.dom().contains(name) ==> m.contents(name) is None,
{
    let (version, p1) = counted_string_at(b, 0)->Ok_0;
    let (count, p2) = integer_at(b, p1)->Ok_0;
    lemma_table_at(b, p2, count as nat, Map::empty());
    lemma_reach_exists(m.entries);
}

/// The `k` bytes of a number, little-endian.
pub open spec fn le_bytes(n: nat, k: nat) -> Seq<u8>
    decreases k,
{
    if k == 0 {
        Seq::empty()
    } else {
        seq![(n % 256) as u8] + le_bytes(n / 256, (k - 1) as nat)
    }
}

/// A string with its length before it.
pub open spec fn counted_bytes(s: Seq<char>) -> Seq<u8> {
    le_bytes(vstd::utf8::encode_utf8(s).len(), 4) + vstd::utf8::encode_utf8(s)
}

/// An entry of the table.
pub open spec fn entry_bytes(name: Seq<char>, offset: nat, size: nat) -> Seq<u8> {
    counted_bytes(name) + le_bytes(offset, 4) + le_bytes(size, 4)
}

/// The contents of the first `n` files, one behind the other.
pub open spec fn blob_bytes(files: Seq<(Seq<char>, Seq<u8>)>, n: int) -> Seq<u8>
    decreases n,
{
    if n <= 0 {
        Seq::empty()
    } else {
        blob_bytes(files, n - 1) + files[n - 1].1
    }
}

/// The entries of the files from `i` on.
pub open spec fn table_bytes(files: Seq<(Seq<char>, Seq<u8>)>, i: int) -> Seq<u8>
    decreases files.len() - i,
{
    if i < 0 || i >= files.len() {
        Seq::empty()
    } else {
        entry_bytes(files[i].0, blob_bytes(files, i).len(), files[i].1.len()) + table_bytes(
            files,
            i + 1,
        )
    }
}

/// Named files in a container.
pub open spec fn package_bytes(version: Seq<char>, files: Seq<(Seq<char>, Seq<u8>)>) -> Seq<u8> {
    counted_bytes(version) + le_bytes(files.len(), 4) + table_bytes(files, 0) + blob_bytes(
        files,
        files.len() as int,
    )
}

/// Whether a container can hold the files: the names are short and differ from
/// each other, and counts and sizes fit their fields.
pub open spec fn can_hold(version: Seq<char>, files: Seq<(Seq<char>, Seq<u8>)>) -> bool {
    &&& crate::text::begins_with(version, "PKGV"@)
    &&& vstd::utf8::encode_utf8(version).len() <= MAX_NAME_LEN
    &&& files.len() <= MAX_ENTRIES
    &&& blob_bytes(files, files.len() as int).len() <= u32::MAX
    &&& forall|i: int|
        0 <= i < files.len() ==> vstd::utf8::encode_utf8((#[trigger] files[i]).0).len() <= MAX_NAME_LEN
    &&& forall|i: int, j: int|
        0 <= i < j < files.len() ==> (#[trigger] files[i]).0 != (#[trigger] files[j]).0
}

/// What is written little-endian is read back.
proof fn lemma_le_bytes(b: Seq<u8>, at: int, n: nat)
    requires
        0 <= at,
        at + 4 <= b.len(),
        b.subrange(at, at + 4) == le_bytes(n, 4),
        n <= u32::MAX,
    ensures
        crate::bytes::le(b, at, 4) == n,
{
    reveal_with_fuel(le_bytes, 5);
    reveal_with_fuel(crate::bytes::le, 5);
    let s = le_bytes(n, 4);
    assert(s.len() == 4);
    assert(b[at] == s[0] && b[at + 1] == s[1] && b[at + 2] == s[2] && b[at + 3] == s[3]) by {
        assert(b.subrange(at, at + 4)[0] == b[at]);
        assert(b.subrange(at, at + 4)[1] == b[at + 1]);
        assert(b.subrange(at, at + 4)[2] == b[at + 2]);
        assert(b.subrange(at, at + 4)[3] == b[at + 3]);
    }
    assert(s[0] == (n % 256) as u8);
    assert(s[1] == (n / 256 % 256) as u8);
    assert(s[2] == (n / 256 / 256 % 256) as u8);
    assert(s[3] == (n / 256 / 256 / 256 % 256) as u8);
}

proof fn lemma_le_bytes_len(n: nat)
    ensures
        le_bytes(n, 4).len() == 4,
{
    reveal_with_fuel(le_bytes, 5);
}

/// A string that is written with its length is read back.
proof fn lemma_counted(b: Seq<u8>, at: int, s: Seq<char>)
    requires
        0 <= at,
        at + counted_bytes(s).len() <= b.len(),
        b.subrange(at, at + counted_bytes(s).len()) == counted_bytes(s),
        vstd::utf8::encode_utf8(s).len() <= MAX_NAME_LEN,
    ensures
        counted_string_at(b, at) == Ok::<(Seq<char>, int), PkgError>(
            (s, at + counted_bytes(s).len()),
        ),
{
    let raw = vstd::utf8::encode_utf8(s);
    let all = counted_bytes(s);
    lemma_le_bytes_len(raw.len());
    assert(b.subrange(at, at + 4) =~= all.subrange(0, 4));
    assert(all.subrange(0, 4) =~= le_bytes(raw.len(), 4));
    lemma_le_bytes(b, at, raw.len());
    assert(b.subrange(at + 4, at + 4 + raw.len()) =~= all.subrange(4, all.len() as int));
    assert(all.subrange(4, all.len() as int) =~= raw);
    vstd::utf8::encode_utf8_valid_utf8(s);
    vstd::utf8::encode_utf8_decode_utf8(s);
}

/// The entries of the first `n` files.
pub open spec fn entries_of(files: Seq<(Seq<char>, Seq<u8>)>, n: int) -> Map<Seq<char>, Entry>
    decreases n,
{
    if n <= 0 {
        Map::empty()
    } else {
        entries_of(files, n - 1).insert(
            files[n - 1].0,
            Entry {
                offset: blob_bytes(files, n - 1).len() as u32,
                size: files[n - 1].1.len() as u32,
            },
        )
    }
}

proof fn lemma_blob_grows(files: Seq<(Seq<char>, Seq<u8>)>, i: int, n: int)
    requires
        0 <= i <= n <= files.len(),
    ensures
        blob_bytes(files, i).len() <= blob_bytes(files, n).len(),
        blob_bytes(files, n).take(blob_bytes(files, i).len() as int) == blob_bytes(files, i),
    decreases n - i,
{
    if i < n {
        lemma_blob_grows(files, i, n - 1);
        assert(blob_bytes(files, n).take(blob_bytes(files, i).len() as int) =~= blob_bytes(
            files,
            n - 1,
        ).take(blob_bytes(files, i).len() as int));
    } else {
        assert(blob_bytes(files, n).take(blob_bytes(files, n).len() as int) =~= blob_bytes(files, n));
    }
}

proof fn lemma_table_read(
    b: Seq<u8>,
    at: int,
    version: Seq<char>,
    files: Seq<(Seq<char>, Seq<u8>)>,
    i: int,
)
    requires
        can_hold(version, files),
        0 <= i <= files.len(),
        0 <= at,
        at + table_bytes(files, i).len() <= b.len(),
        b.subrange(at, at + table_bytes(files, i).len()) == table_bytes(files, i),
    ensures
        table_at(b, at, (files.len() - i) as nat, entries_of(files, i)) == Ok::<
            (Map<Seq<char>, Entry>, int),
            PkgError,
        >((entries_of(files, files.len() as int), at + table_bytes(files, i).len())),
    decreases files.len() - i,
{
    if i < files.len() {
        let (name, data) = files[i];
        let offset = blob_bytes(files, i).len();
        let size = data.len();
        let first = entry_bytes(name, offset, size);
        let all = table_bytes(files, i);
        let later = table_bytes(files, i + 1);
        lemma_blob_grows(files, i + 1, files.len() as int);
        lemma_blob_grows(files, i, files.len() as int);
        assert(blob_bytes(files, i + 1) == blob_bytes(files, i) + data);
        lemma_le_bytes_len(offset);
        lemma_le_bytes_len(size);
        let c = counted_bytes(name).len() as int;
        assert(b.subrange(at, at + c) =~= all.subrange(0, c));
        assert(all.subrange(0, c) =~= counted_bytes(name));
        lemma_counted(b, at, name);
        assert(b.subrange(at + c, at + c + 4) =~= all.subrange(c, c + 4));
        assert(all.subrange(c, c + 4) =~= le_bytes(offset, 4));
        lemma_le_bytes(b, at + c, offset);
        assert(b.subrange(at + c + 4, at + c + 8) =~= all.subrange(c + 4, c + 8));
        assert(all.subrange(c + 4, c + 8) =~= le_bytes(size, 4));
        lemma_le_bytes(b, at + c + 4, size);
        let next = at + c + 8;
        assert(first.len() == c + 8);
        assert(b.subrange(next, next + later.len()) =~= all.subrange(c + 8, all.len() as int));
        assert(all.subrange(c + 8, all.len() as int) =~= later);
        lemma_table_read(b, next, version, files, i + 1);
    }
}

proof fn lemma_entries_of(files: Seq<(Seq<char>, Seq<u8>)>, n: int, i: int)
    requires
        0 <= i < n <= files.len(),
        forall|x: int, y: int|
            0 <= x < y < files.len() ==> (#[trigger] files[x]).0 != (#[trigger] files[y]).0,
    ensures
        entries_of(files, n).dom().contains(files[i].0),
        entries_of(files, n)[files[i].0] == (Entry {
            offset: blob_bytes(files, i).len() as u32,
            size: files[i].1.len() as u32,
        }),
    decreases n,
{
    if i < n - 1 {
        lemma_entries_of(files, n - 1, i);
        assert(files[i].0 != files[n - 1].0);
    }
}

proof fn lemma_entries_back(files: Seq<(Seq<char>, Seq<u8>)>, n: int, name: Seq<char>)
    requires
        0 <= n <= files.len(),
        entries_of(files, n).dom().contains(name),
    ensures
        exists|i: int| 0 <= i < n && (#[trigger] files[i]).0 == name,
    decreases n,
{
    if n > 0 {
        if name != files[n - 1].0 {
            lemma_entries_back(files, n - 1, name);
            let i = choose|i: int| 0 <= i < n - 1 && (#[trigger] files[i]).0 == name;
            assert(files[i].0 == name);
        } else {
            assert(files[n - 1].0 == name);
        }
    }
}

/// What a container of named files is read as.
pub open spec fn package_of(version: Seq<char>, files: Seq<(Seq<char>, Seq<u8>)>) -> PackageModel {
    PackageModel {
        version,
        entries: entries_of(files, files.len() as int),
        data_start: (counted_bytes(version).len() + 4 + table_bytes(files, 0).len()) as int,
        bytes: package_bytes(version, files),
    }
}

/// The entries reach exactly as far as the contents.
proof fn lemma_entries_reach(files: Seq<(Seq<char>, Seq<u8>)>)
    requires
        blob_bytes(files, files.len() as int).len() <= u32::MAX,
        forall|x: int, y: int|
            0 <= x < y < files.len() ==> (#[trigger] files[x]).0 != (#[trigger] files[y]).0,
    ensures
        reach(entries_of(files, files.len() as int)) == blob_bytes(files, files.len() as int).len(),
{
    let n = files.len() as int;
    let entries = entries_of(files, n);
    let blob = blob_bytes(files, n);
    assert forall|k: Seq<char>| #[trigger] entries.dom().contains(k) implies entries[k].offset
        + entries[k].size <= blob.len() by {
        lemma_entries_back(files, n, k);
        let i = choose|i: int| 0 <= i < n && (#[trigger] files[i]).0 == k;
        lemma_entries_of(files, n, i);
        lemma_blob_grows(files, i + 1, n);
        assert(blob_bytes(files, i + 1).len() == blob_bytes(files, i).len() + files[i].1.len());
    }
    if blob.len() > 0 {
        let last = n - 1;
        lemma_entries_of(files, n, last);
        assert(blob.len() == blob_bytes(files, last).len() + files[last].1.len());
        assert(entries.dom().contains(files[last].0));
    }
    lemma_reach(entries, blob.len() as int);
}

proof fn lemma_package_read(version: Seq<char>, files: Seq<(Seq<char>, Seq<u8>)>)
    requires
        can_hold(version, files),
    ensures
        package_read(package_bytes(version, files)) == Ok::<PackageModel, PkgError>(
            package_of(version, files),
        ),
{
    let b = package_bytes(version, files);
    let head = counted_bytes(version);
    let table = table_bytes(files, 0);
    let c = head.len() as int;
    lemma_le_bytes_len(files.len());
    assert(b.subrange(0, c) =~= head);
    lemma_counted(b, 0, version);
    assert(b.subrange(c, c + 4) =~= le_bytes(files.len(), 4));
    lemma_le_bytes(b, c, files.len());
    assert(b.subrange(c + 4, c + 4 + table.len()) =~= table);
    lemma_table_read(b, c + 4, version, files, 0);
    lemma_entries_reach(files);
}

proof fn lemma_file_contents(version: Seq<char>, files: Seq<(Seq<char>, Seq<u8>)>, i: int)
    requires
        can_hold(version, files),
        0 <= i < files.len(),
    ensures
        package_of(version, files).contents(files[i].0) == Some(files[i].1),
{
    let n = files.len() as int;
    let m = package_of(version, files);
    let blob = blob_bytes(files, n);
    let start = m.data_start;
    lemma_entries_of(files, n, i);
    lemma_blob_grows(files, i + 1, n);
    lemma_blob_grows(files, i, n);
    let offset = blob_bytes(files, i).len() as int;
    let size = files[i].1.len() as int;
    assert(blob_bytes(files, i + 1) == blob_bytes(files, i) + files[i].1);
    lemma_le_bytes_len(files.len());
    assert(m.bytes.len() == start + blob.len());
    assert forall|x: int| 0 <= x < size implies #[trigger] m.bytes.subrange(
        start + offset,
        start + offset + size,
    )[x] == files[i].1[x] by {
        assert(m.bytes[start + offset + x] == blob[offset + x]);
        assert(blob.take(offset + size)[offset + x] == blob[offset + x]);
        assert(blob_bytes(files, i + 1)[offset + x] == files[i].1[x]);
    }
    assert(m.bytes.subrange(start + offset, start + offset + size) =~= files[i].1);
}

/// Named files that are put in a container are read back: every one of them, with
/// its contents, and nothing else.
pub proof fn law_files_are_read_back(
    version: Seq<char>,
    files: Seq<(Seq<char>, Seq<u8>)>,
    name: Seq<char>,
)
    requires
        can_hold(version, files),
    ensures
        package_read(package_bytes(version, files)) matches Ok(m) && m.version == version && (
        forall|i: int|
            0 <= i < files.len() ==> m.contents((#[trigger] files[i]).0) == Some(files[i].1)) && ((
        forall|i: int| 0 <= i < files.len() ==> (#[trigger] files[i]).0 != name) ==> m.contents(
            name,
        ) is None),
{
    let n = files.len() as int;
    lemma_package_read(version, files);
    let m = package_of(version, files);
    assert forall|i: int| 0 <= i < files.len() implies m.contents((#[trigger] files[i]).0) == Some(
        files[i].1,
    ) by {
        lemma_file_contents(version, files, i);
    }
    if m.entries.dom().contains(name) {
        lemma_entries_back(files, n, name);
    }
}

/// A byte-order mark before a text is no part of it, and nothing else is taken away.
pub proof fn law_a_byte_order_mark_is_dropped(raw: Seq<u8>)
    ensures
        without_bom(seq![0xefu8, 0xbbu8, 0xbfu8] + raw) == raw,
        raw.len() < 3 || raw[0] != 0xef || raw[1] != 0xbb || raw[2] != 0xbf ==> without_bom(raw)
            == raw,
{
    assert((seq![0xefu8, 0xbbu8, 0xbfu8] + raw).skip(3) =~= raw);
}

} // verus!
