//! The wire protocol between `hyprwpe` clients and the daemon.
//!
//! One JSON object per line over a unix socket, request then response, then the
//! connection closes. Newline-delimited JSON costs nothing at this message
//! volume and keeps the protocol debuggable with `socat` alone — worth more than
//! the bytes a binary encoding would save.
use vstd::prelude::*;
use crate::numbers::parse_natural;
use crate::paths::join_path;
use crate::text::{chars_of, lines, push_text, string_of, strip_prefix, trim, words};

verus! {

/// The control socket.
pub open spec fn socket_of(runtime_dir: Option<Seq<char>>) -> Seq<char> {
    crate::paths::joined_path(
        match runtime_dir {
            Some(dir) => dir,
            None => "/tmp"@,
        },
        "hyprwpe.sock"@,
    )
}

/// Socket path, honouring `XDG_RUNTIME_DIR` and falling back to `/tmp` so a
/// login without one still works.
pub fn socket_path(runtime_dir: &Option<String>) -> (r: String)
    ensures
        r@ == socket_of(crate::text::opt_text(*runtime_dir)),
{
    match runtime_dir {
        Some(dir) => join_path(dir.as_str(), "hyprwpe.sock"),
        None => join_path("/tmp", "hyprwpe.sock"),
    }
}

/// Which outputs a command applies to.
#[derive(Debug, Clone, PartialEq, Eq)]
pub enum Target {
    /// Every output, now and any connected later.
    All,
    /// One output by name, e.g. `DP-2`.
    Output(String),
}

/// The one output that is meant; none where all are.
impl View for Target {
    type V = Option<Seq<char>>;

    open spec fn view(&self) -> Option<Seq<char>> {
        match self {
            Target::All => None,
            Target::Output(name) => Some(name@),
        }
    }
}

/// How a target is written.
pub open spec fn target_name(t: Option<Seq<char>>) -> Seq<char> {
    match t {
        None => "all"@,
        Some(name) => name,
    }
}

impl Target {
    /// The target as it is shown to a user.
    pub fn label(&self) -> (r: &str)
        ensures
            r@ == target_name(self@),
    {
        match self {
            Target::All => "all",
            Target::Output(name) => name.as_str(),
        }
    }
}

/// What a client asks for.
#[derive(Debug, Clone, PartialEq, Eq)]
pub enum Request {
    /// Show a wallpaper; `set` on the wire. `scaling` is the name of a scaling mode.
    Show { path: String, target: Target, scaling: String },
    /// Per-output state and resource use.
    Status,
    /// Suspend all renderers. Frame callbacks stop, video decoders stop,
    /// and CPU drops to zero. The surfaces stay mapped so the compositor
    /// shows the last frame rather than nothing.
    Pause,
    /// Resume suspended renderers.
    Resume,
    /// Ask the daemon to exit. Used by `hyprwpe stop`, and to check liveness
    /// without side effects when paired with `Ping`.
    Stop,
    /// Liveness check. A stale socket file fails to connect; a live daemon
    /// answers.
    Ping,
}

/// What the daemon answers.
#[derive(Debug, Clone, PartialEq, Eq)]
pub enum Response {
    /// The request was carried out; `ok` on the wire.
    Done,
    Status(Status),
    /// The request was understood but could not be carried out.
    Error { message: String },
}

/// Per-output state and resource use.
#[derive(Debug, Clone, PartialEq, Eq)]
pub struct Status {
    pub outputs: Vec<OutputStatus>,
    /// Whether all renderers are paused (either by `hyprwpe pause` or by
    /// automatic occlusion detection).
    pub paused: bool,
    /// Resident set size in kilobytes, as the daemon sees itself. Efficiency
    /// claims should be checkable without an external profiler.
    pub rss_kb: Option<u64>,
}

impl Default for Status {
    fn default() -> (r: Self)
        ensures
            r.outputs@ == Seq::<OutputStatus>::empty(),
            !r.paused,
            r.rss_kb is None,
    {
        Status { outputs: Vec::new(), paused: false, rss_kb: None }
    }
}

/// The state of one output.
#[derive(Debug, Clone, PartialEq, Eq)]
pub struct OutputStatus {
    pub name: String,
    /// Logical size reported by the compositor.
    pub width: u32,
    pub height: u32,
    pub scale: i32,
    pub wallpaper: Option<String>,
    pub scaling: Option<String>,
}

/// What stands behind `p` in the first of the lines, from `i` on, that begins with it.
pub open spec fn behind_prefix(lines: Seq<Seq<char>>, p: Seq<char>, i: int) -> Option<Seq<char>>
    decreases lines.len() - i,
{
    if i < 0 || i >= lines.len() {
        None
    } else {
        match crate::text::without_prefix(lines[i], p) {
            Some(rest) => Some(rest),
            None => behind_prefix(lines, p, i + 1),
        }
    }
}

/// The resident set size that a process status states, in kilobytes.
pub open spec fn rss_stated(status: Seq<char>) -> Option<nat> {
    match behind_prefix(crate::text::lines_of(status), "VmRSS:"@, 0) {
        None => None,
        Some(rest) => {
            let found = crate::text::words_of(rest);
            if found.len() == 0 {
                None
            } else {
                crate::numbers::natural_read(found[0], u64::MAX as nat)
            }
        },
    }
}

/// Read the resident set size in the text of `/proc/self/status`. Best-effort: a
/// text without it, or with an unparsable one, yields `None` rather than an error.
pub fn self_rss_kb(status: &str) -> (r: Option<u64>)
    ensures
        match r {
            Some(n) => rss_stated(status@) == Some(n as nat),
            None => rss_stated(status@) is None,
        },
{
    let all = chars_of(status);
    let found = lines(all.as_slice());
    let ghost model = crate::text::lines_of(status@);
    let mut i: usize = 0;
    proof {
        assert(crate::text::spelled(found@).len() == found@.len());
    }
    while i < found.len()
        invariant
            i <= found@.len(),
            model == crate::text::lines_of(status@),
            model == crate::text::spelled(found@),
            behind_prefix(model, "VmRSS:"@, 0) == behind_prefix(model, "VmRSS:"@, i as int),
        decreases found@.len() - i,
    {
        proof {
            assert(model[i as int] == found@[i as int]@);
        }
        if let Some(rest) = strip_prefix(found[i].as_slice(), "VmRSS:") {
            let parts = words(rest);
            let ghost read = crate::text::words_of(rest@);
            proof {
                assert(crate::text::spelled(parts@).len() == parts@.len());
            }
            if parts.len() == 0 {
                return None;
            }
            proof {
                assert(read[0] == parts@[0]@);
            }
            return parse_natural(parts[0].as_slice(), u64::MAX);
        }
        i += 1;
    }
    None
}

/// A message on its line.
pub fn frame(body: &str) -> (r: String)
    ensures
        r@ == body@.push('\n'),
{
    let mut out = String::new();
    push_text(&mut out, body);
    out.push('\n');
    proof {
        assert(out@ =~= body@.push('\n'));
    }
    out
}

/// The message on a line.
pub fn unframe(line: &str) -> (r: String)
    ensures
        r@ == crate::text::trimmed(line@),
{
    let all = chars_of(line);
    string_of(trim(all.as_slice()))
}

/// A message without a newline takes one line, and is read back from it; the white
/// space around a message is not part of it.
pub proof fn law_a_message_is_read_back(body: Seq<char>)
    requires
        !body.contains('\n'),
    ensures
        crate::text::find_from(body.push('\n'), seq!['\n'], 0) == Some(body.len() as int),
        crate::text::trimmed(body.push('\n')) == crate::text::trimmed(body),
{
    lemma_first_feed(body, 0);
    lemma_trimmed_feed(body);
}

proof fn lemma_first_feed(body: Seq<char>, i: int)
    requires
        !body.contains('\n'),
        0 <= i <= body.len(),
    ensures
        crate::text::find_from(body.push('\n'), seq!['\n'], i) == Some(body.len() as int),
    decreases body.len() - i,
{
    let line = body.push('\n');
    let feed = seq!['\n'];
    if i < body.len() {
        assert(line.subrange(i, i + 1)[0] == body[i]);
        assert(body.contains(body[i]));
        assert(!crate::text::occurs_at(line, feed, i));
        lemma_first_feed(body, i + 1);
    } else {
        assert(line.subrange(i, i + 1) =~= feed);
        assert(crate::text::occurs_at(line, feed, i));
    }
}

proof fn lemma_run_feed(body: Seq<char>, i: int)
    requires
        0 <= i <= body.len(),
    ensures
        ({
            let end = crate::text::run_end(body, i, crate::text::Class::Space);
            crate::text::run_end(body.push('\n'), i, crate::text::Class::Space) == if end
                < body.len() {
                end
            } else {
                body.len() as int + 1
            }
        }),
    decreases body.len() - i,
{
    let line = body.push('\n');
    if i < body.len() {
        assert(line[i] == body[i]);
        if crate::text::of_class(body[i], crate::text::Class::Space) {
            lemma_run_feed(body, i + 1);
        }
    } else {
        assert(line[i] == '\n');
        reveal_with_fuel(crate::text::run_end, 3);
    }
}

proof fn lemma_trimmed_feed(body: Seq<char>)
    ensures
        crate::text::trimmed(body.push('\n')) == crate::text::trimmed(body),
{
    let line = body.push('\n');
    let end = crate::text::run_end(body, 0, crate::text::Class::Space);
    crate::text::lemma_run_end(body, 0, crate::text::Class::Space);
    lemma_run_feed(body, 0);
    if end < body.len() {
        assert(line.skip(end) =~= body.skip(end).push('\n'));
        assert(line.skip(end).drop_last() =~= body.skip(end));
        assert(line.skip(end).last() == '\n');
    } else {
        assert(line.skip(line.len() as int) =~= Seq::<char>::empty());
        assert(body.skip(end) =~= Seq::<char>::empty());
    }
}

/// The control socket lies in the user's runtime directory, and among the temporary files
/// where there is none.
pub proof fn law_the_socket_has_its_place(dir: Seq<char>)
    requires
        dir.len() > 0 && dir.last() != '/',
    ensures
        socket_of(Some(dir)) == dir + "/hyprwpe.sock"@,
        socket_of(None) == "/tmp/hyprwpe.sock"@,
{
    reveal_strlit("hyprwpe.sock");
    reveal_strlit("/hyprwpe.sock");
    reveal_strlit("/tmp");
    reveal_strlit("/tmp/hyprwpe.sock");
    assert(socket_of(Some(dir)) =~= dir + "/hyprwpe.sock"@);
    assert(socket_of(None) =~= "/tmp/hyprwpe.sock"@);
}

/// The resident set size is read back from the line that states it, whatever stands
/// behind; lines that state something else do not matter.
pub proof fn law_the_resident_size_is_read_back(
    n: nat,
    space: Seq<char>,
    behind: Seq<char>,
    line: Seq<char>,
    rest: Seq<char>,
)
    requires
        n <= u64::MAX,
        forall|i: int|
            0 <= i < space.len() ==> crate::text::white_space(#[trigger] space[i]) && space[i]
                != '\n',
        behind.len() > 0 ==> crate::text::white_space(behind[0]),
        crate::effect::lacks(behind, '\n'),
        behind.len() > 0 ==> behind.last() != '\r',
        crate::effect::lacks(line, '\n'),
        line.len() > 0 ==> line.last() != '\r',
        !crate::text::begins_with(line, "VmRSS:"@),
    ensures
        rss_stated(
            ("VmRSS:"@ + space + crate::numbers::decimal_text(n) + behind).push('\n') + rest,
        ) == Some(n),
        rss_stated(line.push('\n') + rest) == rss_stated(rest),
        rss_stated(Seq::empty()) is None,
{
    let digits = crate::numbers::decimal_text(n);
    let text = "VmRSS:"@ + space + digits + behind;
    let tail = space + digits + behind;
    reveal_strlit("VmRSS:");
    crate::numbers::law_decimal_is_read_back(n, u64::MAX as nat);
    crate::numbers::lemma_decimal(n);
    assert forall|i: int| 0 <= i < text.len() implies #[trigger] text[i] != '\n' by {
        if i < 6 {
            assert(text[i] == "VmRSS:"@[i]);
        } else if i < 6 + space.len() {
            assert(text[i] == space[i - 6]);
        } else if i < 6 + space.len() + digits.len() {
            assert(text[i] == digits[i - 6 - space.len()]);
        } else {
            assert(text[i] == behind[i - 6 - space.len() - digits.len()]);
        }
    }
    assert(text.last() == (if behind.len() > 0 {
        behind.last()
    } else {
        digits.last()
    }));
    assert(crate::text::ascii_digit(digits[digits.len() - 1]));
    crate::text::law_lines_end_at_their_feeds(text, rest);
    crate::text::law_lines_end_at_their_feeds(line, rest);
    let all = crate::text::lines_of(rest);
    assert((seq![text] + all)[0] == text);
    assert((seq![line] + all)[0] == line);
    assert(text.take(6) =~= "VmRSS:"@);
    assert(text.skip(6) =~= tail);
    assert forall|i: int| 0 <= i < digits.len() implies crate::text::of_class(
        #[trigger] digits[i],
        crate::text::Class::Ink,
    ) by {
        assert(crate::text::ascii_digit(digits[i]));
    }
    assert(crate::text::of_class(digits[0], crate::text::Class::Ink));
    crate::text::law_pieces_follow_each_other(
        space,
        digits,
        behind,
        crate::text::Class::Space,
        crate::text::Class::Ink,
    );
    assert(crate::text::words_of(tail)[0] == digits);
    lemma_next_line(line, all, "VmRSS:"@, 0);
}

proof fn lemma_next_line(line: Seq<char>, lines: Seq<Seq<char>>, p: Seq<char>, i: int)
    requires
        0 <= i <= lines.len(),
    ensures
        behind_prefix(seq![line] + lines, p, i + 1) == behind_prefix(lines, p, i),
    decreases lines.len() - i,
{
    if i < lines.len() {
        assert((seq![line] + lines)[i + 1] == lines[i]);
        lemma_next_line(line, lines, p, i + 1);
    }
}

} // verus!
