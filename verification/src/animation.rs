//! Keyframe animation for scene object properties.
//!
//! A Wallpaper Engine scene object property can be a plain number (`"alpha": 1`)
//! or an animated one:
//!
//! ```json
//! "alpha": {
//!   "value": 1.0,
//!   "animation": {
//!     "c0": [ { "frame": 0, "value": 0.0 }, { "frame": 18, "value": 1.0 } ],
//!     "options": { "fps": 30, "length": 18, "mode": "single", "startpaused": true }
//!   }
//! }
//! ```
//!
//! `c0`, `c1`, `c2` are one track per component (a scalar uses only `c0`; a
//! vector uses three), each a list of keyframes with integer frame numbers.
//! `options.mode` is `single` (play once, hold the last value), `loop` (wrap) or
//! `mirror` (ping-pong). Timing is `frame / fps`; a track is sampled with linear
//! interpolation between the surrounding keyframes.
//!
//! Here stands which keyframes a sample lies between, and how long an animation is.
//! Values and rates are held as the bits of single-precision values; the arithmetic on
//! them is left to the caller.
use vstd::prelude::*;

verus! {

/// How a track repeats once it passes its last keyframe.
#[derive(Debug, Clone, Copy, PartialEq, Eq, Structural)]
pub enum AnimMode {
    /// Play once and hold the final value.
    Single,
    /// Restart from the beginning.
    Loop,
    /// Play forward then backward.
    Mirror,
}

impl Default for AnimMode {
    fn default() -> (r: Self)
        ensures
            r == AnimMode::Single,
    {
        AnimMode::Single
    }
}

/// A value at a frame.
#[derive(Debug, Clone, Copy, PartialEq, Eq)]
pub struct Keyframe {
    pub frame: u32,
    pub value: u32,
}

/// One component's keyframes.
#[derive(Debug, Clone, PartialEq, Eq)]
pub struct Track {
    pub keys: Vec<Keyframe>,
}

/// Where a sample of a track lies.
#[derive(Debug, Clone, Copy, PartialEq, Eq, Structural)]
pub enum Place {
    /// There are no keyframes.
    Nowhere,
    /// At a keyframe, whose value holds.
    At(usize),
    /// Behind one keyframe, and before or at the next.
    Between(usize, usize),
}

/// The first keyframe from `i` on that the sample is not behind. `ranks` orders the
/// keyframes by their frames, `at` is the place of the sample among them; a sample
/// that has none is behind every keyframe.
pub open spec fn reached(ranks: Seq<u32>, at: Option<u32>, i: int) -> int
    decreases ranks.len() - i,
{
    if i < 0 || i >= ranks.len() {
        i
    } else if at matches Some(r) && r <= ranks[i] {
        i
    } else {
        reached(ranks, at, i + 1)
    }
}

/// Where a sample lies: before the first keyframe its value holds, and behind the last
/// the value of that one.
pub open spec fn place_of(ranks: Seq<u32>, at: Option<u32>) -> Place {
    let i = reached(ranks, at, 0);
    if ranks.len() == 0 {
        Place::Nowhere
    } else if i == 0 {
        Place::At(0)
    } else if i < ranks.len() {
        Place::Between((i - 1) as usize, i as usize)
    } else {
        Place::At((ranks.len() - 1) as usize)
    }
}

/// Whether `ranks` orders the keyframes by their frames: a frame that is no later does
/// not rank higher.
pub open spec fn ranks_frames(ranks: Seq<u32>, keys: Seq<Keyframe>) -> bool {
    &&& ranks.len() == keys.len()
    &&& forall|i: int, j: int|
        0 <= i < keys.len() && 0 <= j < keys.len() && (#[trigger] keys[i]).frame <= (
        #[trigger] keys[j]).frame ==> ranks[i] <= ranks[j]
}

proof fn lemma_reached(ranks: Seq<u32>, at: Option<u32>, i: int)
    requires
        0 <= i <= ranks.len(),
    ensures
        i <= reached(ranks, at, i) <= ranks.len(),
        reached(ranks, at, i) < ranks.len() ==> (at matches Some(r) && r <= ranks[reached(
            ranks,
            at,
            i,
        )]),
        forall|j: int| i <= j < reached(ranks, at, i) ==> !(at matches Some(r) && r <= #[trigger] ranks[j]),
    decreases ranks.len() - i,
{
    if i < ranks.len() && !(at matches Some(r) && r <= ranks[i]) {
        lemma_reached(ranks, at, i + 1);
    }
}

impl Track {
    /// Where a sample lies.
    ///
    /// Before the first key it holds the first value and after the last it
    /// holds the last, which is what the `single` mode's "hold" needs; the other
    /// modes remap the frame before it reaches here. Of two keyframes that a sample
    /// lies between, the second is the later one, so the span between them is not
    /// empty.
    pub fn locate(&self, ranks: &Vec<u32>, at: Option<u32>) -> (r: Place)
        requires
            ranks_frames(ranks@, self.keys@),
        ensures
            r == place_of(ranks@, at),
            match r {
                Place::Nowhere => self.keys@.len() == 0,
                Place::At(i) => i < self.keys@.len(),
                Place::Between(i, j) => j == i + 1 && j < self.keys@.len()
                    && self.keys@[i as int].frame < self.keys@[j as int].frame,
            },
    {
        let n = ranks.len();
        if n == 0 {
            return Place::Nowhere;
        }
        let mut i: usize = 0;
        while i < n
            invariant_except_break
                i <= n,
            invariant
                n == ranks@.len(),
                reached(ranks@, at, 0) == reached(ranks@, at, i as int),
            ensures
                i <= n,
                i == reached(ranks@, at, 0),
            decreases n - i,
        {
            let here = match at {
                Some(r) => r <= ranks[i],
                None => false,
            };
            if here {
                break;
            }
            i += 1;
        }
        proof {
            lemma_reached(ranks@, at, 0);
        }
        if i == 0 {
            Place::At(0)
        } else if i < n {
            proof {
                let a = i - 1;
                assert(!(at matches Some(r) && r <= ranks@[a]));
                assert(ranks@[a] < ranks@[i as int]);
                assert(self.keys@[a].frame < self.keys@[i as int].frame) by {
                    if self.keys@[i as int].frame <= self.keys@[a].frame {
                        assert(ranks@[i as int] <= ranks@[a]);
                    }
                }
            }
            Place::Between(i - 1, i)
        } else {
            Place::At(n - 1)
        }
    }
}

/// How an animation plays. The rate is held as the bits of a single-precision value.
#[derive(Debug, Clone, Copy, PartialEq, Eq)]
pub struct AnimOptions {
    pub fps: u32,
    /// Total length in frames; 0 means "use the last keyframe".
    pub length: u32,
    pub mode: AnimMode,
    pub startpaused: bool,
    pub wraploop: Option<bool>,
}

/// The bits of the rate of thirty frames a second.
pub const DEFAULT_FPS: u32 = 0x41F0_0000;

impl Default for AnimOptions {
    fn default() -> (r: Self)
        ensures
            r == (AnimOptions {
                fps: DEFAULT_FPS,
                length: 0,
                mode: AnimMode::Single,
                startpaused: false,
                wraploop: None,
            }),
    {
        AnimOptions {
            fps: DEFAULT_FPS,
            length: 0,
            mode: AnimMode::Single,
            startpaused: false,
            wraploop: None,
        }
    }
}

/// A property's keyframe animation, one track per component.
#[derive(Debug, Clone, PartialEq, Eq)]
pub struct Animation {
    pub c0: Option<Track>,
    pub c1: Option<Track>,
    pub c2: Option<Track>,
    pub options: AnimOptions,
}

/// The furthest frame of the first `n` keyframes; the start where there is none.
pub open spec fn furthest(keys: Seq<Keyframe>, n: int) -> u32
    decreases n,
{
    if n <= 0 {
        0
    } else {
        later(furthest(keys, n - 1), keys[n - 1].frame)
    }
}

/// The frame of a track's furthest keyframe; the start where there is none.
pub open spec fn furthest_in(t: Option<Track>) -> u32 {
    match t {
        Some(t) => furthest(t.keys@, t.keys@.len() as int),
        None => 0,
    }
}

/// The later of two frames.
pub open spec fn later(a: u32, b: u32) -> u32 {
    if a < b {
        b
    } else {
        a
    }
}

fn furthest_of(t: &Option<Track>) -> (r: u32)
    ensures
        r == furthest_in(*t),
{
    match t {
        Some(t) => {
            let mut max: u32 = 0;
            let mut i: usize = 0;
            while i < t.keys.len()
                invariant
                    i <= t.keys@.len(),
                    max == furthest(t.keys@, i as int),
                decreases t.keys@.len() - i,
            {
                if max < t.keys[i].frame {
                    max = t.keys[i].frame;
                }
                i += 1;
            }
            max
        },
        None => 0,
    }
}

impl Animation {
    /// Effective length in frames: the declared `options.length`, else the
    /// furthest key across every track.
    pub open spec fn frames(self) -> u32 {
        if self.options.length > 0 {
            self.options.length
        } else {
            later(later(furthest_in(self.c0), furthest_in(self.c1)), furthest_in(self.c2))
        }
    }

    /// Effective length in frames: the declared `options.length`, else the
    /// furthest key across every track.
    pub fn length(&self) -> (r: u32)
        ensures
            r == self.frames(),
    {
        if self.options.length > 0 {
            return self.options.length;
        }
        let mut max = furthest_of(&self.c0);
        let b = furthest_of(&self.c1);
        if max < b {
            max = b;
        }
        let c = furthest_of(&self.c2);
        if max < c {
            max = c;
        }
        max
    }

    /// Which track gives a component: its own, or else that of the first. Nothing is
    /// sampled where the first is missing.
    pub fn track_for(&self, component: usize) -> (r: Option<&Track>)
        requires
            component < 3,
        ensures
            match (self.c0, r) {
                (None, r) => r is None,
                (Some(first), Some(t)) => *t == (match (component, self.c1, self.c2) {
                    (1, Some(own), _) => own,
                    (2, _, Some(own)) => own,
                    _ => first,
                }),
                (Some(_), None) => false,
            },
    {
        match &self.c0 {
            None => None,
            Some(first) => {
                if component == 1 {
                    if let Some(own) = &self.c1 {
                        return Some(own);
                    }
                }
                if component == 2 {
                    if let Some(own) = &self.c2 {
                        return Some(own);
                    }
                }
                Some(first)
            },
        }
    }
}

/// Without a declared length no key of any track lies behind the end, and where there
/// is a key the end is at one.
pub proof fn law_no_key_lies_behind_the_end(keys: Seq<Keyframe>)
    ensures
        forall|i: int|
            0 <= i < keys.len() ==> (#[trigger] keys[i]).frame <= furthest(
                keys,
                keys.len() as int,
            ),
        keys.len() > 0 ==> exists|i: int|
            0 <= i < keys.len() && (#[trigger] keys[i]).frame == furthest(keys, keys.len() as int),
{
    lemma_furthest(keys, keys.len() as int);
}

proof fn lemma_furthest(keys: Seq<Keyframe>, n: int)
    requires
        0 <= n <= keys.len(),
    ensures
        forall|i: int| 0 <= i < n ==> (#[trigger] keys[i]).frame <= furthest(keys, n),
        n > 0 ==> exists|i: int| 0 <= i < n && (#[trigger] keys[i]).frame == furthest(keys, n),
    decreases n,
{
    if n > 0 {
        lemma_furthest(keys, n - 1);
        if furthest(keys, n) == keys[n - 1].frame {
        } else {
            let i = choose|i: int|
                0 <= i < n - 1 && (#[trigger] keys[i]).frame == furthest(keys, n - 1);
            assert(keys[i].frame == furthest(keys, n));
        }
    }
}

/// A sample that is behind the last keyframe holds its value, wherever it is.
pub proof fn law_the_last_value_holds(ranks: Seq<u32>, at: Option<u32>)
    requires
        ranks.len() > 0,
        ranks.len() <= usize::MAX,
        forall|i: int| 0 <= i < ranks.len() ==> !(at matches Some(r) && r <= #[trigger] ranks[i]),
    ensures
        place_of(ranks, at) == Place::At((ranks.len() - 1) as usize),
{
    lemma_reached(ranks, at, 0);
    let i = reached(ranks, at, 0);
    if i < ranks.len() {
        assert(at matches Some(r) && r <= ranks[i]);
    }
}

/// A single keyframe is constant.
pub proof fn law_a_single_key_is_constant(ranks: Seq<u32>, at: Option<u32>)
    requires
        ranks.len() == 1,
    ensures
        place_of(ranks, at) == Place::At(0),
{
    lemma_reached(ranks, at, 0);
}

/// A sample lies between the two keyframes around it: behind the one and not behind the
/// other, which follows it. Before the first it is at the first.
pub proof fn law_samples_lie_between_their_keys(ranks: Seq<u32>, r: u32, i: int)
    requires
        ranks.len() <= usize::MAX,
        0 <= i < ranks.len(),
        r <= ranks[i],
        forall|j: int| 0 <= j < i ==> #[trigger] ranks[j] < r,
    ensures
        i == 0 ==> place_of(ranks, Some(r)) == Place::At(0),
        i > 0 ==> place_of(ranks, Some(r)) == Place::Between((i - 1) as usize, i as usize),
        place_of(Seq::empty(), Some(r)) == Place::Nowhere,
{
    lemma_reached_is(ranks, r, 0, i);
}

proof fn lemma_reached_is(ranks: Seq<u32>, r: u32, from: int, i: int)
    requires
        0 <= from <= i < ranks.len(),
        r <= ranks[i],
        forall|j: int| 0 <= j < i ==> #[trigger] ranks[j] < r,
    ensures
        reached(ranks, Some(r), from) == i,
    decreases i - from,
{
    if from < i {
        assert(ranks[from] < r);
        lemma_reached_is(ranks, r, from + 1, i);
    }
}

/// An animation is as long as it declares, or else as long as its longest track: no key
/// of any of its tracks lies behind the end, and the end is at a key or at the start.
pub proof fn law_an_animation_ends_with_its_last_key(a: Animation, n: u32, i: int)
    ensures
        a.options.length > 0 ==> a.frames() == a.options.length,
        a.options.length == 0 ==> {
            &&& a.c0 matches Some(t) ==> (0 <= i < t.keys@.len() ==> t.keys@[i].frame <= a.frames())
            &&& a.c1 matches Some(t) ==> (0 <= i < t.keys@.len() ==> t.keys@[i].frame <= a.frames())
            &&& a.c2 matches Some(t) ==> (0 <= i < t.keys@.len() ==> t.keys@[i].frame <= a.frames())
            &&& (a.c0 matches Some(t) ==> forall|j: int|
                0 <= j < t.keys@.len() ==> (#[trigger] t.keys@[j]).frame <= n) && (a.c1 matches Some(
                t,
            ) ==> forall|j: int| 0 <= j < t.keys@.len() ==> (#[trigger] t.keys@[j]).frame <= n) && (
            a.c2 matches Some(t) ==> forall|j: int|
                0 <= j < t.keys@.len() ==> (#[trigger] t.keys@[j]).frame <= n) ==> a.frames() <= n
        },
{
    if let Some(t) = a.c0 {
        lemma_furthest(t.keys@, t.keys@.len() as int);
    }
    if let Some(t) = a.c1 {
        lemma_furthest(t.keys@, t.keys@.len() as int);
    }
    if let Some(t) = a.c2 {
        lemma_furthest(t.keys@, t.keys@.len() as int);
    }
}

/// A component is sampled from its own track, or from the first where it has none, and
/// the length is that of the whole animation.
pub proof fn law_components_have_their_tracks(
    a: &Animation,
    first: Track,
    r: Option<&Track>,
    s: Option<&Track>,
    t: Option<&Track>,
    n: u32,
)
    requires
        a.c0 == Some(first),
        call_ensures(Animation::track_for, (a, 0), r),
        call_ensures(Animation::track_for, (a, 1), s),
        call_ensures(Animation::track_for, (a, 2), t),
        call_ensures(Animation::length, (a,), n),
    ensures
        r == Some(&first),
        a.c1 matches Some(own) ==> s == Some(&own),
        a.c1 is None ==> s == Some(&first),
        a.c2 matches Some(own) ==> t == Some(&own),
        a.c2 is None ==> t == Some(&first),
        n == a.frames(),
{
}

} // verus!
