//! Schema and scene graph of Wallpaper Engine's `scene.json`.
//!
//! A `scene.json` file describes the scene graph: a camera, global environment
//! properties (`general`), and a list of `objects` (images, particles, text,
//! sounds, lights). Objects can form a hierarchy via `parent` IDs and share
//! common transform properties (origin, scale, angles, size, color, alpha).
//!
//! Values are written in many ways: a vector as an array or as a text, any of them as
//! an object with a `value`. The functions here say what such a writing means, down to
//! the texts and the numbers that single-precision values are made of. Those values
//! themselves are held by their bits.
use vstd::prelude::*;
use crate::json::{Json, JsonNumber, JsonTree, NumberModel};
use crate::properties::number_texts;
use crate::text::{chars_of, is_text, lowered, pieces, same_text, string_of, Class};

verus! {

/// What one component of a vector is made of.
#[derive(Debug, PartialEq, Eq)]
pub enum Component {
    /// Nothing is written: zero.
    Zero,
    Number(JsonNumber),
    /// A text that reads as a number.
    Text(String),
}

/// What a component stands for.
pub ghost enum ComponentModel {
    Zero,
    Number(NumberModel),
    Text(Seq<char>),
}

impl View for Component {
    type V = ComponentModel;

    open spec fn view(&self) -> ComponentModel {
        match self {
            Component::Zero => ComponentModel::Zero,
            Component::Number(n) => ComponentModel::Number(n@),
            Component::Text(s) => ComponentModel::Text(s@),
        }
    }
}

/// What the components of a list stand for.
pub open spec fn component_views(v: Seq<Component>) -> Seq<ComponentModel> {
    Seq::new(v.len(), |i: int| v[i]@)
}

impl Component {
    /// A copy of the component.
    pub fn copy(&self) -> (r: Self)
        ensures
            r@ == self@,
    {
        match self {
            Component::Zero => Component::Zero,
            Component::Number(n) => Component::Number(n.copy()),
            Component::Text(s) => Component::Text(s.clone()),
        }
    }
}

/// The texts in `s` that read as numbers; white space and commas part them.
pub open spec fn numbers_in_text(s: Seq<char>) -> Seq<Seq<char>> {
    let list = crate::text::pieces_of(s, Class::Gap, Class::Item);
    crate::properties::numbers_among(list, list.len() as int)
}

/// The vector of `n` components that a text writes: what is missing is zero.
pub open spec fn vector_in_text(s: Seq<char>, n: nat) -> Seq<ComponentModel> {
    let found = numbers_in_text(s);
    Seq::new(
        n,
        |i: int|
            if i < found.len() {
                ComponentModel::Text(found[i])
            } else {
                ComponentModel::Zero
            },
    )
}

/// The component that a document is: zero where it is no number.
pub open spec fn component_in(t: JsonTree) -> ComponentModel {
    match t {
        JsonTree::Number(n) => ComponentModel::Number(n),
        _ => ComponentModel::Zero,
    }
}

/// The vector of `n` components that a list holds: what is missing is zero.
pub open spec fn vector_in_list(list: Seq<JsonTree>, n: nat) -> Seq<ComponentModel> {
    Seq::new(
        n,
        |i: int|
            if i < list.len() {
                component_in(list[i])
            } else {
                ComponentModel::Zero
            },
    )
}

/// The vector of `n` components that a text writes: white space and commas part them,
/// what does not read as a number is passed over, and what is missing is zero.
pub fn vector_from_text(s: &str, n: usize) -> (r: Vec<Component>)
    ensures
        component_views(r@) == vector_in_text(s@, n as nat),
{
    let all = chars_of(s);
    let list = pieces(all.as_slice(), Class::Gap, Class::Item);
    let found = number_texts(&list);
    let ghost model = numbers_in_text(s@);
    proof {
        assert(crate::text::spelled(list@).len() == list@.len());
        assert(crate::text::spelled(found@).len() == found@.len());
    }
    let mut out: Vec<Component> = Vec::new();
    let mut i: usize = 0;
    while i < n
        invariant
            i <= n,
            out@.len() == i,
            model == crate::text::spelled(found@),
            model == numbers_in_text(s@),
            forall|j: int| 0 <= j < i ==> (#[trigger] out@[j])@ == vector_in_text(s@, n as nat)[j],
        decreases n - i,
    {
        if i < found.len() {
            proof {
                assert(model[i as int] == found@[i as int]@);
            }
            out.push(Component::Text(string_of(found[i].as_slice())));
        } else {
            out.push(Component::Zero);
        }
        i += 1;
    }
    proof {
        assert(component_views(out@) =~= vector_in_text(s@, n as nat));
    }
    out
}

fn component_of(j: &Json) -> (r: Component)
    ensures
        r@ == component_in(j@),
{
    match j {
        Json::Number(n) => Component::Number(n.copy()),
        _ => Component::Zero,
    }
}

/// The vector of `n` components that a list holds: what is no number, or missing, is
/// zero.
pub fn vector_from_list(list: &Vec<Json>, n: usize) -> (r: Vec<Component>)
    ensures
        component_views(r@) == vector_in_list(Seq::new(list@.len(), |i: int| list@[i]@), n as nat),
{
    let ghost model = Seq::new(list@.len(), |i: int| list@[i]@);
    let mut out: Vec<Component> = Vec::new();
    let mut i: usize = 0;
    while i < n
        invariant
            i <= n,
            out@.len() == i,
            model == Seq::new(list@.len(), |i: int| list@[i]@),
            forall|j: int| 0 <= j < i ==> (#[trigger] out@[j])@ == vector_in_list(model, n as nat)[j],
        decreases n - i,
    {
        if i < list.len() {
            out.push(component_of(&list[i]));
        } else {
            out.push(Component::Zero);
        }
        i += 1;
    }
    proof {
        assert(component_views(out@) =~= vector_in_list(model, n as nat));
    }
    out
}

/// A vector that is being read from the entries of an object.
pub struct VectorReader {
    pub parts: Vec<Component>,
    /// Whether nothing more is to be read.
    pub done: bool,
}

/// What is being read.
pub ghost struct ReaderModel {
    pub parts: Seq<ComponentModel>,
    pub done: bool,
}

impl View for VectorReader {
    type V = ReaderModel;

    open spec fn view(&self) -> ReaderModel {
        ReaderModel { parts: component_views(self.parts@), done: self.done }
    }
}

/// Which component a key names.
pub open spec fn axis_of(key: Seq<char>) -> Option<int> {
    if key == "x"@ {
        Some(0)
    } else if key == "y"@ {
        Some(1)
    } else if key == "z"@ {
        Some(2)
    } else {
        None
    }
}

impl ReaderModel {
    /// What an entry makes of it. A `value` that is a text or a list is the whole
    /// vector; other entries set the component that they name, if there is one.
    pub open spec fn after(self, key: Seq<char>, value: JsonTree) -> ReaderModel {
        if self.done {
            self
        } else if key == "value"@ {
            match value {
                JsonTree::Text(s) => ReaderModel {
                    parts: vector_in_text(s, self.parts.len()),
                    done: true,
                },
                JsonTree::List(a) => ReaderModel {
                    parts: vector_in_list(a, self.parts.len()),
                    done: true,
                },
                _ => self,
            }
        } else {
            match axis_of(key) {
                Some(i) => if i < self.parts.len() {
                    ReaderModel { parts: self.parts.update(i, component_in(value)), done: false }
                } else {
                    self
                },
                None => self,
            }
        }
    }

    /// What the first `n` entries make of it.
    pub open spec fn after_all(self, entries: Seq<(Seq<char>, JsonTree)>, n: int) -> ReaderModel
        decreases n,
    {
        if n <= 0 {
            self
        } else {
            self.after_all(entries, n - 1).after(entries[n - 1].0, entries[n - 1].1)
        }
    }
}

/// A vector of `n` components of which nothing is read yet.
pub open spec fn unread(n: nat) -> ReaderModel {
    ReaderModel { parts: Seq::new(n, |i: int| ComponentModel::Zero), done: false }
}

impl VectorReader {
    /// A vector of `n` components of which nothing is read yet.
    pub fn new(n: usize) -> (r: Self)
        ensures
            r@ == unread(n as nat),
    {
        let mut parts: Vec<Component> = Vec::new();
        let mut i: usize = 0;
        while i < n
            invariant
                i <= n,
                parts@.len() == i,
                forall|j: int| 0 <= j < i ==> (#[trigger] parts@[j])@ == ComponentModel::Zero,
            decreases n - i,
        {
            parts.push(Component::Zero);
            i += 1;
        }
        proof {
            assert(component_views(parts@) =~= unread(n as nat).parts);
        }
        VectorReader { parts, done: false }
    }

    /// Take an entry.
    pub fn take(&mut self, key: &str, value: &Json)
        ensures
            final(self)@ == old(self)@.after(key@, value@),
    {
        if self.done {
            return ;
        }
        let n = self.parts.len();
        proof {
            assert(self@.parts.len() == n);
        }
        if same_text(key, "value") {
            match value {
                Json::Text(s) => {
                    self.parts = vector_from_text(s.as_str(), n);
                    self.done = true;
                },
                Json::List(a) => {
                    self.parts = vector_from_list(a, n);
                    self.done = true;
                    proof {
                        assert(Seq::new(a@.len(), |i: int| a@[i]@) =~= value@->List_0);
                    }
                },
                _ => {},
            }
        } else {
            let axis: usize = if same_text(key, "x") {
                0
            } else if same_text(key, "y") {
                1
            } else if same_text(key, "z") {
                2
            } else {
                3
            };
            if axis < 3 && axis < n {
                let ghost was = component_views(self.parts@);
                let c = component_of(value);
                let ghost m = c@;
                self.parts.set(axis, c);
                proof {
                    assert(component_views(self.parts@) =~= was.update(axis as int, m));
                }
            }
        }
    }
}

/// An object with a `value` that is a text or a list stands for the vector which that
/// writes, wherever the entry stands among others that are not a `value`.
pub proof fn law_a_value_is_the_whole_vector(
    entries: Seq<(Seq<char>, JsonTree)>,
    at: int,
    n: nat,
    m: int,
)
    requires
        0 <= at < m <= entries.len(),
        entries[at].0 == "value"@,
        entries[at].1 is Text || entries[at].1 is List,
        forall|i: int| 0 <= i < entries.len() && i != at ==> (#[trigger] entries[i]).0 != "value"@,
    ensures
        unread(n).after_all(entries, m) == (ReaderModel {
            parts: match entries[at].1 {
                JsonTree::Text(s) => vector_in_text(s, n),
                JsonTree::List(a) => vector_in_list(a, n),
                _ => Seq::empty(),
            },
            done: true,
        }),
    decreases m,
{
    if m == at + 1 {
        lemma_no_value(entries, at, n);
    } else {
        law_a_value_is_the_whole_vector(entries, at, n, m - 1);
    }
}

proof fn lemma_no_value(entries: Seq<(Seq<char>, JsonTree)>, m: int, n: nat)
    requires
        0 <= m <= entries.len(),
        forall|i: int| 0 <= i < m ==> (#[trigger] entries[i]).0 != "value"@,
    ensures
        !unread(n).after_all(entries, m).done,
        unread(n).after_all(entries, m).parts.len() == n,
    decreases m,
{
    if m > 0 {
        lemma_no_value(entries, m - 1, n);
    }
}

/// The truth value that a text writes.
pub open spec fn truth_in_text(s: Seq<char>) -> Option<bool> {
    let t = crate::text::lower_text(s);
    if t == "true"@ || t == "1"@ {
        Some(true)
    } else if t == "false"@ || t == "0"@ {
        Some(false)
    } else {
        None
    }
}

/// The truth value that a text writes, without regard to ASCII case.
pub fn truth_from_text(s: &str) -> (r: Option<bool>)
    ensures
        r == truth_in_text(s@),
{
    let all = chars_of(s);
    let low = lowered(all.as_slice());
    let t = low.as_slice();
    if is_text(t, "true") || is_text(t, "1") {
        Some(true)
    } else if is_text(t, "false") || is_text(t, "0") {
        Some(false)
    } else {
        None
    }
}

/// The entries of an object, as documents.
pub open spec fn entry_views(v: Seq<(String, Json)>) -> Seq<(Seq<char>, JsonTree)> {
    Seq::new(v.len(), |i: int| (v[i].0@, v[i].1@))
}

/// What the `value` entries among the first `n` set: a truth value, an integer that is
/// not zero, or a text that says so.
pub open spec fn truth_set(entries: Seq<(Seq<char>, JsonTree)>, n: int) -> Option<bool>
    decreases n,
{
    if n <= 0 {
        None
    } else {
        let earlier = truth_set(entries, n - 1);
        let (key, value) = entries[n - 1];
        if key == "value"@ {
            match value {
                JsonTree::Bool(b) => Some(b),
                JsonTree::Text(s) => Some(s == "true"@ || s == "1"@),
                _ => match crate::json::integer_in(value) {
                    Some(i) => Some(i != 0),
                    None => earlier,
                },
            }
        } else {
            earlier
        }
    }
}

/// The truth value that an object stands for: what its `value` says, else true.
pub open spec fn truth_in_entries(entries: Seq<(Seq<char>, JsonTree)>) -> bool {
    match truth_set(entries, entries.len() as int) {
        Some(b) => b,
        None => true,
    }
}

/// The truth value that an object stands for.
pub fn truth_from_entries(entries: &Vec<(String, Json)>) -> (r: bool)
    ensures
        r == truth_in_entries(entry_views(entries@)),
{
    let ghost model = entry_views(entries@);
    let mut val: Option<bool> = None;
    let mut i: usize = 0;
    while i < entries.len()
        invariant
            i <= entries@.len(),
            model == entry_views(entries@),
            val == truth_set(model, i as int),
        decreases entries@.len() - i,
    {
        let (key, value) = &entries[i];
        proof {
            assert(model[i as int] == (key@, value@));
        }
        if same_text(key.as_str(), "value") {
            match value {
                Json::Bool(b) => {
                    val = Some(*b);
                },
                Json::Text(s) => {
                    val = Some(same_text(s.as_str(), "true") || same_text(s.as_str(), "1"));
                },
                _ => {
                    if let Some(n) = value.as_i64() {
                        val = Some(n != 0);
                    }
                },
            }
        }
        i += 1;
    }
    match val {
        Some(b) => b,
        None => true,
    }
}

/// What the `value` entries among the first `n` set: a number, or a text that reads as
/// one; a text that does not takes back what an earlier one set.
pub open spec fn number_set(entries: Seq<(Seq<char>, JsonTree)>, n: int) -> Option<ComponentModel>
    decreases n,
{
    if n <= 0 {
        None
    } else {
        let earlier = number_set(entries, n - 1);
        let (key, value) = entries[n - 1];
        if key == "value"@ {
            match value {
                JsonTree::Number(x) => Some(ComponentModel::Number(x)),
                JsonTree::Text(s) => if crate::numbers::float_text(s) {
                    Some(ComponentModel::Text(s))
                } else {
                    None
                },
                _ => earlier,
            }
        } else {
            earlier
        }
    }
}

/// The number that an object stands for.
pub fn number_from_entries(entries: &Vec<(String, Json)>) -> (r: Option<Component>)
    ensures
        match r {
            Some(c) => number_set(entry_views(entries@), entries@.len() as int) == Some(c@),
            None => number_set(entry_views(entries@), entries@.len() as int) is None,
        },
{
    let ghost model = entry_views(entries@);
    let mut val: Option<Component> = None;
    let mut i: usize = 0;
    while i < entries.len()
        invariant
            i <= entries@.len(),
            model == entry_views(entries@),
            match val {
                Some(c) => number_set(model, i as int) == Some(c@),
                None => number_set(model, i as int) is None,
            },
        decreases entries@.len() - i,
    {
        let (key, value) = &entries[i];
        proof {
            assert(model[i as int] == (key@, value@));
        }
        if same_text(key.as_str(), "value") {
            match value {
                Json::Number(x) => {
                    val = Some(Component::Number(x.copy()));
                },
                Json::Text(s) => {
                    let all = chars_of(s.as_str());
                    val = if crate::numbers::reads_as_float(all.as_slice()) {
                        Some(Component::Text(s.clone()))
                    } else {
                        None
                    };
                },
                _ => {},
            }
        }
        i += 1;
    }
    val
}

/// A 3D vector, its components as the bits of single-precision values.
#[derive(Debug, Clone, Copy, PartialEq, Eq, Default)]
pub struct Vec3 {
    pub x: u32,
    pub y: u32,
    pub z: u32,
}

/// A 2D vector, its components as the bits of single-precision values.
#[derive(Debug, Clone, Copy, PartialEq, Eq, Default)]
pub struct Vec2 {
    pub x: u32,
    pub y: u32,
}

/// The bits of the single-precision value one.
pub const ONE: u32 = 0x3F80_0000;

impl Vec3 {
    pub fn new(x: u32, y: u32, z: u32) -> (r: Self)
        ensures
            r == (Vec3 { x, y, z }),
    {
        Vec3 { x, y, z }
    }

    pub fn x(&self) -> (r: u32)
        ensures
            r == self.x,
    {
        self.x
    }

    pub fn y(&self) -> (r: u32)
        ensures
            r == self.y,
    {
        self.y
    }

    pub fn z(&self) -> (r: u32)
        ensures
            r == self.z,
    {
        self.z
    }
}

impl Vec2 {
    pub fn new(x: u32, y: u32) -> (r: Self)
        ensures
            r == (Vec2 { x, y }),
    {
        Vec2 { x, y }
    }

    pub fn x(&self) -> (r: u32)
        ensures
            r == self.x,
    {
        self.x
    }

    pub fn y(&self) -> (r: u32)
        ensures
            r == self.y,
    {
        self.y
    }
}

/// The camera of a scene.
#[derive(Debug, Clone, Copy, PartialEq, Eq)]
pub struct Camera {
    pub center: Option<Vec3>,
    pub eye: Option<Vec3>,
    pub up: Option<Vec3>,
    pub fov: Option<u32>,
}

/// What holds of a scene as a whole.
#[derive(Debug, Clone, Copy, PartialEq, Eq)]
pub struct General {
    pub ambientcolor: Option<Vec3>,
    pub clearcolor: Option<Vec3>,
    /// Whether the scene asks for its `clearcolor` background to be painted
    /// behind the layers.
    pub clearenabled: Option<bool>,
    pub skylightcolor: Option<Vec3>,
    pub cameraparallax: Option<bool>,
    pub cameraparallaxamount: Option<u32>,
    pub cameraparallaxdelay: Option<u32>,
    /// The orthogonal projection canvas, when the scene uses one. Object
    /// `origin` values live in this space; rendering maps this canvas to the
    /// output, preserving aspect, so scenes are laid out in "design units"
    /// rather than output pixels.
    pub orthogonalprojection: Option<OrthogonalProjection>,
    pub zoom: Option<u32>,
    pub nearz: Option<u32>,
    pub farz: Option<u32>,
}

/// The `general.orthogonalprojection` object from a scene's scenario.
#[derive(Debug, Clone, Copy, PartialEq, Eq)]
pub struct OrthogonalProjection {
    pub width: Option<u32>,
    pub height: Option<u32>,
}

/// An effect on an object.
#[derive(Debug, PartialEq, Eq)]
pub struct Effect {
    pub id: Option<u32>,
    pub file: Option<String>,
    pub name: Option<String>,
    pub visible: Option<bool>,
    pub values: Option<Json>,
}

/// The inferred kind of a scene object based on which key it contains.
#[derive(Debug, Clone, Copy, PartialEq, Eq, Hash, Structural)]
pub enum ObjectKind {
    Image,
    Particle,
    Text,
    Sound,
    Light,
    Other,
}

/// The name of a kind.
pub open spec fn object_kind_name(k: ObjectKind) -> Seq<char> {
    match k {
        ObjectKind::Image => "image"@,
        ObjectKind::Particle => "particle"@,
        ObjectKind::Text => "text"@,
        ObjectKind::Sound => "sound"@,
        ObjectKind::Light => "light"@,
        ObjectKind::Other => "other"@,
    }
}

impl ObjectKind {
    pub fn as_str(self) -> (r: &'static str)
        ensures
            r@ == object_kind_name(self),
    {
        match self {
            ObjectKind::Image => "image",
            ObjectKind::Particle => "particle",
            ObjectKind::Text => "text",
            ObjectKind::Sound => "sound",
            ObjectKind::Light => "light",
            ObjectKind::Other => "other",
        }
    }
}

/// A node in the scene graph.
#[derive(Debug, PartialEq, Eq)]
pub struct SceneObject {
    pub id: Option<u32>,
    pub name: Option<String>,
    pub origin: Option<Vec3>,
    pub scale: Option<Vec3>,
    pub angles: Option<Vec3>,
    pub size: Option<Vec2>,
    pub color: Option<Vec3>,
    pub alpha: Option<u32>,
    pub visible: Option<bool>,
    pub parent: Option<u32>,
    pub parallax_depth: Option<Vec2>,
    pub effects: Vec<Effect>,
    // Type-specific discriminators:
    pub image: Option<Json>,
    pub particle: Option<Json>,
    pub text: Option<Json>,
    pub sound: Option<Json>,
    pub light: Option<Json>,
}

/// The file that an image layer names: it is a text, or an object with a `file` or
/// else an `image`.
pub open spec fn image_file(t: JsonTree) -> Option<Seq<char>> {
    match t {
        JsonTree::Text(s) => Some(s),
        JsonTree::Table(m) => match crate::json::field(t, "file"@) {
            Some(v) => crate::json::text_in(v),
            None => crate::json::text_field(t, "image"@),
        },
        _ => None,
    }
}

impl SceneObject {
    /// The kind of the object: the first of the discriminators that is there.
    pub open spec fn inferred(self) -> ObjectKind {
        if self.image is Some {
            ObjectKind::Image
        } else if self.particle is Some {
            ObjectKind::Particle
        } else if self.text is Some {
            ObjectKind::Text
        } else if self.sound is Some {
            ObjectKind::Sound
        } else if self.light is Some {
            ObjectKind::Light
        } else {
            ObjectKind::Other
        }
    }

    /// Inferred kind of this object based on present fields.
    pub fn kind(&self) -> (r: ObjectKind)
        ensures
            r == self.inferred(),
    {
        if self.image.is_some() {
            ObjectKind::Image
        } else if self.particle.is_some() {
            ObjectKind::Particle
        } else if self.text.is_some() {
            ObjectKind::Text
        } else if self.sound.is_some() {
            ObjectKind::Sound
        } else if self.light.is_some() {
            ObjectKind::Light
        } else {
            ObjectKind::Other
        }
    }

    /// Path to the image or material file if this is an image layer.
    pub fn image_path(&self) -> (r: Option<String>)
        ensures
            crate::text::opt_text(r) == (match self.image {
                Some(j) => image_file(j@),
                None => None,
            }),
    {
        match &self.image {
            None => None,
            Some(j) => match j {
                Json::Text(s) => Some(s.clone()),
                Json::Table(_) => {
                    let v = match j.get("file") {
                        Some(v) => Some(v),
                        None => j.get("image"),
                    };
                    match v {
                        Some(v) => crate::text::opt_copy(v.as_str()),
                        None => None,
                    }
                },
                _ => None,
            },
        }
    }

    /// An object is visible unless it says otherwise.
    pub fn is_visible(&self) -> (r: bool)
        ensures
            r == (self.visible != Some(false)),
    {
        match self.visible {
            Some(b) => b,
            None => true,
        }
    }

    /// The opacity, one where none is given.
    pub fn alpha(&self) -> (r: u32)
        ensures
            r == (match self.alpha {
                Some(a) => a,
                None => ONE,
            }),
    {
        match self.alpha {
            Some(a) => a,
            None => ONE,
        }
    }

    /// The position, zero where none is given.
    pub fn origin(&self) -> (r: Vec3)
        ensures
            r == (match self.origin {
                Some(v) => v,
                None => Vec3 { x: 0, y: 0, z: 0 },
            }),
    {
        match self.origin {
            Some(v) => v,
            None => Vec3::new(0, 0, 0),
        }
    }

    /// The scale, one where none is given.
    pub fn scale(&self) -> (r: Vec3)
        ensures
            r == (match self.scale {
                Some(v) => v,
                None => Vec3 { x: ONE, y: ONE, z: ONE },
            }),
    {
        match self.scale {
            Some(v) => v,
            None => Vec3::new(ONE, ONE, ONE),
        }
    }

    /// The rotation, zero where none is given.
    pub fn angles(&self) -> (r: Vec3)
        ensures
            r == (match self.angles {
                Some(v) => v,
                None => Vec3 { x: 0, y: 0, z: 0 },
            }),
    {
        match self.angles {
            Some(v) => v,
            None => Vec3::new(0, 0, 0),
        }
    }

    /// The size, where one is given.
    pub fn size(&self) -> (r: Option<Vec2>)
        ensures
            r == self.size,
    {
        self.size
    }
}

/// The top-level `scene.json` document.
#[derive(Debug, PartialEq, Eq)]
pub struct Scene {
    pub camera: Option<Camera>,
    pub general: Option<General>,
    pub objects: Vec<SceneObject>,
    pub version: Option<u32>,
}

/// How many objects of a list are of a kind.
pub open spec fn objects_of(list: Seq<SceneObject>, kind: ObjectKind) -> nat {
    list.filter(|o: SceneObject| o.inferred() == kind).len()
}

/// A kind with its count, where there are any.
pub open spec fn objects_counted(list: Seq<SceneObject>, kind: ObjectKind) -> Seq<
    (ObjectKind, usize),
> {
    if objects_of(list, kind) > 0 {
        seq![(kind, objects_of(list, kind) as usize)]
    } else {
        Seq::empty()
    }
}

/// The kinds that occur, with how many objects are of each.
pub open spec fn object_counts(list: Seq<SceneObject>) -> Seq<(ObjectKind, usize)> {
    objects_counted(list, ObjectKind::Image) + objects_counted(list, ObjectKind::Particle)
        + objects_counted(list, ObjectKind::Text) + objects_counted(list, ObjectKind::Sound)
        + objects_counted(list, ObjectKind::Light) + objects_counted(list, ObjectKind::Other)
}

impl Scene {
    fn count(&self, kind: ObjectKind) -> (r: usize)
        ensures
            r == objects_of(self.objects@, kind),
    {
        let ghost list = self.objects@;
        let ghost keep = |o: SceneObject| o.inferred() == kind;
        let mut n: usize = 0;
        let mut i: usize = 0;
        proof {
            reveal(Seq::filter);
            assert(list.take(0) =~= Seq::<SceneObject>::empty());
        }
        while i < self.objects.len()
            invariant
                i <= self.objects@.len(),
                list == self.objects@,
                keep == (|o: SceneObject| o.inferred() == kind),
                n <= i,
                n == list.take(i as int).filter(keep).len(),
            decreases self.objects@.len() - i,
        {
            proof {
                reveal(Seq::filter);
                assert(list.take(i + 1).drop_last() =~= list.take(i as int));
                assert(list.take(i + 1).last() == self.objects@[i as int]);
            }
            if self.objects[i].kind() == kind {
                n += 1;
            }
            i += 1;
        }
        proof {
            assert(list.take(list.len() as int) =~= list);
        }
        n
    }

    fn push_count(&self, out: &mut Vec<(ObjectKind, usize)>, kind: ObjectKind)
        ensures
            final(out)@ == old(out)@ + objects_counted(self.objects@, kind),
    {
        let n = self.count(kind);
        if n > 0 {
            out.push((kind, n));
        }
        proof {
            assert(out@ =~= old(out)@ + objects_counted(self.objects@, kind));
        }
    }

    /// Count objects by their inferred kind: the kinds that occur, with how many
    /// objects are of each.
    pub fn count_by_kind(&self) -> (r: Vec<(ObjectKind, usize)>)
        ensures
            r@ == object_counts(self.objects@),
    {
        let mut out: Vec<(ObjectKind, usize)> = Vec::new();
        self.push_count(&mut out, ObjectKind::Image);
        self.push_count(&mut out, ObjectKind::Particle);
        self.push_count(&mut out, ObjectKind::Text);
        self.push_count(&mut out, ObjectKind::Sound);
        self.push_count(&mut out, ObjectKind::Light);
        self.push_count(&mut out, ObjectKind::Other);
        proof {
            assert(out@ =~= object_counts(self.objects@));
        }
        out
    }
}

/// Every object is counted under one kind.
pub proof fn law_object_counts_add_up(list: Seq<SceneObject>)
    ensures
        objects_of(list, ObjectKind::Image) + objects_of(list, ObjectKind::Particle) + objects_of(
            list,
            ObjectKind::Text,
        ) + objects_of(list, ObjectKind::Sound) + objects_of(list, ObjectKind::Light) + objects_of(
            list,
            ObjectKind::Other,
        ) == list.len(),
    decreases list.len(),
{
    reveal(Seq::filter);
    if list.len() > 0 {
        law_object_counts_add_up(list.drop_last());
    }
}

/// The components of a list are those of the vector, in order; what is missing or is no
/// number is zero.
pub proof fn law_listed_components_keep_their_place(list: Seq<JsonTree>, n: nat, i: int)
    requires
        0 <= i < n,
    ensures
        vector_in_list(list, n).len() == n,
        i < list.len() && list[i] is Number ==> vector_in_list(list, n)[i]
            == ComponentModel::Number(list[i]->Number_0),
        i >= list.len() || !(list[i] is Number) ==> vector_in_list(list, n)[i]
            == ComponentModel::Zero,
{
}

/// The numbers of a text, which white space or commas part, are the components of the
/// vector, in order; what is missing is zero.
pub proof fn law_written_components_keep_their_place(
    s: Seq<char>,
    words: Seq<Seq<char>>,
    n: nat,
    i: int,
)
    requires
        crate::text::pieces_of(s, Class::Gap, Class::Item) == words,
        forall|k: int| 0 <= k < words.len() ==> crate::numbers::float_text(#[trigger] words[k]),
        0 <= i < n,
    ensures
        vector_in_text(s, n).len() == n,
        i < words.len() ==> vector_in_text(s, n)[i] == ComponentModel::Text(words[i]),
        i >= words.len() ==> vector_in_text(s, n)[i] == ComponentModel::Zero,
{
    lemma_all_among(words, words.len() as int);
    assert(words.take(words.len() as int) =~= words);
}

proof fn lemma_all_among(words: Seq<Seq<char>>, n: int)
    requires
        0 <= n <= words.len(),
        forall|k: int| 0 <= k < words.len() ==> crate::numbers::float_text(#[trigger] words[k]),
    ensures
        crate::properties::numbers_among(words, n) == words.take(n),
    decreases n,
{
    if n > 0 {
        lemma_all_among(words, n - 1);
        assert(crate::numbers::float_text(words[n - 1]));
        assert(words.take(n - 1).push(words[n - 1]) =~= words.take(n));
    } else {
        assert(words.take(n) =~= Seq::<Seq<char>>::empty());
    }
}

/// An entry named `x`, `y` or `z` sets that component and no other.
pub proof fn law_axes_set_their_component(m: ReaderModel, v: NumberModel, i: int)
    requires
        !m.done,
        m.parts.len() == 3,
        0 <= i < 3,
    ensures
        m.after("x"@, JsonTree::Number(v)).parts == m.parts.update(0, ComponentModel::Number(v)),
        m.after("y"@, JsonTree::Number(v)).parts == m.parts.update(1, ComponentModel::Number(v)),
        m.after("z"@, JsonTree::Number(v)).parts == m.parts.update(2, ComponentModel::Number(v)),
        unread(3).parts[i] == ComponentModel::Zero,
{
    reveal_strlit("x");
    reveal_strlit("y");
    reveal_strlit("z");
    reveal_strlit("value");
    assert("x"@[0] == 'x' && "y"@[0] == 'y' && "z"@[0] == 'z' && "value"@[0] == 'v');
}

/// Truth is written `true` or `1`, untruth `false` or `0`, in any case; nothing else is
/// either.
pub proof fn law_truth_is_written(s: Seq<char>)
    ensures
        truth_in_text(s) == Some(true) <==> crate::text::lower_text(s) == "true"@
            || crate::text::lower_text(s) == "1"@,
        truth_in_text(s) == Some(false) <==> crate::text::lower_text(s) == "false"@
            || crate::text::lower_text(s) == "0"@,
{
    reveal_strlit("true");
    reveal_strlit("1");
    reveal_strlit("false");
    reveal_strlit("0");
    assert("true"@.len() == 4 && "1"@.len() == 1 && "false"@.len() == 5 && "0"@.len() == 1);
    assert("1"@[0] == '1' && "0"@[0] == '0');
}

/// An object stands for the truth value and for the number in its last `value`; without
/// one it is true and no number.
pub proof fn law_objects_stand_for_their_value(
    entries: Seq<(Seq<char>, JsonTree)>,
    b: bool,
    i: i64,
    s: Seq<char>,
    x: NumberModel,
)
    ensures
        truth_in_entries(entries.push(("value"@, JsonTree::Bool(b)))) == b,
        i < 0 ==> truth_in_entries(
            entries.push(("value"@, JsonTree::Number(NumberModel::Negative(i)))),
        ),
        i >= 0 ==> truth_in_entries(
            entries.push(("value"@, JsonTree::Number(NumberModel::Natural(i as u64)))),
        ) == (i != 0),
        truth_in_entries(entries.push(("value"@, JsonTree::Text(s)))) == (s == "true"@ || s
            == "1"@),
        number_set(
            entries.push(("value"@, JsonTree::Number(x))),
            entries.len() as int + 1,
        ) == Some(ComponentModel::Number(x)),
        crate::numbers::float_text(s) ==> number_set(
            entries.push(("value"@, JsonTree::Text(s))),
            entries.len() as int + 1,
        ) == Some(ComponentModel::Text(s)),
        truth_in_entries(Seq::empty()),
        number_set(Seq::empty(), 0) is None,
{
}

/// An entry that is no `value` changes neither the truth value nor the number of an
/// object.
pub proof fn law_other_entries_do_not_matter(
    entries: Seq<(Seq<char>, JsonTree)>,
    key: Seq<char>,
    v: JsonTree,
)
    requires
        key != "value"@,
    ensures
        truth_in_entries(entries.push((key, v))) == truth_in_entries(entries),
        number_set(entries.push((key, v)), entries.len() as int + 1) == number_set(
            entries,
            entries.len() as int,
        ),
{
    lemma_sets_prefix(entries, (key, v), entries.len() as int);
}

proof fn lemma_sets_prefix(entries: Seq<(Seq<char>, JsonTree)>, e: (Seq<char>, JsonTree), n: int)
    requires
        0 <= n <= entries.len(),
    ensures
        truth_set(entries.push(e), n) == truth_set(entries, n),
        number_set(entries.push(e), n) == number_set(entries, n),
    decreases n,
{
    if n > 0 {
        lemma_sets_prefix(entries, e, n - 1);
        assert(entries.push(e)[n - 1] == entries[n - 1]);
    }
}

/// An image layer names its file by a text, or by an object's `file`, or else by its
/// `image`.
pub proof fn law_images_name_their_file(m: Map<Seq<char>, JsonTree>, s: Seq<char>)
    ensures
        image_file(JsonTree::Text(s)) == Some(s),
        crate::effect::says(m, "file"@, JsonTree::Text(s)) ==> image_file(JsonTree::Table(m))
            == Some(s),
        !m.dom().contains("file"@) && crate::effect::says(m, "image"@, JsonTree::Text(s))
            ==> image_file(JsonTree::Table(m)) == Some(s),
        !m.dom().contains("file"@) && !m.dom().contains("image"@) ==> image_file(JsonTree::Table(m))
            is None,
{
}

/// An object is of the kind of what it has: the first of image, particle, text, sound and
/// light, and of no other kind than those.
pub proof fn law_objects_are_what_they_have(o: SceneObject)
    ensures
        o.inferred() == ObjectKind::Image <==> o.image is Some,
        o.inferred() == ObjectKind::Particle <==> o.image is None && o.particle is Some,
        o.inferred() == ObjectKind::Text <==> o.image is None && o.particle is None && o.text
            is Some,
        o.inferred() == ObjectKind::Sound <==> o.image is None && o.particle is None && o.text
            is None && o.sound is Some,
        o.inferred() == ObjectKind::Light <==> o.image is None && o.particle is None && o.text
            is None && o.sound is None && o.light is Some,
        o.inferred() == ObjectKind::Other <==> o.image is None && o.particle is None && o.text
            is None && o.sound is None && o.light is None,
{
}

/// A kind is counted where an object is of it, with how many are; one more object is one
/// more of its kind.
pub proof fn law_objects_are_counted_by_kind(list: Seq<SceneObject>, o: SceneObject, k: ObjectKind)
    ensures
        objects_of(Seq::empty(), k) == 0,
        objects_of(list.push(o), k) == objects_of(list, k) + (if o.inferred() == k {
            1nat
        } else {
            0
        }),
{
    reveal(Seq::filter);
    assert(list.push(o).drop_last() =~= list);
}

/// The kinds that occur are told with how many objects are of each, in one order, and no
/// kind that does not occur is; no two kinds have one name.
pub proof fn law_kinds_that_occur_are_told(
    list: Seq<SceneObject>,
    kind: ObjectKind,
    other: ObjectKind,
    i: int,
)
    requires
        list.len() <= usize::MAX,
    ensures
        0 <= i < object_counts(list).len() ==> {
            let (k, n) = object_counts(list)[i];
            n == objects_of(list, k) && n > 0
        },
        objects_of(list, kind) > 0 ==> exists|i: int|
            0 <= i < object_counts(list).len() && (#[trigger] object_counts(list)[i]).0 == kind,
        kind != other ==> object_kind_name(kind) != object_kind_name(other),
{
    law_object_counts_add_up(list);
    reveal_strlit("image");
    reveal_strlit("particle");
    reveal_strlit("text");
    reveal_strlit("sound");
    reveal_strlit("light");
    reveal_strlit("other");
    assert("image"@[0] == 'i' && "particle"@[0] == 'p' && "text"@[0] == 't');
    assert("sound"@[0] == 's' && "light"@[0] == 'l' && "other"@[0] == 'o');
    let a = objects_counted(list, ObjectKind::Image);
    let b = objects_counted(list, ObjectKind::Particle);
    let c = objects_counted(list, ObjectKind::Text);
    let d = objects_counted(list, ObjectKind::Sound);
    let e = objects_counted(list, ObjectKind::Light);
    let f = objects_counted(list, ObjectKind::Other);
    let all = object_counts(list);
    assert(all =~= a + b + c + d + e + f);
    let at = match kind {
        ObjectKind::Image => 0int,
        ObjectKind::Particle => a.len() as int,
        ObjectKind::Text => a.len() + b.len() as int,
        ObjectKind::Sound => a.len() + b.len() + c.len() as int,
        ObjectKind::Light => a.len() + b.len() + c.len() + d.len() as int,
        ObjectKind::Other => a.len() + b.len() + c.len() + d.len() + e.len() as int,
    };
    if objects_of(list, kind) > 0 {
        assert(all[at].0 == kind);
    }
}

/// What an object is given is what it has: its place, its size and its turn each are its
/// own, and where one is not given an object stands at the origin, in its own size and
/// unturned.
pub proof fn law_objects_have_what_they_are_given(
    o: SceneObject,
    v: Vec3,
    place: Vec3,
    size: Vec3,
    turn: Vec3,
)
    requires
        call_ensures(SceneObject::origin, (&o,), place),
        call_ensures(SceneObject::scale, (&o,), size),
        call_ensures(SceneObject::angles, (&o,), turn),
    ensures
        o.origin == Some(v) ==> place == v,
        o.scale == Some(v) ==> size == v,
        o.angles == Some(v) ==> turn == v,
        o.origin is None ==> place.x == 0 && place.y == 0 && place.z == 0,
        o.scale is None ==> size.x == ONE && size.y == size.x && size.z == size.x,
        o.angles is None ==> turn.x == 0 && turn.y == 0 && turn.z == 0,
{
}

/// Only an object with an image leads to a file, and to that image's.
pub proof fn law_images_lead_to_their_file(
    o: SceneObject,
    j: crate::json::Json,
    s: Seq<char>,
    r: Option<String>,
)
    requires
        call_ensures(SceneObject::image_path, (&o,), r),
    ensures
        o.image is None ==> r is None,
        o.image == Some(j) && j@ == crate::json::JsonTree::Text(s) ==> crate::text::opt_text(r)
            == Some(s),
{
}

} // verus!
