//! Wallpaper Engine particle system definitions (`particles/**/*.json`).
//!
//! A particle system is **declarative data**, not code: a list of emitters,
//! initializers, operators and renderers, each naming a behaviour and carrying
//! its parameters. The whole vocabulary is small and closed:
//!
//! * emitters: `sphererandom`, `boxrandom`
//! * initializers: `lifetimerandom`, `sizerandom`, `colorrandom`,
//!   `velocityrandom`, `rotationrandom`, `turbulentvelocityrandom`,
//!   `alpharandom`, `angularvelocityrandom`, `mapsequencebetweencontrolpoints`,
//!   `mapsequencearoundcontrolpoint`
//! * operators: `movement`, `alphafade`, `alphachange`, `sizechange`,
//!   `colorchange`, `oscillatealpha`, `oscillatesize`, `oscillateposition`,
//!   `turbulence`, `angularmovement`, `vortex`, `controlpointattract`
//! * renderers: `sprite`, `spritetrail`, `ropetrail`, `rope`
//!
//! So this module deliberately does **not** enumerate a struct per behaviour.
//! A behaviour the simulator does not know is data, not a parse failure, and a
//! parameter added by a newer editor version is simply unread — which is what
//! keeps one parser working across a whole library instead of one wallpaper.
use vstd::prelude::*;
use crate::json::{parse_json, Json, JsonTree, NumberModel};
use crate::numbers::{parse_natural, reads_as_float};
use crate::properties::number_texts;
use crate::scene::{Component, ComponentModel};
use crate::strmap::StrMap;
use crate::text::{chars_of, opt_copy, string_of, trim, words};
use std::collections::BTreeMap;

verus! {

/// One named behaviour with its parameters.
///
/// Parameters are kept as JSON values and read by name on demand, so a
/// parameter that never appears costs nothing and an unknown one is ignored.
#[derive(Debug)]
pub struct Item {
    pub name: String,
    pub params: StrMap<Json>,
}

/// What a behaviour stands for.
#[verifier::ext_equal]
pub ghost struct ItemModel {
    pub name: Seq<char>,
    pub params: Map<Seq<char>, JsonTree>,
}

impl View for Item {
    type V = ItemModel;

    open spec fn view(&self) -> ItemModel {
        ItemModel { name: self.name@, params: crate::effect::trees(self.params@) }
    }
}

/// What the behaviours of a list stand for.
pub open spec fn item_views(v: Seq<Item>) -> Seq<ItemModel> {
    Seq::new(v.len(), |i: int| v[i]@)
}

/// The first word of a text, where it reads as a number.
pub open spec fn first_number(s: Seq<char>) -> Option<Seq<char>> {
    let list = crate::text::words_of(s);
    if list.len() > 0 && crate::numbers::float_text(list[0]) {
        Some(list[0])
    } else {
        None
    }
}

/// The number that a parameter is.
pub open spec fn number_in(t: JsonTree) -> Option<ComponentModel> {
    match t {
        JsonTree::Number(n) => Some(ComponentModel::Number(n)),
        JsonTree::Text(s) => match first_number(s) {
            Some(w) => Some(ComponentModel::Text(w)),
            None => None,
        },
        _ => None,
    }
}

/// A vector of three components from those that are there: the first stands for the
/// ones that are missing.
pub open spec fn triple(list: Seq<ComponentModel>) -> Option<Seq<ComponentModel>> {
    if list.len() == 0 {
        None
    } else {
        Some(
            seq![
                list[0],
                if list.len() > 1 {
                    list[1]
                } else {
                    list[0]
                },
                if list.len() > 2 {
                    list[2]
                } else {
                    list[0]
                },
            ],
        )
    }
}

/// The numbers in a text, which white space parts.
pub open spec fn text_numbers(s: Seq<char>) -> Seq<ComponentModel> {
    let list = crate::text::words_of(s);
    let found = crate::properties::numbers_among(list, list.len() as int);
    Seq::new(found.len(), |i: int| ComponentModel::Text(found[i]))
}

/// The numbers in a list.
pub open spec fn list_numbers(list: Seq<JsonTree>) -> Seq<ComponentModel> {
    let found = crate::properties::numbers_in(list, list.len() as int);
    Seq::new(found.len(), |i: int| ComponentModel::Number(found[i]))
}

/// The vector that a parameter is: `"1 2 3"`, a bare number for all three components,
/// or an array.
pub open spec fn vector_in(t: JsonTree) -> Option<Seq<ComponentModel>> {
    match t {
        JsonTree::Text(s) => triple(text_numbers(s)),
        JsonTree::Number(n) => triple(seq![ComponentModel::Number(n)]),
        JsonTree::List(a) => triple(list_numbers(a)),
        _ => None,
    }
}

impl ItemModel {
    /// The number under a key.
    pub open spec fn number(self, key: Seq<char>) -> Option<ComponentModel> {
        if self.params.dom().contains(key) {
            number_in(self.params[key])
        } else {
            None
        }
    }

    /// The vector under a key.
    pub open spec fn vector(self, key: Seq<char>) -> Option<Seq<ComponentModel>> {
        if self.params.dom().contains(key) {
            vector_in(self.params[key])
        } else {
            None
        }
    }
}

/// Whether `r` is a component that may be missing.
pub open spec fn opt_component(r: Option<Component>) -> Option<ComponentModel> {
    match r {
        Some(c) => Some(c@),
        None => None,
    }
}

/// What a vector that may be missing stands for.
pub open spec fn opt_vector(r: Option<Vec<Component>>) -> Option<Seq<ComponentModel>> {
    match r {
        Some(v) => Some(crate::scene::component_views(v@)),
        None => None,
    }
}

fn first_number_of(s: &str) -> (r: Option<Component>)
    ensures
        opt_component(r) == (match first_number(s@) {
            Some(w) => Some(ComponentModel::Text(w)),
            None => None,
        }),
{
    let all = chars_of(s);
    let list = words(all.as_slice());
    let ghost model = crate::text::words_of(s@);
    proof {
        assert(crate::text::spelled(list@).len() == list@.len());
    }
    if list.len() > 0 {
        proof {
            assert(model[0] == list@[0]@);
        }
        if reads_as_float(list[0].as_slice()) {
            return Some(Component::Text(string_of(list[0].as_slice())));
        }
    }
    None
}

fn triple_of(list: &Vec<Component>) -> (r: Option<Vec<Component>>)
    ensures
        opt_vector(r) == triple(crate::scene::component_views(list@)),
{
    let ghost model = crate::scene::component_views(list@);
    if list.len() == 0 {
        return None;
    }
    let mut out: Vec<Component> = Vec::new();
    out.push(list[0].copy());
    out.push(
        if list.len() > 1 {
            list[1].copy()
        } else {
            list[0].copy()
        },
    );
    out.push(
        if list.len() > 2 {
            list[2].copy()
        } else {
            list[0].copy()
        },
    );
    proof {
        assert(crate::scene::component_views(out@) =~= triple(model)->Some_0);
    }
    Some(out)
}

fn text_components(s: &str) -> (r: Vec<Component>)
    ensures
        crate::scene::component_views(r@) == text_numbers(s@),
{
    let all = chars_of(s);
    let list = words(all.as_slice());
    let found = number_texts(&list);
    let ghost model = crate::text::spelled(found@);
    proof {
        assert(crate::text::spelled(list@).len() == list@.len());
    }
    let mut out: Vec<Component> = Vec::new();
    let mut i: usize = 0;
    while i < found.len()
        invariant
            i <= found@.len(),
            out@.len() == i,
            model == crate::text::spelled(found@),
            forall|j: int| 0 <= j < i ==> (#[trigger] out@[j])@ == ComponentModel::Text(model[j]),
        decreases found@.len() - i,
    {
        proof {
            assert(model[i as int] == found@[i as int]@);
        }
        out.push(Component::Text(string_of(found[i].as_slice())));
        i += 1;
    }
    proof {
        assert(crate::scene::component_views(out@) =~= text_numbers(s@));
    }
    out
}

fn list_components(list: &Vec<Json>) -> (r: Vec<Component>)
    ensures
        crate::scene::component_views(r@) == list_numbers(
            Seq::new(list@.len(), |i: int| list@[i]@),
        ),
{
    let ghost all = Seq::new(list@.len(), |i: int| list@[i]@);
    let mut out: Vec<Component> = Vec::new();
    let mut i: usize = 0;
    proof {
        assert(crate::scene::component_views(out@) =~= Seq::new(
            crate::properties::numbers_in(all, 0).len(),
            |j: int| ComponentModel::Number(crate::properties::numbers_in(all, 0)[j]),
        ));
    }
    while i < list.len()
        invariant
            i <= list@.len(),
            all == Seq::new(list@.len(), |i: int| list@[i]@),
            crate::scene::component_views(out@) == Seq::new(
                crate::properties::numbers_in(all, i as int).len(),
                |j: int| ComponentModel::Number(crate::properties::numbers_in(all, i as int)[j]),
            ),
        decreases list@.len() - i,
    {
        let ghost was = crate::scene::component_views(out@);
        proof {
            assert(all[i as int] == list@[i as int]@);
        }
        if let Json::Number(n) = &list[i] {
            let c = Component::Number(n.copy());
            let ghost m = c@;
            out.push(c);
            proof {
                assert(crate::scene::component_views(out@) =~= was.push(m));
                assert(crate::scene::component_views(out@) =~= Seq::new(
                    crate::properties::numbers_in(all, i + 1).len(),
                    |j: int| ComponentModel::Number(crate::properties::numbers_in(all, i + 1)[j]),
                ));
            }
        }
        i += 1;
    }
    proof {
        assert(crate::scene::component_views(out@) =~= list_numbers(all));
    }
    out
}

/// The components of a vector.
pub fn copy_components(v: &Vec<Component>) -> (r: Vec<Component>)
    ensures
        crate::scene::component_views(r@) == crate::scene::component_views(v@),
{
    let mut out: Vec<Component> = Vec::new();
    let mut i: usize = 0;
    while i < v.len()
        invariant
            i <= v@.len(),
            out@.len() == i,
            forall|j: int| 0 <= j < i ==> (#[trigger] out@[j])@ == v@[j]@,
        decreases v@.len() - i,
    {
        out.push(v[i].copy());
        i += 1;
    }
    proof {
        assert(crate::scene::component_views(out@) =~= crate::scene::component_views(v@));
    }
    out
}

impl Item {
    /// Whether there is a parameter of that name.
    pub fn has(&self, key: &str) -> (r: bool)
        ensures
            r == self@.params.dom().contains(key@),
    {
        self.params.contains_key(key)
    }

    /// A number parameter. The editor writes numbers as JSON numbers, but a
    /// scalar bound to a material constant can also arrive as a one-element
    /// string, so both are accepted.
    pub fn number(&self, key: &str) -> (r: Option<Component>)
        ensures
            opt_component(r) == self@.number(key@),
    {
        match self.params.get(key) {
            Some(Json::Number(n)) => Some(Component::Number(n.copy())),
            Some(Json::Text(s)) => first_number_of(s.as_str()),
            _ => None,
        }
    }

    /// A number parameter, or a default.
    pub fn number_or(&self, key: &str, default: &Component) -> (r: Component)
        ensures
            r@ == (match self@.number(key@) {
                Some(c) => c,
                None => default@,
            }),
    {
        match self.number(key) {
            Some(c) => c,
            None => default.copy(),
        }
    }

    /// A 3-component parameter. Accepts `"1 2 3"`, a bare number (all three
    /// components equal), or an array.
    pub fn vec3(&self, key: &str) -> (r: Option<Vec<Component>>)
        ensures
            opt_vector(r) == self@.vector(key@),
            r matches Some(v) ==> v@.len() == 3,
    {
        let r = match self.params.get(key) {
            Some(Json::Text(s)) => triple_of(&text_components(s.as_str())),
            Some(Json::Number(n)) => {
                let mut one: Vec<Component> = Vec::new();
                one.push(Component::Number(n.copy()));
                proof {
                    assert(crate::scene::component_views(one@) =~= seq![
                        ComponentModel::Number(n@),
                    ]);
                }
                triple_of(&one)
            },
            Some(Json::List(a)) => {
                proof {
                    let j = self.params@[key@];
                    assert(Seq::new(a@.len(), |i: int| a@[i]@) =~= j@->List_0);
                }
                triple_of(&list_components(a))
            },
            _ => None,
        };
        proof {
            assert(r matches Some(v) ==> crate::scene::component_views(v@).len() == v@.len());
        }
        r
    }

    /// A 3-component parameter, or a default.
    pub fn vec3_or(&self, key: &str, default: &Vec<Component>) -> (r: Vec<Component>)
        ensures
            crate::scene::component_views(r@) == (match self@.vector(key@) {
                Some(v) => v,
                None => crate::scene::component_views(default@),
            }),
    {
        match self.vec3(key) {
            Some(v) => v,
            None => copy_components(default),
        }
    }

    /// Two number parameters, or their defaults.
    pub fn number_pair(&self, a: &str, b: &str, defaults: (&Component, &Component)) -> (r: (
        Component,
        Component,
    ))
        ensures
            r.0@ == (match self@.number(a@) {
                Some(c) => c,
                None => defaults.0@,
            }),
            r.1@ == (match self@.number(b@) {
                Some(c) => c,
                None => defaults.1@,
            }),
    {
        (self.number_or(a, defaults.0), self.number_or(b, defaults.1))
    }

    /// `min`/`max` bound, which almost every `…random` initializer carries.
    pub fn min_max(&self, defaults: (&Component, &Component)) -> (r: (Component, Component))
        ensures
            r.0@ == (match self@.number("min"@) {
                Some(c) => c,
                None => defaults.0@,
            }),
            r.1@ == (match self@.number("max"@) {
                Some(c) => c,
                None => defaults.1@,
            }),
    {
        self.number_pair("min", "max", defaults)
    }
}

/// A particle definition as it is written, section by section.
#[derive(Debug)]
pub struct RawSystem {
    pub emitter: Vec<Json>,
    pub initializer: Vec<Json>,
    pub operator: Vec<Json>,
    pub renderer: Vec<Json>,
    pub controlpoint: Vec<Json>,
    /// The names of the child systems; a child may have none.
    pub children: Option<Vec<Option<String>>>,
    pub material: Option<String>,
    pub maxcount: Option<Json>,
    pub starttime: Option<Json>,
}

/// A parsed particle system.
#[derive(Debug)]
pub struct System {
    pub emitters: Vec<Item>,
    pub initializers: Vec<Item>,
    pub operators: Vec<Item>,
    pub renderers: Vec<Item>,
    /// Child systems, resolved by the loader (each has its own definition).
    pub children: Vec<String>,
    /// Control-point offsets, of three components each, indexed by control-point id.
    /// A particle can be attached to one (a character's hand, say) instead of the
    /// object origin.
    pub control_points: BTreeMap<u64, Vec<Component>>,
    /// Material JSON naming the sprite texture.
    pub material: Option<String>,
    /// Upper bound on live particles for this system.
    pub maxcount: usize,
    /// Delay before emission begins, in seconds.
    pub starttime: Component,
}

/// The documents of a list.
pub open spec fn json_views(v: Seq<Json>) -> Seq<JsonTree> {
    Seq::new(v.len(), |i: int| v[i]@)
}

/// The behaviour that a document declares: an object with a name, whose other fields
/// are the parameters, except its identity.
pub open spec fn item_in(t: JsonTree) -> Option<ItemModel> {
    match t {
        JsonTree::Table(m) => match crate::json::text_field(t, "name"@) {
            Some(name) => Some(
                ItemModel { name, params: m.remove("name"@).remove("id"@) },
            ),
            None => None,
        },
        _ => None,
    }
}

/// The behaviours among the first `n` documents of a list.
pub open spec fn items_in(list: Seq<JsonTree>, n: int) -> Seq<ItemModel>
    decreases n,
{
    if n <= 0 {
        Seq::empty()
    } else {
        match item_in(list[n - 1]) {
            Some(item) => items_in(list, n - 1).push(item),
            None => items_in(list, n - 1),
        }
    }
}

fn item_from(v: &Json) -> (r: Option<Item>)
    ensures
        match r {
            Some(item) => item_in(v@) == Some(item@),
            None => item_in(v@) is None,
        },
{
    match v {
        Json::Table(m) => match v.text_at("name") {
            Some(name) => {
                let mut params = m.clone();
                let ghost all = v@->Table_0;
                proof {
                    assert(crate::effect::trees(params@) =~= all);
                }
                params.remove("name");
                params.remove("id");
                let item = Item { name: name.clone(), params };
                proof {
                    assert(item@.params =~= all.remove("name"@).remove("id"@));
                }
                Some(item)
            },
            None => None,
        },
        _ => None,
    }
}

fn items(list: &Vec<Json>) -> (r: Vec<Item>)
    ensures
        item_views(r@) == items_in(json_views(list@), list@.len() as int),
{
    let ghost all = json_views(list@);
    let mut out: Vec<Item> = Vec::new();
    let mut i: usize = 0;
    proof {
        assert(item_views(out@) =~= Seq::<ItemModel>::empty());
    }
    while i < list.len()
        invariant
            i <= list@.len(),
            all == json_views(list@),
            item_views(out@) == items_in(all, i as int),
        decreases list@.len() - i,
    {
        let ghost was = item_views(out@);
        proof {
            assert(all[i as int] == list@[i as int]@);
        }
        if let Some(item) = item_from(&list[i]) {
            let ghost m = item@;
            out.push(item);
            proof {
                assert(item_views(out@) =~= was.push(m));
            }
        }
        i += 1;
    }
    out
}

/// The number that is declared: a natural number, or a text that is one.
pub open spec fn count_in(t: JsonTree) -> Option<nat> {
    match t {
        JsonTree::Number(_) => match crate::json::natural_in(t) {
            Some(n) => Some(n as nat),
            None => None,
        },
        JsonTree::Text(s) => crate::numbers::natural_read(
            crate::text::trimmed(s),
            u64::MAX as nat,
        ),
        _ => None,
    }
}

/// The upper bound on live particles: a missing one, or zero, gets a sane bound.
pub open spec fn bound_in(t: Option<JsonTree>) -> usize {
    let declared = match t {
        Some(t) => match count_in(t) {
            Some(n) => n as u64 as usize,
            None => 0,
        },
        None => 0,
    };
    if declared == 0 {
        1000
    } else {
        declared
    }
}

/// The delay that is declared: zero where none is.
pub open spec fn delay_in(t: Option<JsonTree>) -> ComponentModel {
    match t {
        Some(JsonTree::Number(n)) => ComponentModel::Number(n),
        Some(JsonTree::Text(s)) => if crate::numbers::float_text(crate::text::trimmed(s)) {
            ComponentModel::Text(crate::text::trimmed(s))
        } else {
            ComponentModel::Zero
        },
        _ => ComponentModel::Zero,
    }
}

/// The offset of a control point: a text of three numbers, of which those that are
/// missing are zero.
pub open spec fn offset_in(t: JsonTree) -> Option<Seq<ComponentModel>> {
    match crate::json::field(t, "offset"@) {
        Some(JsonTree::Text(s)) => {
            let found = text_numbers(s);
            Some(
                Seq::new(
                    3,
                    |i: int|
                        if i < found.len() {
                            found[i]
                        } else {
                            ComponentModel::Zero
                        },
                ),
            )
        },
        _ => None,
    }
}

/// The id of the control point that stands at `place` in its list: the one that it
/// declares, or else its place.
pub open spec fn point_id(t: JsonTree, place: int) -> u64 {
    match crate::json::field(t, "id"@) {
        Some(v) => match count_in(v) {
            Some(n) => n as u64,
            None => place as u64,
        },
        None => place as u64,
    }
}

/// The offsets of the control points among the first `n` of a list, by their ids. Of
/// two points with one id the later one counts.
pub open spec fn offsets_in(list: Seq<JsonTree>, n: int) -> Map<u64, Seq<ComponentModel>>
    decreases n,
{
    if n <= 0 {
        Map::empty()
    } else {
        match offset_in(list[n - 1]) {
            Some(v) => offsets_in(list, n - 1).insert(point_id(list[n - 1], n - 1), v),
            None => offsets_in(list, n - 1),
        }
    }
}

/// The names among the first `n` children.
pub open spec fn names_in(list: Seq<Option<String>>, n: int) -> Seq<Seq<char>>
    decreases n,
{
    if n <= 0 {
        Seq::empty()
    } else {
        match list[n - 1] {
            Some(s) => names_in(list, n - 1).push(s@),
            None => names_in(list, n - 1),
        }
    }
}

fn declared_count(j: &Json) -> (r: Option<u64>)
    ensures
        match r {
            Some(n) => count_in(j@) == Some(n as nat),
            None => count_in(j@) is None,
        },
{
    match j {
        Json::Number(_) => j.as_u64(),
        Json::Text(s) => {
            let all = chars_of(s.as_str());
            parse_natural(trim(all.as_slice()), u64::MAX)
        },
        _ => None,
    }
}

fn count_from(v: &Option<Json>) -> (r: usize)
    ensures
        r == bound_in(crate::settings::opt_tree(*v)),
{
    let declared: usize = match v {
        Some(j) => match declared_count(j) {
            Some(n) => n as usize,
            None => 0,
        },
        None => 0,
    };
    if declared == 0 {
        1000
    } else {
        declared
    }
}

fn delay_from(v: &Option<Json>) -> (r: Component)
    ensures
        r@ == delay_in(crate::settings::opt_tree(*v)),
{
    match v {
        Some(Json::Number(n)) => Component::Number(n.copy()),
        Some(Json::Text(s)) => {
            let all = chars_of(s.as_str());
            let t = trim(all.as_slice());
            if reads_as_float(t) {
                Component::Text(string_of(t))
            } else {
                Component::Zero
            }
        },
        _ => Component::Zero,
    }
}

fn offset_from(j: &Json) -> (r: Option<Vec<Component>>)
    ensures
        opt_vector(r) == offset_in(j@),
{
    match j.get("offset") {
        Some(Json::Text(s)) => {
            let found = text_components(s.as_str());
            let ghost model = text_numbers(s@);
            proof {
                assert(model.len() == found@.len());
            }
            let mut out: Vec<Component> = Vec::new();
            let mut i: usize = 0;
            while i < 3
                invariant
                    i <= 3,
                    out@.len() == i,
                    model == crate::scene::component_views(found@),
                    forall|k: int|
                        0 <= k < i ==> (#[trigger] out@[k])@ == (if k < model.len() {
                            model[k]
                        } else {
                            ComponentModel::Zero
                        }),
                decreases 3 - i,
            {
                if i < found.len() {
                    proof {
                        assert(model[i as int] == found@[i as int]@);
                    }
                    out.push(found[i].copy());
                } else {
                    out.push(Component::Zero);
                }
                i += 1;
            }
            proof {
                assert(crate::scene::component_views(out@) =~= offset_in(j@)->Some_0);
            }
            Some(out)
        },
        _ => None,
    }
}

/// What the vectors of a map stand for.
pub open spec fn vector_views(m: Map<u64, Vec<Component>>) -> Map<u64, Seq<ComponentModel>> {
    Map::new(|k: u64| m.dom().contains(k), |k: u64| crate::scene::component_views(m[k]@))
}

fn id_from(j: &Json, place: usize) -> (r: u64)
    ensures
        r == point_id(j@, place as int),
{
    match j.get("id") {
        Some(v) => match declared_count(v) {
            Some(n) => n,
            None => place as u64,
        },
        None => place as u64,
    }
}

fn offsets(list: &Vec<Json>) -> (r: BTreeMap<u64, Vec<Component>>)
    ensures
        vector_views(r@) == offsets_in(json_views(list@), list@.len() as int),
{
    broadcast use vstd::std_specs::btree::group_btree_axioms;

    let ghost all = json_views(list@);
    let mut out: BTreeMap<u64, Vec<Component>> = BTreeMap::new();
    let mut i: usize = 0;
    proof {
        assert(vector_views(out@) =~= Map::<u64, Seq<ComponentModel>>::empty());
    }
    while i < list.len()
        invariant
            i <= list@.len(),
            all == json_views(list@),
            vector_views(out@) == offsets_in(all, i as int),
        decreases list@.len() - i,
    {
        let ghost was = vector_views(out@);
        proof {
            assert(all[i as int] == list@[i as int]@);
        }
        if let Some(v) = offset_from(&list[i]) {
            let ghost m = crate::scene::component_views(v@);
            let id = id_from(&list[i], i);
            let _gone = out.insert(id, v);
            proof {
                assert(vector_views(out@) =~= was.insert(id, m));
            }
        }
        i += 1;
    }
    out
}

fn names(list: &Vec<Option<String>>) -> (r: Vec<String>)
    ensures
        crate::text::texts(r@) == names_in(list@, list@.len() as int),
{
    let mut out: Vec<String> = Vec::new();
    let mut i: usize = 0;
    proof {
        assert(crate::text::texts(out@) =~= Seq::<Seq<char>>::empty());
    }
    while i < list.len()
        invariant
            i <= list@.len(),
            crate::text::texts(out@) == names_in(list@, i as int),
        decreases list@.len() - i,
    {
        let ghost was = crate::text::texts(out@);
        if let Some(s) = &list[i] {
            out.push(s.clone());
            proof {
                assert(crate::text::texts(out@) =~= was.push(s@));
            }
        }
        i += 1;
    }
    out
}

impl System {
    /// Whether the system has anything to draw. A system with no emitter (a
    /// pure child) spawns nothing on its own.
    pub fn is_empty(&self) -> (r: bool)
        ensures
            r == (self.emitters@.len() == 0),
    {
        self.emitters.len() == 0
    }
}

/// The particle system that a definition declares. Missing sections are empty, never
/// an error.
pub fn parse(raw: &RawSystem) -> (r: System)
    ensures
        item_views(r.emitters@) == items_in(json_views(raw.emitter@), raw.emitter@.len() as int),
        item_views(r.initializers@) == items_in(
            json_views(raw.initializer@),
            raw.initializer@.len() as int,
        ),
        item_views(r.operators@) == items_in(
            json_views(raw.operator@),
            raw.operator@.len() as int,
        ),
        item_views(r.renderers@) == items_in(
            json_views(raw.renderer@),
            raw.renderer@.len() as int,
        ),
        crate::text::texts(r.children@) == (match raw.children {
            Some(list) => names_in(list@, list@.len() as int),
            None => Seq::empty(),
        }),
        vector_views(r.control_points@) == offsets_in(
            json_views(raw.controlpoint@),
            raw.controlpoint@.len() as int,
        ),
        crate::text::opt_text(r.material) == crate::text::opt_text(raw.material),
        r.maxcount == bound_in(crate::settings::opt_tree(raw.maxcount)),
        r.starttime@ == delay_in(crate::settings::opt_tree(raw.starttime)),
{
    let children = match &raw.children {
        Some(list) => names(list),
        None => Vec::new(),
    };
    proof {
        if raw.children is None {
            assert(crate::text::texts(children@) =~= Seq::<Seq<char>>::empty());
        }
    }
    System {
        emitters: items(&raw.emitter),
        initializers: items(&raw.initializer),
        operators: items(&raw.operator),
        renderers: items(&raw.renderer),
        children,
        control_points: offsets(&raw.controlpoint),
        material: opt_copy(raw.material.as_ref()),
        maxcount: count_from(&raw.maxcount),
        starttime: delay_from(&raw.starttime),
    }
}

/// The first element of a list under a key.
pub open spec fn first_under(t: JsonTree, key: Seq<char>) -> Option<JsonTree> {
    match crate::json::field(t, key) {
        Some(JsonTree::List(a)) => if a.len() > 0 {
            Some(a[0])
        } else {
            None
        },
        _ => None,
    }
}

/// The first texture under `textures`.
pub open spec fn first_texture(t: JsonTree) -> Option<Seq<char>> {
    match first_under(t, "textures"@) {
        Some(v) => crate::json::text_in(v),
        None => None,
    }
}

/// The sprite texture of a material: that of its first pass, or else that of the whole.
pub open spec fn texture_in(t: JsonTree) -> Option<Seq<char>> {
    match first_under(t, "passes"@) {
        None => None,
        Some(pass) => match first_texture(pass) {
            Some(s) => Some(s),
            None => first_texture(t),
        },
    }
}

fn first_of<'a>(j: &'a Json, key: &str) -> (r: Option<&'a Json>)
    ensures
        match r {
            Some(v) => first_under(j@, key@) == Some(v@),
            None => first_under(j@, key@) is None,
        },
{
    match j.get(key) {
        Some(Json::List(a)) => if a.len() > 0 {
            Some(&a[0])
        } else {
            None
        },
        _ => None,
    }
}

fn texture_of(j: &Json) -> (r: Option<String>)
    ensures
        crate::text::opt_text(r) == first_texture(j@),
{
    match first_of(j, "textures") {
        Some(v) => opt_copy(v.as_str()),
        None => None,
    }
}

/// The sprite texture of a material document.
///
/// A particle material is the same shape as an image material: a `passes`
/// array whose first pass carries `textures`. They may live on the pass or be
/// inherited from a parent material, so the top-level `textures` are scanned too.
pub fn texture_in_material(material: &Json) -> (r: Option<String>)
    ensures
        crate::text::opt_text(r) == texture_in(material@),
{
    match first_of(material, "passes") {
        None => None,
        Some(pass) => match texture_of(pass) {
            Some(s) => Some(s),
            None => texture_of(material),
        },
    }
}

/// A material's sprite texture, if it resolves to one.
pub fn material_texture(material_json: &str) -> (r: Option<String>)
    ensures
        crate::text::opt_text(r) == (match crate::json::json_read(material_json@) {
            Some(t) => texture_in(t),
            None => None,
        }),
{
    match parse_json(material_json) {
        Some(j) => texture_in_material(&j),
        None => None,
    }
}

/// The behaviours that are known, section by section.
pub open spec fn known_behaviours() -> Seq<(Seq<char>, Seq<Seq<char>>)> {
    seq![
        ("emitter"@, seq!["sphererandom"@, "boxrandom"@]),
        (
            "initializer"@,
            seq![
                "lifetimerandom"@,
                "sizerandom"@,
                "colorrandom"@,
                "velocityrandom"@,
                "rotationrandom"@,
                "turbulentvelocityrandom"@,
                "alpharandom"@,
                "angularvelocityrandom"@,
                "mapsequencebetweencontrolpoints"@,
                "mapsequencearoundcontrolpoint"@,
            ],
        ),
        (
            "operator"@,
            seq![
                "movement"@,
                "alphafade"@,
                "alphachange"@,
                "sizechange"@,
                "colorchange"@,
                "oscillatealpha"@,
                "oscillatesize"@,
                "oscillateposition"@,
                "turbulence"@,
                "angularmovement"@,
                "vortex"@,
                "controlpointattract"@,
            ],
        ),
        ("renderer"@, seq!["sprite"@, "spritetrail"@, "ropetrail"@, "rope"@]),
    ]
}

/// The texts of a list.
pub open spec fn str_views(v: Seq<&'static str>) -> Seq<Seq<char>> {
    Seq::new(v.len(), |i: int| v[i]@)
}

/// Support all sections for a name, for the coverage report: the sections by name, each
/// with the behaviours that are known.
pub fn vocabularies() -> (r: Vec<(&'static str, Vec<&'static str>)>)
    ensures
        Seq::new(r@.len(), |i: int| (r@[i].0@, str_views(r@[i].1@))) == known_behaviours(),
{
    let emitter: Vec<&'static str> = vec!["sphererandom", "boxrandom"];
    let initializer: Vec<&'static str> = vec![
        "lifetimerandom",
        "sizerandom",
        "colorrandom",
        "velocityrandom",
        "rotationrandom",
        "turbulentvelocityrandom",
        "alpharandom",
        "angularvelocityrandom",
        "mapsequencebetweencontrolpoints",
        "mapsequencearoundcontrolpoint",
    ];
    let operator: Vec<&'static str> = vec![
        "movement",
        "alphafade",
        "alphachange",
        "sizechange",
        "colorchange",
        "oscillatealpha",
        "oscillatesize",
        "oscillateposition",
        "turbulence",
        "angularmovement",
        "vortex",
        "controlpointattract",
    ];
    let renderer: Vec<&'static str> = vec!["sprite", "spritetrail", "ropetrail", "rope"];
    proof {
        let k = known_behaviours();
        assert(str_views(emitter@) =~= k[0].1);
        assert(str_views(initializer@) =~= k[1].1);
        assert(str_views(operator@) =~= k[2].1);
        assert(str_views(renderer@) =~= k[3].1);
    }
    let mut out: Vec<(&'static str, Vec<&'static str>)> = Vec::new();
    out.push(("emitter", emitter));
    out.push(("initializer", initializer));
    out.push(("operator", operator));
    out.push(("renderer", renderer));
    proof {
        assert(Seq::new(out@.len(), |i: int| (out@[i].0@, str_views(out@[i].1@)))
            =~= known_behaviours());
    }
    out
}

/// A behaviour that is not known, and a parameter that is not, are kept: any object
/// with a name is a behaviour, and all its other fields but the identity are
/// parameters.
pub proof fn law_unknown_behaviours_are_data(
    m: Map<Seq<char>, JsonTree>,
    name: Seq<char>,
    key: Seq<char>,
)
    requires
        m.dom().contains("name"@),
        m["name"@] == JsonTree::Text(name),
        m.dom().contains(key),
        key != "name"@,
        key != "id"@,
    ensures
        item_in(JsonTree::Table(m)) matches Some(item) && item.name == name
            && item.params.dom().contains(key) && item.params[key] == m[key],
{
}

/// No particle system is without a bound.
pub proof fn law_particles_are_bounded(t: Option<JsonTree>)
    ensures
        bound_in(t) >= 1,
{
}

/// A control point is found under its id, whatever its place in the list.
pub proof fn law_points_are_found_by_id(list: Seq<JsonTree>, i: int)
    requires
        0 <= i < list.len(),
        offset_in(list[i]) is Some,
        forall|j: int|
            i < j < list.len() && offset_in(list[j]) is Some ==> point_id(#[trigger] list[j], j)
                != point_id(list[i], i),
    ensures
        offsets_in(list, list.len() as int).dom().contains(point_id(list[i], i)),
        offsets_in(list, list.len() as int)[point_id(list[i], i)] == offset_in(list[i])->Some_0,
{
    lemma_point_stays(list, i, list.len() as int);
}

proof fn lemma_point_stays(list: Seq<JsonTree>, i: int, n: int)
    requires
        0 <= i < n <= list.len(),
        offset_in(list[i]) is Some,
        forall|j: int|
            i < j < list.len() && offset_in(list[j]) is Some ==> point_id(#[trigger] list[j], j)
                != point_id(list[i], i),
    ensures
        offsets_in(list, n).dom().contains(point_id(list[i], i)),
        offsets_in(list, n)[point_id(list[i], i)] == offset_in(list[i])->Some_0,
    decreases n,
{
    if n > i + 1 {
        lemma_point_stays(list, i, n - 1);
        assert(offset_in(list[n - 1]) is Some ==> point_id(list[n - 1], n - 1) != point_id(
            list[i],
            i,
        ));
    }
}

/// A parameter is a number where it is one, or where the first word of its text is.
pub proof fn law_parameters_are_numbers(n: NumberModel, s: Seq<char>, words: Seq<Seq<char>>)
    requires
        crate::text::words_of(s) == words,
    ensures
        number_in(JsonTree::Number(n)) == Some(ComponentModel::Number(n)),
        words.len() > 0 && crate::numbers::float_text(words[0]) ==> number_in(JsonTree::Text(s))
            == Some(ComponentModel::Text(words[0])),
        words.len() == 0 || !crate::numbers::float_text(words[0]) ==> number_in(JsonTree::Text(s))
            is None,
        number_in(JsonTree::Null) is None,
{
}

/// A parameter is a vector: three numbers in their order, or one for all three.
pub proof fn law_parameters_are_vectors(
    s: Seq<char>,
    a: Seq<char>,
    b: Seq<char>,
    c: Seq<char>,
    n: NumberModel,
    m: NumberModel,
    k: NumberModel,
)
    requires
        crate::numbers::float_text(a),
        crate::numbers::float_text(b),
        crate::numbers::float_text(c),
    ensures
        crate::text::words_of(s) == seq![a, b, c] ==> vector_in(JsonTree::Text(s)) == Some(
            seq![ComponentModel::Text(a), ComponentModel::Text(b), ComponentModel::Text(c)],
        ),
        crate::text::words_of(s) == seq![a] ==> vector_in(JsonTree::Text(s)) == Some(
            seq![ComponentModel::Text(a), ComponentModel::Text(a), ComponentModel::Text(a)],
        ),
        vector_in(JsonTree::Number(n)) == Some(
            seq![ComponentModel::Number(n), ComponentModel::Number(n), ComponentModel::Number(n)],
        ),
        vector_in(
            JsonTree::List(seq![JsonTree::Number(n), JsonTree::Number(m), JsonTree::Number(k)]),
        ) == Some(
            seq![ComponentModel::Number(n), ComponentModel::Number(m), ComponentModel::Number(k)],
        ),
        vector_in(JsonTree::List(seq![JsonTree::Number(n), JsonTree::Number(m)])) == Some(
            seq![ComponentModel::Number(n), ComponentModel::Number(m), ComponentModel::Number(n)],
        ),
        vector_in(JsonTree::List(Seq::empty())) is None,
{
    reveal_with_fuel(crate::properties::numbers_among, 4);
    reveal_with_fuel(crate::properties::numbers_in, 4);
    let found = crate::properties::numbers_in(
        seq![JsonTree::Number(n), JsonTree::Number(m), JsonTree::Number(k)],
        3,
    );
    assert(found =~= seq![n, m, k]);
}

/// Parameters are found under their own keys.
pub proof fn law_parameters_have_their_keys(item: ItemModel, key: Seq<char>)
    ensures
        item.params.dom().contains(key) ==> item.number(key) == number_in(item.params[key])
            && item.vector(key) == vector_in(item.params[key]),
        !item.params.dom().contains(key) ==> item.number(key) is None && item.vector(key) is None,
{
}

/// Behaviours keep their order, and what has no name is none.
pub proof fn law_behaviours_keep_their_order(list: Seq<JsonTree>, m: Map<Seq<char>, JsonTree>)
    ensures
        ({
            let more = list.push(JsonTree::Table(m));
            let all = items_in(more, more.len() as int);
            let before = items_in(list, list.len() as int);
            &&& crate::effect::says_no_text(m, "name"@) ==> all == before
            &&& !crate::effect::says_no_text(m, "name"@) ==> all.len() == before.len() + 1
                && all.drop_last() == before && JsonTree::Text(all.last().name) == m["name"@]
        }),
{
    lemma_items_prefix(list, JsonTree::Table(m), list.len() as int);
    let before = items_in(list, list.len() as int);
    if !crate::effect::says_no_text(m, "name"@) {
        let item = item_in(JsonTree::Table(m))->Some_0;
        assert(before.push(item).drop_last() =~= before);
    }
}

proof fn lemma_items_prefix(list: Seq<JsonTree>, t: JsonTree, n: int)
    requires
        0 <= n <= list.len(),
    ensures
        items_in(list.push(t), n) == items_in(list, n),
    decreases n,
{
    if n > 0 {
        lemma_items_prefix(list, t, n - 1);
        assert(list.push(t)[n - 1] == list[n - 1]);
    }
}

/// The bound on particles is what is declared, as a number or as the text of one, or a
/// thousand; the delay is what is declared, or none.
pub proof fn law_bound_and_delay_are_declared(n: u64, x: NumberModel, s: Seq<char>)
    requires
        0 < n <= usize::MAX,
    ensures
        bound_in(Some(JsonTree::Number(NumberModel::Natural(n)))) == n,
        crate::numbers::natural_read(crate::text::trimmed(s), u64::MAX as nat) == Some(n as nat)
            ==> bound_in(Some(JsonTree::Text(s))) == n,
        bound_in(None) == 1000,
        bound_in(Some(JsonTree::Number(NumberModel::Natural(0)))) == 1000,
        delay_in(Some(JsonTree::Number(x))) == ComponentModel::Number(x),
        crate::numbers::float_text(crate::text::trimmed(s)) ==> delay_in(Some(JsonTree::Text(s)))
            == ComponentModel::Text(crate::text::trimmed(s)),
        delay_in(None) == ComponentModel::Zero,
{
}

/// A control point's offset is its three numbers in their order, what is missing being
/// zero; its id is what it declares, or its place.
pub proof fn law_points_have_their_offset_and_id(
    m: Map<Seq<char>, JsonTree>,
    s: Seq<char>,
    words: Seq<Seq<char>>,
    i: int,
    id: u64,
    place: u64,
)
    requires
        crate::text::words_of(s) == words,
        forall|k: int| 0 <= k < words.len() ==> crate::numbers::float_text(#[trigger] words[k]),
        0 <= i < 3,
    ensures
        crate::effect::says(m, "offset"@, JsonTree::Text(s)) ==> (offset_in(JsonTree::Table(m))
            matches Some(v) && v.len() == 3 && v[i] == (if i < words.len() {
            ComponentModel::Text(words[i])
        } else {
            ComponentModel::Zero
        })),
        !m.dom().contains("offset"@) ==> offset_in(JsonTree::Table(m)) is None,
        crate::effect::says(m, "id"@, JsonTree::Number(NumberModel::Natural(id))) ==> point_id(
            JsonTree::Table(m),
            place as int,
        ) == id,
        !m.dom().contains("id"@) ==> point_id(JsonTree::Table(m), place as int) == place,
{
    lemma_all_numbers_among(words, words.len() as int);
    assert(words.take(words.len() as int) =~= words);
}

proof fn lemma_all_numbers_among(words: Seq<Seq<char>>, n: int)
    requires
        0 <= n <= words.len(),
        forall|k: int| 0 <= k < words.len() ==> crate::numbers::float_text(#[trigger] words[k]),
    ensures
        crate::properties::numbers_among(words, n) == words.take(n),
    decreases n,
{
    if n > 0 {
        lemma_all_numbers_among(words, n - 1);
        assert(crate::numbers::float_text(words[n - 1]));
        assert(words.take(n - 1).push(words[n - 1]) =~= words.take(n));
    } else {
        assert(words.take(n) =~= Seq::<Seq<char>>::empty());
    }
}

/// The sprite texture is the first texture of the first pass, or else of the material.
pub proof fn law_the_first_texture_is_the_sprite(
    m: Map<Seq<char>, JsonTree>,
    p: Map<Seq<char>, JsonTree>,
    passes: Seq<JsonTree>,
    textures: Seq<JsonTree>,
    s: Seq<char>,
)
    requires
        crate::effect::says(m, "passes"@, JsonTree::List(passes)),
        passes.len() > 0,
        passes[0] == JsonTree::Table(p),
        textures.len() > 0,
        textures[0] == JsonTree::Text(s),
    ensures
        crate::effect::says(p, "textures"@, JsonTree::List(textures)) ==> texture_in(
            JsonTree::Table(m),
        ) == Some(s),
        !p.dom().contains("textures"@) && crate::effect::says(
            m,
            "textures"@,
            JsonTree::List(textures),
        ) ==> texture_in(JsonTree::Table(m)) == Some(s),
{
}

/// A parameter that is there is taken, and its default where it is not; of a pair each is
/// taken under its own key, and the bounds are those under `min` and `max`.
pub proof fn law_defaults_stand_for_what_is_missing(
    item: Item,
    a: &str,
    b: &str,
    x: Component,
    y: Component,
    one: Component,
    pair: (Component, Component),
    bounds: (Component, Component),
)
    requires
        call_ensures(Item::number_or, (&item, a, &x), one),
        call_ensures(Item::number_pair, (&item, a, b, (&x, &y)), pair),
        call_ensures(Item::min_max, (&item, (&x, &y)), bounds),
    ensures
        item@.number(a@) is None ==> one@ == x@ && pair.0@ == x@,
        item@.number(b@) is None ==> pair.1@ == y@,
        item@.number(a@) matches Some(c) ==> one@ == c && pair.0@ == c,
        item@.number(b@) matches Some(c) ==> pair.1@ == c,
        a@ == "min"@ ==> bounds.0@ == one@,
        b@ == "max"@ ==> bounds.1@ == pair.1@,
{
}

} // verus!
