//! Wallpaper Engine **user properties** - the settings a creator exposes and a
//! user tunes per wallpaper.
//!
//! A scene's `project.json` (and the `scene.json` inside its package) carries a
//! `general.properties` object: a map of property key -> declaration. Those
//! declarations are what appear in the engine's wallpaper settings panel, and
//! the values a user picks are what make two installs of the same wallpaper
//! differ. Supporting them is not per-wallpaper work: the *types* are a closed
//! set of nine, and every wallpaper is a combination of them.
//!
//! Two rules keep this generic rather than a table of special cases:
//!
//! - **An unknown type is kept, not dropped.** A future engine version adding a
//!   type must degrade to "shown, value passed through", never to "property
//!   missing".
//! - **Unknown declaration fields are preserved.** Creators and the editor add
//!   keys over time (`precision`, `fraction`, `order`, …); anything not modelled
//!   is carried in `extra` so a round-trip back to disk does not lose it.
use vstd::prelude::*;
use crate::json::{Json, JsonNumber, JsonTree, NumberModel};
use crate::numbers::reads_as_float;
use crate::sliders::slide;
use crate::strmap::StrMap;
use crate::text::{
    chars_of, is_text, lowered, push_text, quoted, rest, same_text, string_of, trim, words,
};

verus! {

/// The kind of a user property, as its `type` string states it.
#[derive(Debug, Clone, PartialEq, Eq, PartialOrd, Ord)]
pub enum PropertyKind {
    /// A checkbox.
    Bool,
    /// A number within `min..max`.
    Slider,
    /// An `"r g b"` colour triple.
    Color,
    /// A dropdown of `options`.
    Combo,
    /// A free-text field.
    TextInput,
    /// A replacement for a texture in the package.
    Texture,
    /// A file/folder/url/command the wallpaper can trigger.
    UserShortcut,
    /// A heading that groups the properties under it.
    Group,
    /// A static label.
    Text,
    /// Anything this crate does not model yet - preserved verbatim.
    Other(String),
}

/// What a kind stands for.
pub ghost enum KindModel {
    Bool,
    Slider,
    Color,
    Combo,
    TextInput,
    Texture,
    UserShortcut,
    Group,
    Text,
    Other(Seq<char>),
}

impl View for PropertyKind {
    type V = KindModel;

    open spec fn view(&self) -> KindModel {
        match self {
            PropertyKind::Bool => KindModel::Bool,
            PropertyKind::Slider => KindModel::Slider,
            PropertyKind::Color => KindModel::Color,
            PropertyKind::Combo => KindModel::Combo,
            PropertyKind::TextInput => KindModel::TextInput,
            PropertyKind::Texture => KindModel::Texture,
            PropertyKind::UserShortcut => KindModel::UserShortcut,
            PropertyKind::Group => KindModel::Group,
            PropertyKind::Text => KindModel::Text,
            PropertyKind::Other(s) => KindModel::Other(s@),
        }
    }
}

/// The kind that a `type` string names.
pub open spec fn kind_named(s: Seq<char>) -> KindModel {
    if s == "bool"@ {
        KindModel::Bool
    } else if s == "slider"@ {
        KindModel::Slider
    } else if s == "color"@ {
        KindModel::Color
    } else if s == "combo"@ {
        KindModel::Combo
    } else if s == "textinput"@ {
        KindModel::TextInput
    } else if s == "texture"@ || s == "scenetexture"@ {
        KindModel::Texture
    } else if s == "usershortcut"@ {
        KindModel::UserShortcut
    } else if s == "group"@ {
        KindModel::Group
    } else if s == "text"@ {
        KindModel::Text
    } else {
        KindModel::Other(s)
    }
}

impl KindModel {
    /// The `type` string of a kind.
    pub open spec fn name(self) -> Seq<char> {
        match self {
            KindModel::Bool => "bool"@,
            KindModel::Slider => "slider"@,
            KindModel::Color => "color"@,
            KindModel::Combo => "combo"@,
            KindModel::TextInput => "textinput"@,
            KindModel::Texture => "texture"@,
            KindModel::UserShortcut => "usershortcut"@,
            KindModel::Group => "group"@,
            KindModel::Text => "text"@,
            KindModel::Other(s) => s,
        }
    }

    /// The kind as an error names it.
    pub open spec fn shown(self) -> Seq<char> {
        match self {
            KindModel::Bool => "Bool"@,
            KindModel::Slider => "Slider"@,
            KindModel::Color => "Color"@,
            KindModel::Combo => "Combo"@,
            KindModel::TextInput => "TextInput"@,
            KindModel::Texture => "Texture"@,
            KindModel::UserShortcut => "UserShortcut"@,
            KindModel::Group => "Group"@,
            KindModel::Text => "Text"@,
            KindModel::Other(s) => "Other("@ + crate::text::in_quotes(s) + seq![')'],
        }
    }

    /// Whether a user can set a value of this kind.
    pub open spec fn editable(self) -> bool {
        !(self is Group) && !(self is Text)
    }
}

impl PropertyKind {
    pub fn parse(s: &str) -> (r: Self)
        ensures
            r@ == kind_named(s@),
    {
        if same_text(s, "bool") {
            PropertyKind::Bool
        } else if same_text(s, "slider") {
            PropertyKind::Slider
        } else if same_text(s, "color") {
            PropertyKind::Color
        } else if same_text(s, "combo") {
            PropertyKind::Combo
        } else if same_text(s, "textinput") {
            PropertyKind::TextInput
        } else if same_text(s, "texture") || same_text(s, "scenetexture") {
            PropertyKind::Texture
        } else if same_text(s, "usershortcut") {
            PropertyKind::UserShortcut
        } else if same_text(s, "group") {
            PropertyKind::Group
        } else if same_text(s, "text") {
            PropertyKind::Text
        } else {
            PropertyKind::Other(s.to_string())
        }
    }

    pub fn as_str(&self) -> (r: &str)
        ensures
            r@ == self@.name(),
    {
        match self {
            PropertyKind::Bool => "bool",
            PropertyKind::Slider => "slider",
            PropertyKind::Color => "color",
            PropertyKind::Combo => "combo",
            PropertyKind::TextInput => "textinput",
            PropertyKind::Texture => "texture",
            PropertyKind::UserShortcut => "usershortcut",
            PropertyKind::Group => "group",
            PropertyKind::Text => "text",
            PropertyKind::Other(s) => s.as_str(),
        }
    }

    /// The kind as an error names it.
    pub(crate) fn shown(&self) -> (r: String)
        ensures
            r@ == self@.shown(),
    {
        match self {
            PropertyKind::Bool => "Bool".to_string(),
            PropertyKind::Slider => "Slider".to_string(),
            PropertyKind::Color => "Color".to_string(),
            PropertyKind::Combo => "Combo".to_string(),
            PropertyKind::TextInput => "TextInput".to_string(),
            PropertyKind::Texture => "Texture".to_string(),
            PropertyKind::UserShortcut => "UserShortcut".to_string(),
            PropertyKind::Group => "Group".to_string(),
            PropertyKind::Text => "Text".to_string(),
            PropertyKind::Other(s) => {
                let mut out = "Other(".to_string();
                push_text(&mut out, quoted(s.as_str()).as_str());
                out.push(')');
                proof {
                    assert(out@ =~= "Other("@ + crate::text::in_quotes(s@) + seq![')']);
                }
                out
            },
        }
    }

    /// A copy of the kind.
    pub fn copy(&self) -> (r: Self)
        ensures
            r@ == self@,
    {
        match self {
            PropertyKind::Bool => PropertyKind::Bool,
            PropertyKind::Slider => PropertyKind::Slider,
            PropertyKind::Color => PropertyKind::Color,
            PropertyKind::Combo => PropertyKind::Combo,
            PropertyKind::TextInput => PropertyKind::TextInput,
            PropertyKind::Text => PropertyKind::Text,
            PropertyKind::Group => PropertyKind::Group,
            PropertyKind::Texture => PropertyKind::Texture,
            PropertyKind::UserShortcut => PropertyKind::UserShortcut,
            PropertyKind::Other(s) => PropertyKind::Other(s.clone()),
        }
    }

    /// Whether this kind holds a value a user can set. `group`/`text` are
    /// layout only, which is why the count of *editable* properties is lower
    /// than the raw property count.
    pub fn is_editable(&self) -> (r: bool)
        ensures
            r == self@.editable(),
    {
        match self {
            PropertyKind::Group => false,
            PropertyKind::Text => false,
            _ => true,
        }
    }
}

/// A kind is read back from its own name, and an unknown name is kept as it is; the
/// one name that is not written back is the second of a texture's two.
pub proof fn law_kind_names_are_read_back(s: Seq<char>)
    ensures
        s != "scenetexture"@ ==> kind_named(s).name() == s,
        kind_named(kind_named(s).name()) == kind_named(s),
{
    reveal_strlit("scenetexture");
    reveal_strlit("texture");
    reveal_strlit("bool");
    reveal_strlit("slider");
    reveal_strlit("color");
    reveal_strlit("combo");
    reveal_strlit("textinput");
    assert("texture"@.len() == 7);
    assert("textinput"@.len() == 9);
    assert("slider"@.len() == 6);
    assert("bool"@.len() == 4);
    assert("color"@.len() == 5);
    assert("combo"@.len() == 5);
}

/// One option of a `combo` property.
#[derive(Debug, Clone, PartialEq, Eq)]
pub struct ComboOption {
    pub label: String,
    pub value: String,
}

/// What an option stands for.
pub ghost struct OptionModel {
    pub label: Seq<char>,
    pub value: Seq<char>,
}

impl View for ComboOption {
    type V = OptionModel;

    open spec fn view(&self) -> OptionModel {
        OptionModel { label: self.label@, value: self.value@ }
    }
}

/// What the options of a list stand for.
pub open spec fn option_views(v: Seq<ComboOption>) -> Seq<OptionModel> {
    Seq::new(v.len(), |i: int| v[i]@)
}

/// A slider's bounds, defaulted the way the editor defaults them.
#[derive(Debug, Clone, PartialEq, Eq)]
pub struct SliderRange {
    pub min: JsonNumber,
    pub max: JsonNumber,
    pub step: Option<JsonNumber>,
    pub precision: Option<u32>,
    pub fraction: bool,
}

/// What a range stands for.
pub ghost struct RangeModel {
    pub min: NumberModel,
    pub max: NumberModel,
    pub step: Option<NumberModel>,
    pub precision: Option<u32>,
    pub fraction: bool,
}

/// The number that an optional one stands for.
pub open spec fn opt_number(n: Option<JsonNumber>) -> Option<NumberModel> {
    match n {
        Some(x) => Some(x@),
        None => None,
    }
}

impl View for SliderRange {
    type V = RangeModel;

    open spec fn view(&self) -> RangeModel {
        RangeModel {
            min: self.min@,
            max: self.max@,
            step: opt_number(self.step),
            precision: self.precision,
            fraction: self.fraction,
        }
    }
}

/// The range from zero to one.
pub open spec fn unit_range() -> RangeModel {
    RangeModel {
        min: NumberModel::Natural(0),
        max: NumberModel::Natural(1),
        step: None,
        precision: None,
        fraction: false,
    }
}

impl Default for SliderRange {
    fn default() -> (r: Self)
        ensures
            r@ == unit_range(),
    {
        SliderRange {
            min: JsonNumber::Natural(0),
            max: JsonNumber::Natural(1),
            step: None,
            precision: None,
            fraction: false,
        }
    }
}

/// A single user property declaration.
#[derive(Debug, PartialEq, Eq)]
pub struct Property {
    /// The `general.properties` key - the identity used in saved values and in
    /// `usershadervalues` bindings.
    pub key: String,
    pub kind: PropertyKind,
    /// The value as declared, which doubles as the default.
    pub value: Json,
    /// Human label shown in the panel.
    pub text: String,
    /// Sort key the editor assigns; `index` breaks ties.
    pub order: Option<u32>,
    pub index: Option<u32>,
    /// Present for `slider`.
    pub range: Option<SliderRange>,
    /// Present for `combo`.
    pub options: Vec<ComboOption>,
    /// Declaration fields this crate does not model, kept so a write-back does
    /// not silently drop a newer engine's additions.
    pub extra: StrMap<Json>,
}

/// What a property stands for.
#[verifier::ext_equal]
pub ghost struct PropertyModel {
    pub key: Seq<char>,
    pub kind: KindModel,
    pub value: JsonTree,
    pub text: Seq<char>,
    pub order: Option<u32>,
    pub index: Option<u32>,
    pub range: Option<RangeModel>,
    pub options: Seq<OptionModel>,
    pub extra: Map<Seq<char>, JsonTree>,
}

impl View for Property {
    type V = PropertyModel;

    open spec fn view(&self) -> PropertyModel {
        PropertyModel {
            key: self.key@,
            kind: self.kind@,
            value: self.value@,
            text: self.text@,
            order: self.order,
            index: self.index,
            range: match self.range {
                Some(r) => Some(r@),
                None => None,
            },
            options: option_views(self.options@),
            extra: crate::effect::trees(self.extra@),
        }
    }
}

/// The entries that a declaration stands for: its own where it is a table, and its
/// value alone where it is a bare one.
pub open spec fn declared_fields(decl: JsonTree) -> Map<Seq<char>, JsonTree> {
    match decl {
        JsonTree::Table(m) => m,
        _ => Map::empty().insert("value"@, decl),
    }
}

/// Whether a field of a declaration is modelled.
pub open spec fn is_modelled(k: Seq<char>) -> bool {
    k == "type"@ || k == "value"@ || k == "text"@ || k == "order"@ || k == "index"@ || k == "min"@
        || k == "max"@ || k == "step"@ || k == "precision"@ || k == "fraction"@ || k == "options"@
}

/// The number under a key.
pub open spec fn number_field(m: Map<Seq<char>, JsonTree>, key: Seq<char>) -> Option<NumberModel> {
    match crate::json::field(JsonTree::Table(m), key) {
        Some(JsonTree::Number(n)) => Some(n),
        _ => None,
    }
}

/// The natural number under a key, cut to 32 bits.
pub open spec fn short_field(m: Map<Seq<char>, JsonTree>, key: Seq<char>) -> Option<u32> {
    match crate::json::field(JsonTree::Table(m), key) {
        Some(v) => match crate::json::natural_in(v) {
            Some(n) => Some(n as u32),
            None => None,
        },
        None => None,
    }
}

/// The option that a document is, where it has a label and a value.
pub open spec fn option_in(t: JsonTree) -> Option<OptionModel> {
    match (crate::json::text_field(t, "label"@), crate::json::text_field(t, "value"@)) {
        (Some(label), Some(value)) => Some(OptionModel { label, value }),
        _ => None,
    }
}

/// The options among the first `n` documents of a list.
pub open spec fn options_in(list: Seq<JsonTree>, n: int) -> Seq<OptionModel>
    decreases n,
{
    if n <= 0 {
        Seq::empty()
    } else {
        let before = options_in(list, n - 1);
        match option_in(list[n - 1]) {
            Some(o) => before.push(o),
            None => before,
        }
    }
}

/// The kind that a declaration states.
pub open spec fn declared_kind(m: Map<Seq<char>, JsonTree>) -> KindModel {
    match crate::json::text_field(JsonTree::Table(m), "type"@) {
        Some(s) => kind_named(s),
        None => KindModel::Other(Seq::empty()),
    }
}

/// The range that a declaration states: one where it is a slider or gives a bound.
pub open spec fn declared_range(m: Map<Seq<char>, JsonTree>) -> Option<RangeModel> {
    let min = number_field(m, "min"@);
    let max = number_field(m, "max"@);
    if declared_kind(m) is Slider || min is Some || max is Some {
        Some(
            RangeModel {
                min: match min {
                    Some(n) => n,
                    None => NumberModel::Natural(0),
                },
                max: match max {
                    Some(n) => n,
                    None => NumberModel::Natural(1),
                },
                step: number_field(m, "step"@),
                precision: short_field(m, "precision"@),
                fraction: match crate::json::field(JsonTree::Table(m), "fraction"@) {
                    Some(v) => crate::json::bool_in(v) == Some(true),
                    None => false,
                },
            },
        )
    } else {
        None
    }
}

/// The property that a declaration stands for; none where it is null.
pub open spec fn declared_property(key: Seq<char>, decl: JsonTree) -> Option<PropertyModel> {
    if decl is Null {
        None
    } else {
        let m = declared_fields(decl);
        let t = JsonTree::Table(m);
        let options = crate::effect::list_field(t, "options"@);
        Some(
            PropertyModel {
                key,
                kind: declared_kind(m),
                value: match crate::json::field(t, "value"@) {
                    Some(v) => v,
                    None => JsonTree::Null,
                },
                text: crate::effect::text_or(t, "text"@, Seq::empty()),
                order: short_field(m, "order"@),
                index: short_field(m, "index"@),
                range: declared_range(m),
                options: options_in(options, options.len() as int),
                extra: m.restrict(
                    Set::new(|k: Seq<char>| m.dom().contains(k) && !is_modelled(k)),
                ),
            },
        )
    }
}

fn fields_of(decl: &Json) -> (r: StrMap<Json>)
    ensures
        crate::effect::trees(r@) == declared_fields(decl@),
{
    match decl {
        Json::Table(m) => {
            let r = m.clone();
            proof {
                assert forall|k: Seq<char>| #[trigger] r@.dom().contains(k) implies r@[k]@ == m@[k]@ by {
                    assert(cloned::<Json>(m@[k], r@[k]));
                }
                assert(crate::effect::trees(r@) =~= declared_fields(decl@));
            }
            r
        },
        _ => {
            let mut r: StrMap<Json> = StrMap::new();
            r.insert("value".to_string(), decl.copy());
            proof {
                assert(crate::effect::trees(r@) =~= declared_fields(decl@));
            }
            r
        },
    }
}

fn is_modelled_field(k: &str) -> (r: bool)
    ensures
        r == is_modelled(k@),
{
    same_text(k, "type") || same_text(k, "value") || same_text(k, "text") || same_text(k, "order")
        || same_text(k, "index") || same_text(k, "min") || same_text(k, "max") || same_text(
        k,
        "step",
    ) || same_text(k, "precision") || same_text(k, "fraction") || same_text(k, "options")
}

/// The fields of a declaration that are not modelled.
fn unmodelled(fields: &StrMap<Json>) -> (r: StrMap<Json>)
    ensures
        crate::effect::trees(r@) == crate::effect::trees(fields@).restrict(
            Set::new(
                |k: Seq<char>|
                    crate::effect::trees(fields@).dom().contains(k) && !is_modelled(k),
            ),
        ),
{
    let mut extra: StrMap<Json> = StrMap::new();
    let n = fields.len();
    let ghost keys = fields.keys();
    let mut i: usize = 0;
    while i < n
        invariant
            i <= n == keys.len(),
            keys == fields.keys(),
            crate::strmap::lists_keys(keys, fields@),
            forall|k: Seq<char>| #[trigger]
                extra@.dom().contains(k) ==> fields@.dom().contains(k) && !is_modelled(k)
                    && extra@[k]@ == fields@[k]@,
            forall|j: int|
                0 <= j < i && !is_modelled(#[trigger] keys[j]) ==> extra@.dom().contains(keys[j]),
        decreases n - i,
    {
        if !is_modelled_field(fields.key_at(i).as_str()) {
            extra.insert(fields.key_at(i).clone(), fields.value_at(i).copy());
        }
        i += 1;
    }
    proof {
        let m = crate::effect::trees(fields@);
        let want = m.restrict(Set::new(|k: Seq<char>| m.dom().contains(k) && !is_modelled(k)));
        assert forall|k: Seq<char>| #[trigger] want.dom().contains(k) implies extra@.dom().contains(k) by {
            assert(fields@.dom().contains(k));
            let j = choose|j: int| 0 <= j < keys.len() && keys[j] == k;
            assert(!is_modelled(keys[j]));
        }
        assert(crate::effect::trees(extra@) =~= want);
    }
    extra
}

fn number_under(doc: &Json, key: &str) -> (r: Option<JsonNumber>)
    ensures
        opt_number(r) == match crate::json::field(doc@, key@) {
            Some(JsonTree::Number(n)) => Some(n),
            _ => None,
        },
{
    match doc.get(key) {
        Some(Json::Number(n)) => Some(n.copy()),
        _ => None,
    }
}

fn short_under(doc: &Json, key: &str) -> (r: Option<u32>)
    ensures
        r == match crate::json::field(doc@, key@) {
            Some(v) => match crate::json::natural_in(v) {
                Some(n) => Some(n as u32),
                None => None,
            },
            None => None,
        },
{
    match doc.get(key) {
        Some(v) => match v.as_u64() {
            Some(n) => Some(n as u32),
            None => None,
        },
        None => None,
    }
}

fn options_under(doc: &Json) -> (r: Vec<ComboOption>)
    ensures
        option_views(r@) == options_in(
            crate::effect::list_field(doc@, "options"@),
            crate::effect::list_field(doc@, "options"@).len() as int,
        ),
{
    let mut out: Vec<ComboOption> = Vec::new();
    let ghost list = crate::effect::list_field(doc@, "options"@);
    proof {
        assert(option_views(out@) =~= Seq::<OptionModel>::empty());
    }
    if let Some(Json::List(a)) = doc.get("options") {
        let mut i: usize = 0;
        while i < a.len()
            invariant
                i <= a@.len() == list.len(),
                forall|j: int| 0 <= j < a@.len() ==> #[trigger] list[j] == a@[j]@,
                option_views(out@) == options_in(list, i as int),
            decreases a@.len() - i,
        {
            let ghost was = option_views(out@);
            proof {
                assert(list[i as int] == a@[i as int]@);
            }
            if let (Some(label), Some(value)) = (a[i].text_at("label"), a[i].text_at("value")) {
                let o = ComboOption { label: label.clone(), value: value.clone() };
                out.push(o);
                proof {
                    assert(option_views(out@) =~= was.push(o@));
                }
            }
            i += 1;
        }
    }
    out
}

/// Whether a label is blank.
pub open spec fn is_blank(s: Seq<char>) -> bool {
    crate::text::trimmed(s).len() == 0
}

impl Property {
    /// The label to show, falling back to the key. Some creators leave `text`
    /// empty (the editor generates the key from it), and a blank row is worse
    /// than the key.
    pub fn label(&self) -> (r: &str)
        ensures
            r@ == (if is_blank(self.text@) {
                self.key@
            } else {
                self.text@
            }),
    {
        let t = chars_of(self.text.as_str());
        if trim(t.as_slice()).len() == 0 {
            self.key.as_str()
        } else {
            self.text.as_str()
        }
    }

    /// Parse one declaration.
    ///
    /// A property is normally an object. A handful of older projects write a bare
    /// value instead (`"myprop": 1`); that is accepted too rather than lost.
    pub fn from_declaration(key: &str, decl: &Json) -> (r: Option<Property>)
        ensures
            match r {
                Some(p) => declared_property(key@, decl@) == Some(p@),
                None => declared_property(key@, decl@) is None,
            },
    {
        if let Json::Null = decl {
            return None;
        }
        let fields = fields_of(decl);
        let extra = unmodelled(&fields);
        let doc = Json::Table(fields);
        let ghost m = declared_fields(decl@);
        proof {
            assert(doc@->Table_0 =~= m);
        }
        let kind = match doc.text_at("type") {
            Some(s) => PropertyKind::parse(s.as_str()),
            None => PropertyKind::Other(String::new()),
        };
        let options = options_under(&doc);
        let min = number_under(&doc, "min");
        let max = number_under(&doc, "max");
        let is_slider = match &kind {
            PropertyKind::Slider => true,
            _ => false,
        };
        let range = if is_slider || min.is_some() || max.is_some() {
            let fraction = match doc.get("fraction") {
                Some(v) => match v.as_bool() {
                    Some(b) => b,
                    None => false,
                },
                None => false,
            };
            Some(
                SliderRange {
                    min: match min {
                        Some(n) => n,
                        None => JsonNumber::Natural(0),
                    },
                    max: match max {
                        Some(n) => n,
                        None => JsonNumber::Natural(1),
                    },
                    step: number_under(&doc, "step"),
                    precision: short_under(&doc, "precision"),
                    fraction,
                },
            )
        } else {
            None
        };
        let value = match doc.get("value") {
            Some(v) => v.copy(),
            None => Json::Null,
        };
        let text = match doc.text_at("text") {
            Some(s) => s.clone(),
            None => String::new(),
        };
        let p = Property {
            key: key.to_string(),
            kind,
            value,
            text,
            order: short_under(&doc, "order"),
            index: short_under(&doc, "index"),
            range,
            options,
            extra,
        };
        proof {
            assert(p@ =~= declared_property(key@, decl@)->Some_0);
        }
        Some(p)
    }
}

/// One channel of a colour: a number, the text of one, or a byte of a hexadecimal
/// triple, which is that many 255ths.
#[derive(Debug, Clone, PartialEq, Eq)]
pub enum Channel {
    Number(JsonNumber),
    Text(String),
    Hex(u8),
}

/// A colour, channel by channel.
#[derive(Debug, Clone, PartialEq, Eq)]
pub struct Colour {
    pub r: Channel,
    pub g: Channel,
    pub b: Channel,
}

/// What a channel stands for.
pub ghost enum ChannelModel {
    Number(NumberModel),
    Text(Seq<char>),
    Hex(u8),
}

/// What a colour stands for.
pub ghost struct ColourModel {
    pub r: ChannelModel,
    pub g: ChannelModel,
    pub b: ChannelModel,
}

impl View for Channel {
    type V = ChannelModel;

    open spec fn view(&self) -> ChannelModel {
        match self {
            Channel::Number(n) => ChannelModel::Number(n@),
            Channel::Text(s) => ChannelModel::Text(s@),
            Channel::Hex(b) => ChannelModel::Hex(*b),
        }
    }
}

impl View for Colour {
    type V = ColourModel;

    open spec fn view(&self) -> ColourModel {
        ColourModel { r: self.r@, g: self.g@, b: self.b@ }
    }
}

/// The value of a hexadecimal digit.
pub open spec fn hex_value(c: char) -> Option<u8> {
    if '0' <= c && c <= '9' {
        Some((c as u32 - 48) as u8)
    } else if 'a' <= c && c <= 'f' {
        Some((c as u32 - 87) as u8)
    } else if 'A' <= c && c <= 'F' {
        Some((c as u32 - 55) as u8)
    } else {
        None
    }
}

/// The byte that two characters write: two hexadecimal digits, or a plus sign and
/// one.
pub open spec fn hex_byte(a: char, b: char) -> Option<u8> {
    match hex_value(b) {
        None => None,
        Some(low) => if a == '+' {
            Some(low)
        } else {
            match hex_value(a) {
                Some(high) => Some((16 * high + low) as u8),
                None => None,
            }
        },
    }
}

/// `s` without the number signs that it begins with.
pub open spec fn without_signs(s: Seq<char>) -> Seq<char>
    decreases s.len(),
{
    if s.len() > 0 && s[0] == '#' {
        without_signs(s.skip(1))
    } else {
        s
    }
}

/// The colour that hexadecimal digits write.
pub open spec fn hex_colour(h: Seq<char>) -> Option<ColourModel> {
    if h.len() < 6 {
        None
    } else {
        match (hex_byte(h[0], h[1]), hex_byte(h[2], h[3]), hex_byte(h[4], h[5])) {
            (Some(r), Some(g), Some(b)) => Some(
                ColourModel {
                    r: ChannelModel::Hex(r),
                    g: ChannelModel::Hex(g),
                    b: ChannelModel::Hex(b),
                },
            ),
            _ => None,
        }
    }
}

/// The first `n` texts of a list that read as numbers.
pub open spec fn numbers_among(list: Seq<Seq<char>>, n: int) -> Seq<Seq<char>>
    decreases n,
{
    if n <= 0 {
        Seq::empty()
    } else if crate::numbers::float_text(list[n - 1]) {
        numbers_among(list, n - 1).push(list[n - 1])
    } else {
        numbers_among(list, n - 1)
    }
}

/// The colour that the words of a text write: three or four numbers, of which the
/// fourth is not modelled, or one for all three channels.
pub open spec fn word_colour(s: Seq<char>) -> Option<ColourModel> {
    let words = crate::text::words_of(s);
    let n = numbers_among(words, words.len() as int);
    if n.len() == 3 || n.len() == 4 {
        Some(
            ColourModel {
                r: ChannelModel::Text(n[0]),
                g: ChannelModel::Text(n[1]),
                b: ChannelModel::Text(n[2]),
            },
        )
    } else if n.len() == 1 {
        Some(
            ColourModel {
                r: ChannelModel::Text(n[0]),
                g: ChannelModel::Text(n[0]),
                b: ChannelModel::Text(n[0]),
            },
        )
    } else {
        None
    }
}

/// The numbers among the first `n` documents of a list.
pub open spec fn numbers_in(list: Seq<JsonTree>, n: int) -> Seq<NumberModel>
    decreases n,
{
    if n <= 0 {
        Seq::empty()
    } else {
        match list[n - 1] {
            JsonTree::Number(x) => numbers_in(list, n - 1).push(x),
            _ => numbers_in(list, n - 1),
        }
    }
}

/// The colour that a document writes: `"r g b"`, `[r, g, b]` or `#rrggbb`.
pub open spec fn colour_in(t: JsonTree) -> Option<ColourModel> {
    match t {
        JsonTree::Text(s) => {
            let w = crate::text::trimmed(s);
            if w.len() > 0 && w[0] == '#' {
                hex_colour(without_signs(w))
            } else {
                word_colour(w)
            }
        },
        JsonTree::List(l) => {
            let n = numbers_in(l, l.len() as int);
            if n.len() >= 3 {
                Some(
                    ColourModel {
                        r: ChannelModel::Number(n[0]),
                        g: ChannelModel::Number(n[1]),
                        b: ChannelModel::Number(n[2]),
                    },
                )
            } else {
                None
            }
        },
        _ => None,
    }
}

fn hex_digit(c: char) -> (r: Option<u8>)
    ensures
        r == hex_value(c),
        r matches Some(v) ==> v < 16,
{
    let u: u32 = c as u32;
    if 48 <= u && u <= 57 {
        Some((u - 48) as u8)
    } else if 97 <= u && u <= 102 {
        Some((u - 87) as u8)
    } else if 65 <= u && u <= 70 {
        Some((u - 55) as u8)
    } else {
        None
    }
}

fn hex_pair(a: char, b: char) -> (r: Option<u8>)
    ensures
        r == hex_byte(a, b),
{
    match hex_digit(b) {
        None => None,
        Some(low) => if a == '+' {
            Some(low)
        } else {
            match hex_digit(a) {
                Some(high) => Some(16 * high + low),
                None => None,
            }
        },
    }
}

fn drop_signs<'a>(s: &'a [char]) -> (r: &'a [char])
    ensures
        r@ == without_signs(s@),
{
    let mut cur = s;
    while cur.len() > 0 && cur[0] == '#'
        invariant
            without_signs(cur@) == without_signs(s@),
        decreases cur@.len(),
    {
        cur = rest(cur, 1);
    }
    cur
}

fn parse_hex(h: &[char]) -> (r: Option<Colour>)
    ensures
        match r {
            Some(c) => hex_colour(h@) == Some(c@),
            None => hex_colour(h@) is None,
        },
{
    if h.len() < 6 {
        return None;
    }
    match (hex_pair(h[0], h[1]), hex_pair(h[2], h[3]), hex_pair(h[4], h[5])) {
        (Some(r), Some(g), Some(b)) => Some(
            Colour { r: Channel::Hex(r), g: Channel::Hex(g), b: Channel::Hex(b) },
        ),
        _ => None,
    }
}

/// The texts of a list that read as numbers.
pub fn number_texts(list: &Vec<Vec<char>>) -> (r: Vec<Vec<char>>)
    ensures
        crate::text::spelled(r@) == numbers_among(
            crate::text::spelled(list@),
            list@.len() as int,
        ),
{
    let ghost all = crate::text::spelled(list@);
    let mut out: Vec<Vec<char>> = Vec::new();
    let mut i: usize = 0;
    proof {
        assert(crate::text::spelled(out@) =~= Seq::<Seq<char>>::empty());
    }
    while i < list.len()
        invariant
            i <= list@.len() == all.len(),
            all == crate::text::spelled(list@),
            crate::text::spelled(out@) == numbers_among(all, i as int),
        decreases list@.len() - i,
    {
        let ghost was = crate::text::spelled(out@);
        proof {
            assert(all[i as int] == list@[i as int]@);
        }
        if reads_as_float(list[i].as_slice()) {
            out.push(crate::text::copy_chars(list[i].as_slice()));
            proof {
                assert(crate::text::spelled(out@) =~= was.push(all[i as int]));
            }
        }
        i += 1;
    }
    out
}

fn parse_words(s: &[char]) -> (r: Option<Colour>)
    ensures
        match r {
            Some(c) => word_colour(s@) == Some(c@),
            None => word_colour(s@) is None,
        },
{
    let list = words(s);
    let n = number_texts(&list);
    let ghost all = numbers_among(
        crate::text::words_of(s@),
        crate::text::words_of(s@).len() as int,
    );
    proof {
        assert(crate::text::spelled(list@).len() == list@.len());
        assert(crate::text::spelled(n@).len() == n@.len());
        assert(forall|i: int| 0 <= i < n@.len() ==> #[trigger] all[i] == n@[i]@);
    }
    if n.len() == 3 || n.len() == 4 {
        Some(
            Colour {
                r: Channel::Text(string_of(n[0].as_slice())),
                g: Channel::Text(string_of(n[1].as_slice())),
                b: Channel::Text(string_of(n[2].as_slice())),
            },
        )
    } else if n.len() == 1 {
        Some(
            Colour {
                r: Channel::Text(string_of(n[0].as_slice())),
                g: Channel::Text(string_of(n[0].as_slice())),
                b: Channel::Text(string_of(n[0].as_slice())),
            },
        )
    } else {
        None
    }
}

fn list_numbers(a: &Vec<Json>) -> (r: Vec<JsonNumber>)
    ensures
        Seq::new(r@.len(), |i: int| r@[i]@) == numbers_in(
            Seq::new(a@.len(), |i: int| a@[i]@),
            a@.len() as int,
        ),
{
    let ghost list = Seq::new(a@.len(), |i: int| a@[i]@);
    let mut out: Vec<JsonNumber> = Vec::new();
    let mut i: usize = 0;
    proof {
        assert(Seq::new(out@.len(), |i: int| out@[i]@) =~= Seq::<NumberModel>::empty());
    }
    while i < a.len()
        invariant
            i <= a@.len(),
            list == Seq::new(a@.len(), |i: int| a@[i]@),
            Seq::new(out@.len(), |i: int| out@[i]@) == numbers_in(list, i as int),
        decreases a@.len() - i,
    {
        let ghost was = Seq::new(out@.len(), |i: int| out@[i]@);
        proof {
            assert(list[i as int] == a@[i as int]@);
        }
        if let Json::Number(n) = &a[i] {
            out.push(n.copy());
            proof {
                assert(Seq::new(out@.len(), |i: int| out@[i]@) =~= was.push(n@));
            }
        }
        i += 1;
    }
    out
}

/// Parse a colour written as `"r g b"` (the engine's format), as a `[r,g,b]`
/// array, or as `#rrggbb`.
pub fn parse_color(input: &Json) -> (r: Option<Colour>)
    ensures
        match r {
            Some(c) => colour_in(input@) == Some(c@),
            None => colour_in(input@) is None,
        },
{
    match input {
        Json::Text(s) => {
            let all = chars_of(s.as_str());
            let w = trim(all.as_slice());
            if w.len() > 0 && w[0] == '#' {
                parse_hex(drop_signs(w))
            } else {
                parse_words(w)
            }
        },
        Json::List(a) => {
            let n = list_numbers(a);
            let ghost list = Seq::new(a@.len(), |i: int| a@[i]@);
            let ghost all = Seq::new(n@.len(), |i: int| n@[i]@);
            proof {
                assert(input@->List_0 =~= list);
                assert(forall|i: int| 0 <= i < n@.len() ==> #[trigger] all[i] == n@[i]@);
            }
            if n.len() >= 3 {
                Some(
                    Colour {
                        r: Channel::Number(n[0].copy()),
                        g: Channel::Number(n[1].copy()),
                        b: Channel::Number(n[2].copy()),
                    },
                )
            } else {
                None
            }
        },
        _ => None,
    }
}

/// What a slider is set to: a number, or the text of one.
#[derive(Debug, Clone, PartialEq, Eq)]
pub enum SlideSource {
    Number(JsonNumber),
    Text(String),
}

/// What a property's value becomes.
#[derive(Debug, PartialEq, Eq)]
pub enum Coercion {
    /// This value.
    Value(Json),
    /// What the slider is set to by that number, once it is a double: it is written in a
    /// text, or it or a bound is an integer too large to be one exactly.
    Slide(SlideSource),
    /// The text of that colour.
    Colour(Colour),
}

/// What a slider source stands for.
pub ghost enum SlideModel {
    Number(NumberModel),
    Text(Seq<char>),
}

/// What a coercion stands for.
pub ghost enum CoercionModel {
    Value(JsonTree),
    Slide(SlideModel),
    Colour(ColourModel),
}

impl View for SlideSource {
    type V = SlideModel;

    open spec fn view(&self) -> SlideModel {
        match self {
            SlideSource::Number(n) => SlideModel::Number(n@),
            SlideSource::Text(s) => SlideModel::Text(s@),
        }
    }
}

impl View for Coercion {
    type V = CoercionModel;

    open spec fn view(&self) -> CoercionModel {
        match self {
            Coercion::Value(v) => CoercionModel::Value(v@),
            Coercion::Slide(s) => CoercionModel::Slide(s@),
            Coercion::Colour(c) => CoercionModel::Colour(c@),
        }
    }
}

/// What an optional coercion stands for.
pub open spec fn opt_coercion(c: Option<Coercion>) -> Option<CoercionModel> {
    match c {
        Some(x) => Some(x@),
        None => None,
    }
}

/// Whether a number is not zero. A number that is neither natural nor negative is
/// zero where its bits are those of zero or of negative zero.
pub open spec fn is_nonzero(n: NumberModel) -> bool {
    match n {
        NumberModel::Natural(x) => x != 0,
        NumberModel::Negative(x) => x != 0,
        NumberModel::Real { bits, text } => bits != 0 && bits != 0x8000_0000_0000_0000,
    }
}

/// What a checkbox is set to.
pub open spec fn coerced_bool(t: JsonTree) -> Option<CoercionModel> {
    match t {
        JsonTree::Bool(b) => Some(CoercionModel::Value(JsonTree::Bool(b))),
        JsonTree::Number(n) => Some(CoercionModel::Value(JsonTree::Bool(is_nonzero(n)))),
        JsonTree::Text(s) => {
            let w = crate::text::lower_text(crate::text::trimmed(s));
            if w == "true"@ || w == "on"@ || w == "yes"@ || w == "1"@ {
                Some(CoercionModel::Value(JsonTree::Bool(true)))
            } else if w == "false"@ || w == "off"@ || w == "no"@ || w == "0"@ {
                Some(CoercionModel::Value(JsonTree::Bool(false)))
            } else {
                None
            }
        },
        _ => None,
    }
}

/// What a slider is set to, where that is a number.
pub open spec fn slide_source(t: JsonTree) -> Option<SlideModel> {
    match t {
        JsonTree::Number(n) => Some(SlideModel::Number(n)),
        JsonTree::Text(s) => if crate::numbers::float_text(crate::text::trimmed(s)) {
            Some(SlideModel::Text(crate::text::trimmed(s)))
        } else {
            None
        },
        JsonTree::Bool(b) => Some(
            SlideModel::Number(
                NumberModel::Natural(
                    if b {
                        1
                    } else {
                        0
                    },
                ),
            ),
        ),
        _ => None,
    }
}

/// What a slider is set to by a number; a number in a text is left to be read.
pub open spec fn coerced_slide(range: RangeModel, t: JsonTree) -> Option<CoercionModel> {
    match slide_source(t) {
        None => None,
        Some(SlideModel::Number(n)) => match crate::sliders::slid(
            n,
            range.min,
            range.max,
            range.fraction,
        ) {
            Some(v) => Some(CoercionModel::Value(JsonTree::Number(v))),
            None => Some(CoercionModel::Slide(SlideModel::Number(n))),
        },
        Some(s) => Some(CoercionModel::Slide(s)),
    }
}

/// Whether a text is an engine triple: three numbers.
pub open spec fn is_triple(s: Seq<char>) -> bool {
    let words = crate::text::words_of(s);
    words.len() == 3 && forall|i: int|
        0 <= i < 3 ==> crate::numbers::float_text(#[trigger] words[i])
}

/// What a colour is set to: a triple is kept verbatim.
pub open spec fn coerced_colour(t: JsonTree) -> Option<CoercionModel> {
    let kept = match t {
        JsonTree::Text(s) => if is_triple(crate::text::trimmed(s)) {
            Some(crate::text::trimmed(s))
        } else {
            None
        },
        _ => None,
    };
    match kept {
        Some(s) => Some(CoercionModel::Value(JsonTree::Text(s))),
        None => match colour_in(t) {
            Some(c) => Some(CoercionModel::Colour(c)),
            None => None,
        },
    }
}

/// The text that stands for a value in a dropdown.
pub open spec fn choice_text(t: JsonTree) -> Option<Seq<char>> {
    match t {
        JsonTree::Text(s) => Some(s),
        JsonTree::Number(n) => Some(crate::json::number_text(n)),
        JsonTree::Bool(b) => Some(
            if b {
                "true"@
            } else {
                "false"@
            },
        ),
        _ => None,
    }
}

/// Whether an option of that value is among them.
pub open spec fn has_value(options: Seq<OptionModel>, s: Seq<char>) -> bool {
    exists|i: int| 0 <= i < options.len() && (#[trigger] options[i]).value == s
}

/// The value of the first option, from `i` on, whose label is that text, without
/// regard to ASCII case.
pub open spec fn value_labelled(options: Seq<OptionModel>, s: Seq<char>, i: int) -> Option<Seq<char>>
    decreases options.len() - i,
{
    if i < 0 || i >= options.len() {
        None
    } else if crate::text::lower_text(options[i].label) == crate::text::lower_text(s) {
        Some(options[i].value)
    } else {
        value_labelled(options, s, i + 1)
    }
}

/// What a dropdown is set to: its first option for null; a value of its options, or
/// anything where it has none, unchanged; a label stands for its value.
pub open spec fn coerced_choice(options: Seq<OptionModel>, t: JsonTree) -> Option<CoercionModel> {
    if t is Null {
        Some(
            CoercionModel::Value(
                if options.len() > 0 {
                    JsonTree::Text(options[0].value)
                } else {
                    JsonTree::Null
                },
            ),
        )
    } else {
        match choice_text(t) {
            None => None,
            Some(s) => if options.len() == 0 || has_value(options, s) {
                Some(CoercionModel::Value(t))
            } else {
                match value_labelled(options, s, 0) {
                    Some(v) => Some(CoercionModel::Value(JsonTree::Text(v))),
                    None => None,
                }
            },
        }
    }
}

/// What a text is set to: a text as it is, nothing as the empty text, and any other
/// input as it is written in JSON.
pub open spec fn coerced_text(t: JsonTree) -> Seq<char> {
    match t {
        JsonTree::Null => Seq::empty(),
        JsonTree::Text(s) => s,
        _ => crate::json::json_text(t),
    }
}

/// The range of a slider, by default from zero to one.
pub open spec fn range_or_unit(r: Option<RangeModel>) -> RangeModel {
    match r {
        Some(x) => x,
        None => unit_range(),
    }
}

/// What an input makes of a property's value; none where it cannot be represented.
pub open spec fn coerced(p: PropertyModel, t: JsonTree) -> Option<CoercionModel> {
    match p.kind {
        KindModel::Bool => coerced_bool(t),
        KindModel::Slider => coerced_slide(range_or_unit(p.range), t),
        KindModel::Color => coerced_colour(t),
        KindModel::Combo => coerced_choice(p.options, t),
        KindModel::TextInput | KindModel::Texture | KindModel::UserShortcut => Some(
            CoercionModel::Value(JsonTree::Text(coerced_text(t))),
        ),
        KindModel::Group | KindModel::Text | KindModel::Other(_) => Some(CoercionModel::Value(t)),
    }
}

fn coerce_bool(input: &Json) -> (r: Option<Coercion>)
    ensures
        opt_coercion(r) == coerced_bool(input@),
{
    match input {
        Json::Bool(b) => Some(Coercion::Value(Json::Bool(*b))),
        Json::Number(n) => {
            let on = match n {
                JsonNumber::Natural(x) => *x != 0,
                JsonNumber::Negative(x) => *x != 0,
                JsonNumber::Real { bits, text: _ } => *bits != 0 && *bits != 0x8000_0000_0000_0000,
            };
            Some(Coercion::Value(Json::Bool(on)))
        },
        Json::Text(s) => {
            let all = chars_of(s.as_str());
            let low = lowered(trim(all.as_slice()));
            let w = low.as_slice();
            if is_text(w, "true") || is_text(w, "on") || is_text(w, "yes") || is_text(w, "1") {
                Some(Coercion::Value(Json::Bool(true)))
            } else if is_text(w, "false") || is_text(w, "off") || is_text(w, "no") || is_text(
                w,
                "0",
            ) {
                Some(Coercion::Value(Json::Bool(false)))
            } else {
                None
            }
        },
        _ => None,
    }
}

fn coerce_slide(range: &Option<SliderRange>, input: &Json) -> (r: Option<Coercion>)
    ensures
        opt_coercion(r) == coerced_slide(
            range_or_unit(
                match range {
                    Some(x) => Some(x@),
                    None => None,
                },
            ),
            input@,
        ),
{
    let number = match input {
        Json::Number(n) => n.copy(),
        Json::Bool(b) => JsonNumber::Natural(
            if *b {
                1
            } else {
                0
            },
        ),
        Json::Text(s) => {
            let all = chars_of(s.as_str());
            let t = trim(all.as_slice());
            return if reads_as_float(t) {
                Some(Coercion::Slide(SlideSource::Text(string_of(t))))
            } else {
                None
            };
        },
        _ => {
            return None;
        },
    };
    let slid = match range {
        Some(x) => slide(&number, &x.min, &x.max, x.fraction),
        None => slide(&number, &JsonNumber::Natural(0), &JsonNumber::Natural(1), false),
    };
    match slid {
        Some(v) => Some(Coercion::Value(Json::Number(v))),
        None => Some(Coercion::Slide(SlideSource::Number(number))),
    }
}

fn is_engine_triple(s: &[char]) -> (r: bool)
    ensures
        r == is_triple(s@),
{
    let list = words(s);
    let ghost all = crate::text::words_of(s@);
    proof {
        assert(crate::text::spelled(list@).len() == list@.len());
        assert(forall|i: int| 0 <= i < list@.len() ==> #[trigger] all[i] == list@[i]@);
    }
    if list.len() != 3 {
        return false;
    }
    proof {
        assert(all[0] == list@[0]@ && all[1] == list@[1]@ && all[2] == list@[2]@);
    }
    reads_as_float(list[0].as_slice()) && reads_as_float(list[1].as_slice()) && reads_as_float(
        list[2].as_slice(),
    )
}

fn coerce_colour(input: &Json) -> (r: Option<Coercion>)
    ensures
        opt_coercion(r) == coerced_colour(input@),
{
    // A string that is already an engine triple is kept verbatim: re-formatting it
    // would rewrite the user's file on every read for no gain ("1 1 1" must not
    // become "1.0 1.0 1.0").
    if let Json::Text(s) = input {
        let all = chars_of(s.as_str());
        let t = trim(all.as_slice());
        if is_engine_triple(t) {
            return Some(Coercion::Value(Json::Text(string_of(t))));
        }
    }
    match parse_color(input) {
        Some(c) => Some(Coercion::Colour(c)),
        None => None,
    }
}

fn offers(options: &Vec<ComboOption>, s: &str) -> (r: bool)
    ensures
        r == has_value(option_views(options@), s@),
{
    let mut i: usize = 0;
    while i < options.len()
        invariant
            i <= options@.len(),
            forall|j: int| 0 <= j < i ==> (#[trigger] options@[j]).value@ != s@,
        decreases options@.len() - i,
    {
        if same_text(options[i].value.as_str(), s) {
            proof {
                assert(option_views(options@)[i as int].value == s@);
            }
            return true;
        }
        i += 1;
    }
    proof {
        assert forall|j: int| 0 <= j < options@.len() implies (#[trigger] option_views(options@)[j]).value
            != s@ by {
            assert(option_views(options@)[j].value == options@[j].value@);
        }
    }
    false
}

fn find_label(options: &Vec<ComboOption>, s: &str) -> (r: Option<String>)
    ensures
        crate::text::opt_text(r) == value_labelled(option_views(options@), s@, 0),
{
    let all = chars_of(s);
    let low = lowered(all.as_slice());
    let ghost views = option_views(options@);
    let mut i: usize = 0;
    while i < options.len()
        invariant
            i <= options@.len(),
            views == option_views(options@),
            low@ == crate::text::lower_text(s@),
            value_labelled(views, s@, 0) == value_labelled(views, s@, i as int),
        decreases options@.len() - i,
    {
        let label = chars_of(options[i].label.as_str());
        let low_label = lowered(label.as_slice());
        if crate::text::same(low_label.as_slice(), low.as_slice()) {
            return Some(options[i].value.clone());
        }
        i += 1;
    }
    None
}

fn text_of_scalar(input: &Json) -> (r: Option<String>)
    ensures
        crate::text::opt_text(r) == choice_text(input@),
{
    match input {
        Json::Text(s) => Some(s.clone()),
        Json::Number(n) => Some(n.written()),
        Json::Bool(b) => Some(
            if *b {
                "true".to_string()
            } else {
                "false".to_string()
            },
        ),
        _ => None,
    }
}

fn coerce_choice(options: &Vec<ComboOption>, input: &Json) -> (r: Option<Coercion>)
    ensures
        opt_coercion(r) == coerced_choice(option_views(options@), input@),
{
    // A combo with no declared value picks its first option, so the panel always
    // has something valid to show.
    if let Json::Null = input {
        return Some(
            Coercion::Value(
                if options.len() > 0 {
                    Json::Text(options[0].value.clone())
                } else {
                    Json::Null
                },
            ),
        );
    }
    let s = match text_of_scalar(input) {
        Some(s) => s,
        None => {
            return None;
        },
    };
    // With no options declared there is nothing to validate against; and a value
    // that is valid is returned unchanged, so that a number stays a number.
    if options.len() == 0 || offers(options, s.as_str()) {
        return Some(Coercion::Value(input.copy()));
    }
    // The user typed the label instead; map it to its value.
    match find_label(options, s.as_str()) {
        Some(v) => Some(Coercion::Value(Json::Text(v))),
        None => None,
    }
}

impl Property {
    /// Coerce a user-supplied value into this property's own type.
    ///
    /// Coercion is what makes a setting honest: a slider outside its bounds, a
    /// combo value that is not one of the options, or a boolean written as the
    /// string `"true"` must all land on something the renderer can use, rather
    /// than being applied as-is and breaking the scene later. Returns `None`
    /// when the input cannot be represented at all.
    pub fn coerce(&self, input: &Json) -> (r: Option<Coercion>)
        ensures
            opt_coercion(r) == coerced(self@, input@),
    {
        match &self.kind {
            PropertyKind::Bool => coerce_bool(input),
            PropertyKind::Slider => coerce_slide(&self.range, input),
            PropertyKind::Color => coerce_colour(input),
            PropertyKind::Combo => coerce_choice(&self.options, input),
            PropertyKind::TextInput | PropertyKind::Texture | PropertyKind::UserShortcut => Some(
                Coercion::Value(
                    Json::Text(
                        match input {
                            Json::Null => String::new(),
                            Json::Text(s) => s.clone(),
                            _ => input.written(),
                        },
                    ),
                ),
            ),
            // Layout-only or unknown: pass the value through untouched.
            PropertyKind::Group | PropertyKind::Text | PropertyKind::Other(_) => Some(
                Coercion::Value(input.copy()),
            ),
        }
    }
}

/// The set of user properties a wallpaper exposes, with any saved values
/// layered on top.
#[derive(Debug, PartialEq, Eq)]
pub struct PropertySet {
    /// Ordered by the editor's `order`, then `index`, then key - so a settings
    /// panel reads in the creator's intended sequence.
    pub properties: Vec<Property>,
}

impl View for PropertySet {
    type V = Seq<PropertyModel>;

    open spec fn view(&self) -> Seq<PropertyModel> {
        Seq::new(self.properties@.len(), |i: int| self.properties@[i]@)
    }
}

/// The place that the editor assigns; last where it assigns none.
pub open spec fn place(o: Option<u32>) -> u32 {
    match o {
        Some(n) => n,
        None => u32::MAX,
    }
}

/// Whether a property comes before another: by `order`, then `index`, then key.
pub open spec fn comes_before(a: PropertyModel, b: PropertyModel) -> bool {
    if place(a.order) != place(b.order) {
        place(a.order) < place(b.order)
    } else if place(a.index) != place(b.index) {
        place(a.index) < place(b.index)
    } else {
        crate::strmap::before(a.key, b.key)
    }
}

proof fn lemma_comes_before_transitive(a: PropertyModel, b: PropertyModel, c: PropertyModel)
    requires
        comes_before(a, b),
        comes_before(b, c),
    ensures
        comes_before(a, c),
{
    if place(a.order) == place(b.order) && place(b.order) == place(c.order) && place(a.index)
        == place(b.index) && place(b.index) == place(c.index) {
        crate::strmap::lemma_before_transitive(a.key, b.key, c.key);
    }
}

/// Whether each property of a list comes before those behind it.
pub open spec fn in_order(list: Seq<PropertyModel>) -> bool {
    forall|i: int, j: int| 0 <= i < j < list.len() ==> comes_before(#[trigger] list[i], #[trigger] list[j])
}

/// Whether a list holds the properties that a table declares, all of them and
/// nothing else, in the creator's order.
pub open spec fn lists_declared(list: Seq<PropertyModel>, m: Map<Seq<char>, JsonTree>) -> bool {
    &&& in_order(list)
    &&& forall|i: int|
        0 <= i < list.len() ==> m.dom().contains((#[trigger] list[i]).key) && declared_property(
            list[i].key,
            m[list[i].key],
        ) == Some(list[i])
    &&& forall|k: Seq<char>| #[trigger]
        m.dom().contains(k) && declared_property(k, m[k]) is Some ==> list.contains(
            declared_property(k, m[k])->Some_0,
        )
}

/// The table of properties of a `general` document; empty where there is none.
pub open spec fn declared_table(general: JsonTree) -> Map<Seq<char>, JsonTree> {
    crate::effect::table_field(general, "properties"@)
}

/// The first property of that key, from `i` on.
pub open spec fn index_of_key(list: Seq<PropertyModel>, key: Seq<char>, i: int) -> Option<int>
    decreases list.len() - i,
{
    if i < 0 || i >= list.len() {
        None
    } else if list[i].key == key {
        Some(i)
    } else {
        index_of_key(list, key, i + 1)
    }
}

fn is_before(a: &Property, b: &Property) -> (r: bool)
    ensures
        r == comes_before(a@, b@),
{
    let ao = match a.order {
        Some(n) => n,
        None => u32::MAX,
    };
    let bo = match b.order {
        Some(n) => n,
        None => u32::MAX,
    };
    let ai = match a.index {
        Some(n) => n,
        None => u32::MAX,
    };
    let bi = match b.index {
        Some(n) => n,
        None => u32::MAX,
    };
    if ao != bo {
        ao < bo
    } else if ai != bi {
        ai < bi
    } else {
        proof {
            crate::strmap::lemma_before_total(a.key@, b.key@);
        }
        crate::strmap::order_of(a.key.as_str(), b.key.as_str()) == crate::strmap::Standing::Before
    }
}

impl PropertySet {
    /// Put a property in its place. No property of the set has its key.
    fn place_property(&mut self, p: Property)
        requires
            in_order(old(self)@),
            forall|i: int| 0 <= i < old(self)@.len() ==> (#[trigger] old(self)@[i]).key != p@.key,
        ensures
            in_order(final(self)@),
            exists|at: int|
                0 <= at <= old(self)@.len() && final(self)@ == #[trigger] old(self)@.insert(at, p@),
    {
        let ghost was = self@;
        let mut at: usize = 0;
        while at < self.properties.len() && is_before(&self.properties[at], &p)
            invariant
                at <= self.properties@.len(),
                self@ == was,
                forall|i: int| 0 <= i < at ==> comes_before(#[trigger] was[i], p@),
            decreases self.properties@.len() - at,
        {
            proof {
                assert(was[at as int] == self.properties@[at as int]@);
            }
            at += 1;
        }
        proof {
            if at < was.len() {
                assert(was[at as int] == self.properties@[at as int]@);
                crate::strmap::lemma_before_total(was[at as int].key, p@.key);
                assert(comes_before(p@, was[at as int]));
            }
        }
        let ghost placed = p@;
        self.properties.insert(at, p);
        proof {
            let now = self@;
            assert(now =~= was.insert(at as int, placed));
            assert forall|i: int, j: int| 0 <= i < j < now.len() implies comes_before(
                #[trigger] now[i],
                #[trigger] now[j],
            ) by {
                let a = at as int;
                if i < a && j > a {
                    assert(now[i] == was[i] && now[j] == was[j - 1]);
                } else if i < a && j < a {
                    assert(now[i] == was[i] && now[j] == was[j]);
                } else if i > a {
                    assert(now[i] == was[i - 1] && now[j] == was[j - 1]);
                } else if i == a {
                    assert(now[j] == was[j - 1]);
                    if j - 1 > a {
                        lemma_comes_before_transitive(placed, was[a], was[j - 1]);
                    }
                } else {
                    assert(now[i] == was[i]);
                }
            }
        }
    }

    /// Parse `general.properties` from a project or scene document.
    pub fn from_general(general: &Json) -> (r: PropertySet)
        ensures
            lists_declared(r@, declared_table(general@)),
    {
        let mut set = PropertySet { properties: Vec::new() };
        let ghost m = declared_table(general@);
        if let Some(Json::Table(table)) = general.get("properties") {
            let n = table.len();
            let ghost keys = table.keys();
            proof {
                assert(m == crate::effect::trees(table@)) by {
                    assert(m =~= crate::effect::trees(table@));
                }
            }
            let mut i: usize = 0;
            while i < n
                invariant
                    i <= n == keys.len(),
                    keys == table.keys(),
                    m == crate::effect::trees(table@),
                    crate::strmap::lists_keys(keys, table@),
                    in_order(set@),
                    forall|j: int|
                        0 <= j < set@.len() ==> m.dom().contains((#[trigger] set@[j]).key)
                            && declared_property(set@[j].key, m[set@[j].key]) == Some(set@[j])
                            && exists|k: int| 0 <= k < i && #[trigger] keys[k] == set@[j].key,
                    forall|k: int|
                        0 <= k < i && declared_property(#[trigger] keys[k], m[keys[k]]) is Some
                            ==> set@.contains(declared_property(keys[k], m[keys[k]])->Some_0),
                decreases n - i,
            {
                let ghost was = set@;
                let ghost key = keys[i as int];
                proof {
                    assert(keys.contains(key));
                    assert(table@.dom().contains(key));
                    assert(m.dom().contains(key));
                }
                if let Some(p) = Property::from_declaration(
                    table.key_at(i).as_str(),
                    table.value_at(i),
                ) {
                    let ghost placed = p@;
                    proof {
                        assert forall|j: int| 0 <= j < was.len() implies (#[trigger] was[j]).key
                            != placed.key by {
                            let k = choose|k: int| 0 <= k < i && #[trigger] keys[k] == was[j].key;
                            crate::strmap::lemma_before_irreflexive(key);
                            assert(crate::strmap::before(keys[k], keys[i as int]));
                        }
                    }
                    set.place_property(p);
                    proof {
                        let at = choose|at: int|
                            0 <= at <= was.len() && set@ == #[trigger] was.insert(at, placed);
                        assert(set@[at] == placed);
                        assert forall|j: int| 0 <= j < set@.len() implies m.dom().contains(
                            (#[trigger] set@[j]).key,
                        ) && declared_property(set@[j].key, m[set@[j].key]) == Some(set@[j])
                            && exists|k: int| 0 <= k < i + 1 && #[trigger] keys[k] == set@[j].key by {
                            if j < at {
                                assert(set@[j] == was[j]);
                            } else if j > at {
                                assert(set@[j] == was[j - 1]);
                            } else {
                                assert(keys[i as int] == placed.key);
                            }
                        }
                        assert forall|x: PropertyModel| was.contains(x) implies #[trigger] set@.contains(
                            x,
                        ) by {
                            let j = choose|j: int| 0 <= j < was.len() && was[j] == x;
                            if j < at {
                                assert(set@[j] == x);
                            } else {
                                assert(set@[j + 1] == x);
                            }
                        }
                    }
                }
                i += 1;
            }
            proof {
                assert forall|k: Seq<char>| #[trigger]
                    m.dom().contains(k) && declared_property(k, m[k]) is Some implies set@.contains(
                    declared_property(k, m[k])->Some_0,
                ) by {
                    assert(table@.dom().contains(k));
                    let j = choose|j: int| 0 <= j < keys.len() && keys[j] == k;
                    assert(declared_property(keys[j], m[keys[j]]) is Some);
                }
            }
        }
        set
    }

    /// Parse straight from a parsed `project.json` / `scene.json` document.
    pub fn from_document(doc: &Json) -> (r: PropertySet)
        ensures
            match crate::json::field(doc@, "general"@) {
                Some(g) => lists_declared(r@, declared_table(g)),
                None => r@ == Seq::<PropertyModel>::empty(),
            },
    {
        match doc.get("general") {
            Some(g) => Self::from_general(g),
            None => {
                let r = PropertySet { properties: Vec::new() };
                proof {
                    assert(r@ =~= Seq::<PropertyModel>::empty());
                }
                r
            },
        }
    }

    pub fn is_empty(&self) -> (r: bool)
        ensures
            r == (self@.len() == 0),
    {
        self.properties.len() == 0
    }

    pub fn len(&self) -> (r: usize)
        ensures
            r == self@.len(),
    {
        self.properties.len()
    }

    fn index_of(&self, key: &str) -> (r: Option<usize>)
        ensures
            match r {
                Some(i) => index_of_key(self@, key@, 0) == Some(i as int) && i < self@.len(),
                None => index_of_key(self@, key@, 0) is None,
            },
    {
        let mut i: usize = 0;
        while i < self.properties.len()
            invariant
                i <= self.properties@.len(),
                index_of_key(self@, key@, 0) == index_of_key(self@, key@, i as int),
            decreases self.properties@.len() - i,
        {
            if same_text(self.properties[i].key.as_str(), key) {
                return Some(i);
            }
            i += 1;
        }
        None
    }

    /// The property of that key.
    pub fn get(&self, key: &str) -> (r: Option<&Property>)
        ensures
            match r {
                Some(p) => index_of_key(self@, key@, 0) matches Some(i) && p@ == self@[i],
                None => index_of_key(self@, key@, 0) is None,
            },
    {
        match self.index_of(key) {
            Some(i) => Some(&self.properties[i]),
            None => None,
        }
    }

    /// Properties a user can actually change.
    pub fn editable(&self) -> (r: Vec<&Property>)
        ensures
            Seq::new(r@.len(), |i: int| r@[i]@) == self@.filter(
                |p: PropertyModel| p.kind.editable(),
            ),
    {
        let ghost keep = |p: PropertyModel| p.kind.editable();
        let mut out: Vec<&Property> = Vec::new();
        let mut i: usize = 0;
        proof {
            reveal(Seq::filter);
            assert(self@.take(0) =~= Seq::<PropertyModel>::empty());
            assert(Seq::new(out@.len(), |i: int| out@[i]@) =~= self@.take(0).filter(keep));
        }
        while i < self.properties.len()
            invariant
                i <= self.properties@.len(),
                keep == (|p: PropertyModel| p.kind.editable()),
                Seq::new(out@.len(), |i: int| out@[i]@) == self@.take(i as int).filter(keep),
            decreases self.properties@.len() - i,
        {
            let ghost was = Seq::new(out@.len(), |i: int| out@[i]@);
            let p = &self.properties[i];
            proof {
                reveal(Seq::filter);
                assert(self@.take(i + 1).drop_last() =~= self@.take(i as int));
                assert(self@.take(i + 1).last() == p@);
            }
            if p.kind.is_editable() {
                out.push(p);
                proof {
                    assert(Seq::new(out@.len(), |i: int| out@[i]@) =~= was.push(p@));
                }
            }
            i += 1;
        }
        proof {
            assert(self@.take(self@.len() as int) =~= self@);
        }
        out
    }
}

/// A change that saved values make: which property, and to what.
#[derive(Debug, PartialEq, Eq)]
pub struct Change {
    pub index: usize,
    pub coercion: Coercion,
}

/// What a change stands for.
pub ghost struct ChangeModel {
    pub index: int,
    pub coercion: CoercionModel,
}

impl View for Change {
    type V = ChangeModel;

    open spec fn view(&self) -> ChangeModel {
        ChangeModel { index: self.index as int, coercion: self.coercion@ }
    }
}

/// What the changes of a list stand for.
pub open spec fn change_views(v: Seq<Change>) -> Seq<ChangeModel> {
    Seq::new(v.len(), |i: int| v[i]@)
}

/// The value in a saved entry: wrapped as `{"value": v}`, or bare.
pub open spec fn saved_value(entry: JsonTree) -> JsonTree {
    match crate::json::field(entry, "value"@) {
        Some(v) => v,
        None => entry,
    }
}

/// The change that a saved entry makes: none where no property has its key, or where
/// its value cannot be represented.
pub open spec fn entry_change(list: Seq<PropertyModel>, key: Seq<char>, entry: JsonTree) -> Seq<
    ChangeModel,
> {
    match index_of_key(list, key, 0) {
        None => Seq::empty(),
        Some(i) => match coerced(list[i], saved_value(entry)) {
            Some(coercion) => seq![ChangeModel { index: i, coercion }],
            None => Seq::empty(),
        },
    }
}

/// The changes that saved values make, in the order of their keys. Under `general`
/// stands a whole document, whose `properties` are taken in its place.
pub open spec fn saved_changes_in(list: Seq<PropertyModel>, saved: JsonTree) -> Seq<ChangeModel>
    decreases saved, 0nat,
{
    match saved {
        JsonTree::Table(m) => {
            let keys = crate::strmap::listing(m.dom());
            changes_upto(list, m, keys, keys.len())
        },
        _ => Seq::empty(),
    }
}

/// The changes that the first `n` keys make.
pub open spec fn changes_upto(
    list: Seq<PropertyModel>,
    m: Map<Seq<char>, JsonTree>,
    keys: Seq<Seq<char>>,
    n: nat,
) -> Seq<ChangeModel>
    decreases m, n,
{
    if n == 0 || n > keys.len() || !m.dom().finite() || !m.dom().contains(keys[n - 1]) {
        Seq::empty()
    } else {
        let key = keys[n - 1];
        let earlier = changes_upto(list, m, keys, (n - 1) as nat);
        if key == "general"@ {
            match m[key] {
                JsonTree::Table(g) => if g.dom().finite() && g.dom().contains("properties"@) {
                    proof {
                        assert(decreases_to!(m => m[key]));
                        assert(decreases_to!(m[key] => m[key]->Table_0));
                        assert(decreases_to!(g => g["properties"@]));
                    }
                    earlier + saved_changes_in(list, g["properties"@])
                } else {
                    earlier
                },
                _ => earlier,
            }
        } else {
            earlier + entry_change(list, key, m[key])
        }
    }
}

/// A property with another value.
pub open spec fn with_value(p: PropertyModel, value: JsonTree) -> PropertyModel {
    PropertyModel { value, ..p }
}

/// What a change sets: its own value, or what was made of it outside.
pub open spec fn settled(c: CoercionModel, finished: Option<JsonTree>) -> Option<JsonTree> {
    match c {
        CoercionModel::Value(v) => Some(v),
        _ => finished,
    }
}

/// The properties once the first `n` changes are made, `finished` being what was made
/// of those that are not settled.
pub open spec fn changed(
    list: Seq<PropertyModel>,
    changes: Seq<ChangeModel>,
    finished: Seq<Option<JsonTree>>,
    n: int,
) -> Seq<PropertyModel>
    decreases n,
{
    if n <= 0 {
        list
    } else {
        let before = changed(list, changes, finished, n - 1);
        let c = changes[n - 1];
        match settled(c.coercion, finished[n - 1]) {
            Some(v) => if 0 <= c.index < before.len() {
                before.update(c.index, with_value(before[c.index], v))
            } else {
                before
            },
            None => before,
        }
    }
}

/// The documents of a list of optional ones.
pub open spec fn opt_trees(v: Seq<Option<Json>>) -> Seq<Option<JsonTree>> {
    Seq::new(
        v.len(),
        |i: int|
            match v[i] {
                Some(j) => Some(j@),
                None => None,
            },
    )
}

/// The document that holds one value, as the engine saves it.
pub open spec fn saved_entry(value: JsonTree) -> JsonTree {
    JsonTree::Table(Map::empty().insert("value"@, value))
}

/// The saved values of the first `n` properties that a user can change.
pub open spec fn saved_table(list: Seq<PropertyModel>, n: int) -> Map<Seq<char>, JsonTree>
    decreases n,
{
    if n <= 0 {
        Map::empty()
    } else {
        let before = saved_table(list, n - 1);
        if list[n - 1].kind.editable() {
            before.insert(list[n - 1].key, saved_entry(list[n - 1].value))
        } else {
            before
        }
    }
}

impl PropertySet {
    /// The changes that saved values make, in order. What one of them needs from the
    /// arithmetic of floating point is left open.
    ///
    /// The engine stores a user's choices as `{key: {"value": v}}` (the same
    /// wrapping the declarations use), so both shapes are accepted: wrapped and
    /// bare. Keys with no matching declaration are ignored - they belong to a
    /// wallpaper that has since changed, and inventing a property for them would
    /// resurrect settings the creator removed.
    pub fn saved_changes(&self, saved: &Json) -> (r: Vec<Change>)
        ensures
            change_views(r@) == saved_changes_in(self@, saved@),
            forall|i: int| 0 <= i < r@.len() ==> (#[trigger] r@[i]).index < self@.len(),
        decreases saved,
    {
        let mut out: Vec<Change> = Vec::new();
        proof {
            assert(change_views(out@) =~= Seq::<ChangeModel>::empty());
        }
        let table = match saved {
            Json::Table(m) => m,
            _ => return out,
        };
        let n = table.len();
        let ghost keys = table.keys();
        let ghost m = saved@->Table_0;
        proof {
            assert(m.dom() =~= table@.dom());
            crate::strmap::lemma_keys_listing(keys, table@);
        }
        let mut i: usize = 0;
        while i < n
            invariant
                i <= n == keys.len(),
                keys == table.keys(),
                *saved == Json::Table(*table),
                saved@ == JsonTree::Table(m),
                m.dom() == table@.dom(),
                m.dom().finite(),
                crate::strmap::lists_keys(keys, table@),
                change_views(out@) == changes_upto(self@, m, keys, i as nat),
                forall|j: int| 0 <= j < out@.len() ==> (#[trigger] out@[j]).index < self@.len(),
            decreases n - i,
        {
            let ghost was = change_views(out@);
            let key = table.key_at(i);
            let entry = table.value_at(i);
            proof {
                assert(keys.contains(keys[i as int]));
                assert(m.dom().contains(key@));
                assert(m[key@] == entry@);
            }
            if same_text(key.as_str(), "general") {
                // A whole document was passed.
                if let Json::Table(general) = entry {
                    let count = general.len();
                    if let Some(inner) = general.get("properties") {
                        proof {
                            table.lemma_value_smaller(key@);
                            general.lemma_value_smaller("properties"@);
                            assert(decreases_to!(*saved => saved->Table_0));
                            assert(decreases_to!(*entry => entry->Table_0));
                            assert(m[key@]->Table_0.dom() =~= general@.dom());
                        }
                        let mut nested = self.saved_changes(inner);
                        let ghost more = change_views(nested@);
                        out.append(&mut nested);
                        proof {
                            assert(change_views(out@) =~= was + more);
                        }
                    } else {
                        proof {
                            assert(!m[key@]->Table_0.dom().contains("properties"@));
                        }
                    }
                }
            } else if let Some(at) = self.index_of(key.as_str()) {
                let raw = match entry.get("value") {
                    Some(v) => v,
                    None => entry,
                };
                proof {
                    assert(raw@ == saved_value(entry@));
                }
                if let Some(coercion) = self.properties[at].coerce(raw) {
                    let c = Change { index: at, coercion };
                    out.push(c);
                    proof {
                        assert(change_views(out@) =~= was + seq![c@]);
                    }
                } else {
                    proof {
                        assert(was + Seq::<ChangeModel>::empty() =~= was);
                    }
                }
            } else {
                proof {
                    assert(was + Seq::<ChangeModel>::empty() =~= was);
                }
            }
            i += 1;
        }
        out
    }

    /// Layer saved values over the declarations, `finished` being what was made of
    /// those changes that are not settled; one for each change, in order.
    pub fn apply_saved(&mut self, saved: &Json, finished: &Vec<Option<Json>>)
        requires
            finished@.len() == saved_changes_in(old(self)@, saved@).len(),
        ensures
            final(self)@ == changed(
                old(self)@,
                saved_changes_in(old(self)@, saved@),
                opt_trees(finished@),
                finished@.len() as int,
            ),
    {
        let changes = self.saved_changes(saved);
        let ghost list = self@;
        let ghost plan = saved_changes_in(self@, saved@);
        let ghost given = opt_trees(finished@);
        proof {
            assert(change_views(changes@).len() == changes@.len());
        }
        let mut i: usize = 0;
        while i < changes.len()
            invariant
                i <= changes@.len() == finished@.len(),
                plan == change_views(changes@),
                given == opt_trees(finished@),
                self@ == changed(list, plan, given, i as int),
                self@.len() == list.len(),
                forall|j: int| 0 <= j < changes@.len() ==> (#[trigger] changes@[j]).index < list.len(),
            decreases changes@.len() - i,
        {
            let at = changes[i].index;
            let value = match &changes[i].coercion {
                Coercion::Value(v) => Some(v.copy()),
                _ => match &finished[i] {
                    Some(v) => Some(v.copy()),
                    None => None,
                },
            };
            let ghost before = self@;
            proof {
                assert(plan[i as int] == changes@[i as int]@);
            }
            if let Some(v) = value {
                let ghost v0 = v@;
                set_value(&mut self.properties, at, v);
                proof {
                    assert(self@ =~= before.update(at as int, with_value(before[at as int], v0)));
                }
            }
            i += 1;
        }
    }

    /// Serialize back to the engine's saved form: `{key: {"value": v}}`, only
    /// for editable properties.
    pub fn to_saved(&self) -> (r: Json)
        ensures
            r@ == JsonTree::Table(saved_table(self@, self@.len() as int)),
    {
        let mut table: StrMap<Json> = StrMap::new();
        let mut i: usize = 0;
        proof {
            assert(crate::effect::trees(table@) =~= saved_table(self@, 0));
        }
        while i < self.properties.len()
            invariant
                i <= self.properties@.len(),
                crate::effect::trees(table@) == saved_table(self@, i as int),
            decreases self.properties@.len() - i,
        {
            let p = &self.properties[i];
            proof {
                assert(self@[i as int] == p@);
            }
            if p.kind.is_editable() {
                let ghost was = crate::effect::trees(table@);
                let mut inner: StrMap<Json> = StrMap::new();
                inner.insert("value".to_string(), p.value.copy());
                let entry = Json::Table(inner);
                proof {
                    assert(entry@->Table_0 =~= saved_entry(p@.value)->Table_0);
                }
                let ghost e = entry@;
                table.insert(p.key.clone(), entry);
                proof {
                    assert(crate::effect::trees(table@) =~= was.insert(p@.key, e));
                }
            }
            i += 1;
        }
        let r = Json::Table(table);
        proof {
            assert(r@->Table_0 =~= saved_table(self@, self@.len() as int));
        }
        r
    }
}

/// Set the value of the property at a place.
fn set_value(list: &mut Vec<Property>, at: usize, value: Json)
    requires
        at < old(list)@.len(),
    ensures
        final(list)@.len() == old(list)@.len(),
        forall|i: int| 0 <= i < old(list)@.len() && i != at ==> final(list)@[i] == old(list)@[i],
        final(list)@[at as int]@ == with_value(old(list)@[at as int]@, value@),
{
    list[at].value = value;
}

/// Where a dropdown has options, whatever it is set to is the value of one of them.
pub proof fn law_choice_lands_on_an_option(p: PropertyModel, input: JsonTree, value: JsonTree)
    requires
        p.kind is Combo,
        p.options.len() > 0,
        coerced(p, input) == Some(CoercionModel::Value(value)),
    ensures
        choice_text(value) matches Some(s) && has_value(p.options, s),
{
    if input is Null {
        assert(p.options[0].value == p.options[0].value);
    } else {
        let s = choice_text(input)->Some_0;
        if !has_value(p.options, s) {
            lemma_labelled(p.options, s, 0);
        }
    }
}

proof fn lemma_labelled(options: Seq<OptionModel>, s: Seq<char>, i: int)
    requires
        0 <= i,
    ensures
        value_labelled(options, s, i) matches Some(v) ==> has_value(options, v),
    decreases options.len() - i,
{
    if i < options.len() {
        if crate::text::lower_text(options[i].label) == crate::text::lower_text(s) {
            assert(options[i].value == options[i].value);
        } else {
            lemma_labelled(options, s, i + 1);
        }
    }
}

/// Whatever number sets a slider lands between its bounds, and on an integer where the
/// slider takes no fractions and one lies between them.
pub proof fn law_slider_lands_in_range(p: PropertyModel, input: JsonTree, value: JsonTree, k: int)
    requires
        p.kind is Slider,
        coerced(p, input) == Some(CoercionModel::Value(value)),
    ensures
        ({
            let range = range_or_unit(p.range);
            value matches JsonTree::Number(v) && crate::sliders::steps(v) matches Some(x)
                && crate::sliders::is_between(x, range.min, range.max) && (!range.fraction
                && crate::sliders::is_between(
                k * crate::doubles::one(),
                range.min,
                range.max,
            ) ==> crate::sliders::is_whole(x))
        }),
{
    let range = range_or_unit(p.range);
    let n = slide_source(input)->Some_0->Number_0;
    crate::sliders::law_slider_stays_in_range(n, range.min, range.max, range.fraction);
    if !range.fraction && crate::sliders::is_between(
        k * crate::doubles::one(),
        range.min,
        range.max,
    ) {
        crate::sliders::law_whole_slider_is_whole(n, range.min, range.max, k);
    }
}

/// A value that a property accepted is accepted again, and stays as it is. Only a
/// slider and a colour can leave one to be finished.
pub proof fn law_coercing_twice_is_coercing_once(p: PropertyModel, input: JsonTree)
    ensures
        match coerced(p, input) {
            Some(CoercionModel::Value(value)) => coerced(p, value) == Some(
                CoercionModel::Value(value),
            ),
            Some(CoercionModel::Slide(_)) => p.kind is Slider,
            Some(CoercionModel::Colour(_)) => p.kind is Color,
            None => true,
        },
{
    match p.kind {
        KindModel::Slider => {
            let range = range_or_unit(p.range);
            if let Some(SlideModel::Number(n)) = slide_source(input) {
                crate::sliders::law_sliding_twice_is_sliding_once(
                    n,
                    range.min,
                    range.max,
                    range.fraction,
                );
            }
        },
        KindModel::Color => {
            if let JsonTree::Text(s) = input {
                crate::text::lemma_trimmed_twice(s);
            }
        },
        KindModel::Combo => {
            if p.options.len() > 0 {
                if let Some(CoercionModel::Value(value)) = coerced(p, input) {
                    law_choice_lands_on_an_option(p, input, value);
                }
            }
        },
        _ => {},
    }
}

/// Whether a value is of the form that its property's values are finished in: a triple
/// for a colour, and for a slider a number between its bounds, an integer being written
/// as one and a fraction standing only where the slider takes fractions.
pub open spec fn is_finished(p: PropertyModel, value: JsonTree) -> bool {
    match (p.kind, value) {
        (KindModel::Color, JsonTree::Text(s)) => s == crate::text::trimmed(s) && is_triple(s),
        (KindModel::Slider, JsonTree::Number(n)) => {
            let range = range_or_unit(p.range);
            &&& crate::sliders::steps(range.min) is Some
            &&& crate::sliders::steps(range.max) is Some
            &&& crate::sliders::steps(n) matches Some(x) && {
                &&& crate::sliders::is_between(x, range.min, range.max)
                &&& if crate::sliders::is_whole(x) && crate::sliders::is_small(x) {
                    n == crate::sliders::number_of(x / (crate::doubles::one() as int))
                } else {
                    range.fraction || !crate::sliders::is_small(x)
                }
            }
        },
        _ => false,
    }
}

/// A value that was finished outside is accepted as it is: a colour that was written
/// as a triple, a number that a slider was brought to.
pub proof fn law_finished_values_are_kept(p: PropertyModel, value: JsonTree)
    requires
        is_finished(p, value),
    ensures
        coerced(p, value) == Some(CoercionModel::Value(value)),
{
}

/// Applying saved values changes values alone: no property comes or goes, and what
/// is declared of each stays.
pub proof fn law_saved_values_change_values_alone(
    list: Seq<PropertyModel>,
    changes: Seq<ChangeModel>,
    finished: Seq<Option<JsonTree>>,
    n: int,
    i: int,
)
    requires
        0 <= n <= changes.len(),
        0 <= i < list.len(),
    ensures
        changed(list, changes, finished, n).len() == list.len(),
        changed(list, changes, finished, n)[i] == with_value(
            list[i],
            changed(list, changes, finished, n)[i].value,
        ),
        (forall|j: int| 0 <= j < n ==> (#[trigger] changes[j]).index != i) ==> changed(
            list,
            changes,
            finished,
            n,
        )[i] == list[i],
    decreases n,
{
    if n > 0 {
        law_saved_values_change_values_alone(list, changes, finished, n - 1, i);
        let before = changed(list, changes, finished, n - 1);
        let c = changes[n - 1];
        lemma_changed_len(list, changes, finished, n - 1);
        if settled(c.coercion, finished[n - 1]) is Some && 0 <= c.index < before.len() && c.index == i {
            law_saved_values_change_values_alone(list, changes, finished, n - 1, c.index);
        }
    }
}

pub proof fn lemma_changed_len(
    list: Seq<PropertyModel>,
    changes: Seq<ChangeModel>,
    finished: Seq<Option<JsonTree>>,
    n: int,
)
    ensures
        changed(list, changes, finished, n).len() == list.len(),
    decreases n,
{
    if n > 0 {
        lemma_changed_len(list, changes, finished, n - 1);
    }
}

/// Whether no two properties have one key.
pub open spec fn distinct_keys(list: Seq<PropertyModel>) -> bool {
    forall|i: int, j: int| 0 <= i < j < list.len() ==> (#[trigger] list[i]).key != (#[trigger] list[j]).key
}

/// Whether every property that a user can change accepts the value it has.
pub open spec fn values_accepted(list: Seq<PropertyModel>) -> bool {
    forall|i: int|
        0 <= i < list.len() && (#[trigger] list[i]).kind.editable() ==> coerced(
            list[i],
            list[i].value,
        ) == Some(CoercionModel::Value(list[i].value))
}

/// Saving and applying what was saved changes nothing, where every value is one that
/// its property accepts.
pub proof fn law_saved_values_are_read_back(list: Seq<PropertyModel>, finished: Seq<Option<JsonTree>>)
    requires
        distinct_keys(list),
        values_accepted(list),
    ensures
        changed(
            list,
            saved_changes_in(list, JsonTree::Table(saved_table(list, list.len() as int))),
            finished,
            saved_changes_in(list, JsonTree::Table(saved_table(list, list.len() as int))).len() as int,
        ) == list,
{
    let m = saved_table(list, list.len() as int);
    let keys = crate::strmap::listing(m.dom());
    let changes = saved_changes_in(list, JsonTree::Table(m));
    lemma_saved_finite(list, list.len() as int);
    lemma_changes_harmless(list, keys, keys.len());
    assert(changes == changes_upto(list, m, keys, keys.len()));
    lemma_harmless(list, changes, finished, changes.len() as int);
}

/// Whether a change sets a property to the value that it has.
spec fn is_harmless(list: Seq<PropertyModel>, c: ChangeModel) -> bool {
    0 <= c.index < list.len() && c.coercion == CoercionModel::Value(list[c.index].value)
}

proof fn lemma_harmless(
    list: Seq<PropertyModel>,
    changes: Seq<ChangeModel>,
    finished: Seq<Option<JsonTree>>,
    n: int,
)
    requires
        0 <= n <= changes.len(),
        forall|j: int| 0 <= j < changes.len() ==> is_harmless(list, #[trigger] changes[j]),
    ensures
        changed(list, changes, finished, n) == list,
    decreases n,
{
    if n > 0 {
        lemma_harmless(list, changes, finished, n - 1);
        let c = changes[n - 1];
        assert(is_harmless(list, c));
        assert(with_value(list[c.index], list[c.index].value) =~= list[c.index]);
        assert(list.update(c.index, list[c.index]) =~= list);
    }
}

proof fn lemma_saved_finite(list: Seq<PropertyModel>, n: int)
    ensures
        saved_table(list, n).dom().finite(),
    decreases n,
{
    if n > 0 {
        lemma_saved_finite(list, n - 1);
    }
}

/// Every saved value is that of a property.
proof fn lemma_saved_of(list: Seq<PropertyModel>, n: int, key: Seq<char>)
    requires
        0 <= n <= list.len(),
        saved_table(list, n).dom().contains(key),
    ensures
        exists|i: int|
            0 <= i < n && (#[trigger] list[i]).key == key && list[i].kind.editable() && saved_table(
                list,
                n,
            )[key] == saved_entry(list[i].value),
    decreases n,
{
    if n > 0 {
        if list[n - 1].kind.editable() && list[n - 1].key == key {
            assert(list[n - 1].key == key);
        } else {
            lemma_saved_of(list, n - 1, key);
            let i = choose|i: int|
                0 <= i < n - 1 && (#[trigger] list[i]).key == key && list[i].kind.editable()
                    && saved_table(list, n - 1)[key] == saved_entry(list[i].value);
            assert(list[i].key == key);
        }
    }
}

pub proof fn lemma_index_of_key(list: Seq<PropertyModel>, i: int, from: int)
    requires
        distinct_keys(list),
        0 <= from <= i < list.len(),
    ensures
        index_of_key(list, list[i].key, from) == Some(i),
    decreases i - from,
{
    if from < i {
        assert(list[from].key != list[i].key);
        lemma_index_of_key(list, i, from + 1);
    }
}

proof fn lemma_changes_harmless(list: Seq<PropertyModel>, keys: Seq<Seq<char>>, n: nat)
    requires
        distinct_keys(list),
        values_accepted(list),
    ensures
        forall|j: int|
            0 <= j < changes_upto(list, saved_table(list, list.len() as int), keys, n).len()
                ==> is_harmless(
                list,
                #[trigger] changes_upto(list, saved_table(list, list.len() as int), keys, n)[j],
            ),
    decreases n,
{
    let m = saved_table(list, list.len() as int);
    if !(n == 0 || n > keys.len() || !m.dom().finite() || !m.dom().contains(keys[n - 1])) {
        lemma_changes_harmless(list, keys, (n - 1) as nat);
        let key = keys[n - 1];
        let earlier = changes_upto(list, m, keys, (n - 1) as nat);
        lemma_saved_of(list, list.len() as int, key);
        let i = choose|i: int|
            0 <= i < list.len() && (#[trigger] list[i]).key == key && list[i].kind.editable()
                && m[key] == saved_entry(list[i].value);
        lemma_index_of_key(list, i, 0);
        let value = list[i].value;
        reveal_strlit("value");
        reveal_strlit("properties");
        assert("value"@.len() == 5 && "properties"@.len() == 10);
        assert(saved_value(saved_entry(value)) == value);
        let all = changes_upto(list, m, keys, n);
        if key == "general"@ {
            assert(all == earlier);
        } else {
            let c = ChangeModel { index: i, coercion: CoercionModel::Value(value) };
            assert(entry_change(list, key, m[key]) == seq![c]);
            assert(all == earlier + seq![c]);
            assert forall|j: int| 0 <= j < all.len() implies is_harmless(list, #[trigger] all[j]) by {
                if j < earlier.len() {
                    assert(all[j] == earlier[j]);
                } else {
                    assert(all[j] == c);
                }
            }
        }
    }
}

/// There is only one list of the properties that a table declares.
pub proof fn law_declared_order_is_determined(
    a: Seq<PropertyModel>,
    b: Seq<PropertyModel>,
    m: Map<Seq<char>, JsonTree>,
)
    requires
        lists_declared(a, m),
        lists_declared(b, m),
    ensures
        a == b,
{
    assert forall|x: PropertyModel| a.contains(x) implies #[trigger] b.contains(x) by {
        let i = choose|i: int| 0 <= i < a.len() && a[i] == x;
        assert(m.dom().contains(a[i].key));
    }
    assert forall|x: PropertyModel| b.contains(x) implies #[trigger] a.contains(x) by {
        let i = choose|i: int| 0 <= i < b.len() && b[i] == x;
        assert(m.dom().contains(b[i].key));
    }
    lemma_same_order(a, b);
}

proof fn lemma_same_order(a: Seq<PropertyModel>, b: Seq<PropertyModel>)
    requires
        in_order(a),
        in_order(b),
        forall|x: PropertyModel| a.contains(x) ==> #[trigger] b.contains(x),
        forall|x: PropertyModel| b.contains(x) ==> #[trigger] a.contains(x),
    ensures
        a == b,
    decreases a.len(),
{
    if a.len() == 0 {
        if b.len() > 0 {
            assert(b.contains(b[0]));
            assert(a.contains(b[0]));
        }
        assert(a =~= b);
    } else {
        let x = a.last();
        assert(a[a.len() - 1] == x);
        assert(a.contains(x));
        assert(b.contains(x));
        let y = b.last();
        assert(b[b.len() - 1] == y);
        assert(b.contains(y));
        assert(a.contains(y));
        if x != y {
            let i = choose|i: int| 0 <= i < a.len() && a[i] == y;
            let j = choose|j: int| 0 <= j < b.len() && b[j] == x;
            assert(comes_before(a[i], a[a.len() - 1]));
            assert(comes_before(b[j], b[b.len() - 1]));
            lemma_not_both_before(x, y);
        }
        let s = a.drop_last();
        let t = b.drop_last();
        assert forall|z: PropertyModel| s.contains(z) implies #[trigger] t.contains(z) by {
            let i = choose|i: int| 0 <= i < s.len() && s[i] == z;
            assert(a[i] == z);
            assert(a.contains(z));
            assert(b.contains(z));
            let j = choose|j: int| 0 <= j < b.len() && b[j] == z;
            if j == b.len() - 1 {
                assert(comes_before(a[i], a[a.len() - 1]));
                lemma_not_both_before(x, x);
            }
            assert(t[j] == z);
        }
        assert forall|z: PropertyModel| t.contains(z) implies #[trigger] s.contains(z) by {
            let i = choose|i: int| 0 <= i < t.len() && t[i] == z;
            assert(b[i] == z);
            assert(b.contains(z));
            assert(a.contains(z));
            let j = choose|j: int| 0 <= j < a.len() && a[j] == z;
            if j == a.len() - 1 {
                assert(comes_before(b[i], b[b.len() - 1]));
                lemma_not_both_before(x, x);
            }
            assert(s[j] == z);
        }
        lemma_same_order(s, t);
        assert(a =~= s.push(x));
        assert(b =~= t.push(x));
    }
}

proof fn lemma_not_both_before(x: PropertyModel, y: PropertyModel)
    ensures
        !(comes_before(x, y) && comes_before(y, x)),
{
    crate::strmap::lemma_before_total(x.key, y.key);
    crate::strmap::lemma_before_irreflexive(x.key);
}

/// A byte in two hexadecimal digits, in lower or in upper case.
pub open spec fn hex_digits(b: u8, upper: bool) -> Seq<char> {
    let digit = |d: int|
        if d < 10 {
            ('0' as int + d) as char
        } else if upper {
            ('A' as int + d - 10) as char
        } else {
            ('a' as int + d - 10) as char
        };
    seq![digit(b as int / 16), digit(b as int % 16)]
}

proof fn lemma_hex_digits(b: u8, upper: bool)
    ensures
        hex_digits(b, upper).len() == 2,
        hex_byte(hex_digits(b, upper)[0], hex_digits(b, upper)[1]) == Some(b),
        !crate::text::white_space(hex_digits(b, upper)[0]),
        !crate::text::white_space(hex_digits(b, upper)[1]),
        hex_digits(b, upper)[0] != '#',
{
    let h = hex_digits(b, upper);
    let high = b as int / 16;
    let low = b as int % 16;
    assert(0 <= high < 16 && 0 <= low < 16 && b == 16 * high + low);
    assert(hex_value(h[0]) == Some(high as u8));
    assert(hex_value(h[1]) == Some(low as u8));
}

/// A hexadecimal colour is read back: the two digits of each channel, in the order red,
/// green, blue, whatever white space stands around them and whatever digits stand behind.
pub proof fn law_hexadecimal_colours_are_read_back(
    lead: Seq<char>,
    r: u8,
    g: u8,
    b: u8,
    upper: bool,
    end: Seq<char>,
)
    requires
        crate::effect::is_space(lead),
        crate::effect::is_space(end),
    ensures
        colour_in(
            JsonTree::Text(
                lead + (seq!['#'] + hex_digits(r, upper) + hex_digits(g, upper) + hex_digits(
                    b,
                    upper,
                )) + end,
            ),
        ) == Some(
            ColourModel {
                r: ChannelModel::Hex(r),
                g: ChannelModel::Hex(g),
                b: ChannelModel::Hex(b),
            },
        ),
{
    lemma_hex_digits(r, upper);
    lemma_hex_digits(g, upper);
    lemma_hex_digits(b, upper);
    let h = hex_digits(r, upper) + hex_digits(g, upper) + hex_digits(b, upper);
    let w = seq!['#'] + hex_digits(r, upper) + hex_digits(g, upper) + hex_digits(b, upper);
    assert(w.last() == hex_digits(b, upper)[1]);
    crate::text::law_space_around_is_trimmed(lead, w, end);
    assert(w.skip(1) =~= h);
    assert(h[0] == hex_digits(r, upper)[0] && h[1] == hex_digits(r, upper)[1]);
    assert(h[2] == hex_digits(g, upper)[0] && h[3] == hex_digits(g, upper)[1]);
    assert(h[4] == hex_digits(b, upper)[0] && h[5] == hex_digits(b, upper)[1]);
    assert(without_signs(h) == h);
    assert(without_signs(w) == h);
}

/// A colour in words is read back: of its words that are numbers three are red, green and
/// blue in that order, a fourth does not matter, and one alone is all three.
pub proof fn law_colours_in_words_are_read_back(
    s: Seq<char>,
    r: Seq<char>,
    g: Seq<char>,
    b: Seq<char>,
    a: Seq<char>,
)
    requires
        crate::text::trimmed(s).len() > 0 ==> crate::text::trimmed(s)[0] != '#',
        crate::numbers::float_text(r),
        crate::numbers::float_text(g),
        crate::numbers::float_text(b),
        crate::numbers::float_text(a),
    ensures
        ({
            let words = crate::text::words_of(crate::text::trimmed(s));
            let colour = colour_in(JsonTree::Text(s));
            &&& words == seq![r, g, b] || words == seq![r, g, b, a] ==> colour == Some(
                ColourModel {
                    r: ChannelModel::Text(r),
                    g: ChannelModel::Text(g),
                    b: ChannelModel::Text(b),
                },
            )
            &&& words == seq![r] ==> colour == Some(
                ColourModel {
                    r: ChannelModel::Text(r),
                    g: ChannelModel::Text(r),
                    b: ChannelModel::Text(r),
                },
            )
            &&& words == seq![r, g] || words.len() == 0 ==> colour is None
        }),
{
    reveal_with_fuel(numbers_among, 5);
}

/// A list of numbers is a colour: its first three are red, green and blue in that order.
pub proof fn law_colour_lists_are_read_back(
    r: NumberModel,
    g: NumberModel,
    b: NumberModel,
    more: Seq<NumberModel>,
)
    ensures
        colour_in(
            JsonTree::List(
                seq![JsonTree::Number(r), JsonTree::Number(g), JsonTree::Number(b)] + Seq::new(
                    more.len(),
                    |i: int| JsonTree::Number(more[i]),
                ),
            ),
        ) == Some(
            ColourModel {
                r: ChannelModel::Number(r),
                g: ChannelModel::Number(g),
                b: ChannelModel::Number(b),
            },
        ),
        colour_in(JsonTree::List(seq![JsonTree::Number(r), JsonTree::Number(g)])) is None,
{
    let l = seq![JsonTree::Number(r), JsonTree::Number(g), JsonTree::Number(b)] + Seq::new(
        more.len(),
        |i: int| JsonTree::Number(more[i]),
    );
    lemma_all_numbers(l, seq![r, g, b] + more, l.len() as int);
    let two = seq![JsonTree::Number(r), JsonTree::Number(g)];
    lemma_all_numbers(two, seq![r, g], 2);
}

proof fn lemma_all_numbers(l: Seq<JsonTree>, v: Seq<NumberModel>, n: int)
    requires
        l.len() == v.len(),
        0 <= n <= l.len(),
        forall|i: int| 0 <= i < l.len() ==> #[trigger] l[i] == JsonTree::Number(v[i]),
    ensures
        numbers_in(l, n) == v.take(n),
    decreases n,
{
    if n > 0 {
        lemma_all_numbers(l, v, n - 1);
        assert(l[n - 1] == JsonTree::Number(v[n - 1]));
        assert(v.take(n - 1).push(v[n - 1]) =~= v.take(n));
    } else {
        assert(v.take(n) =~= Seq::<NumberModel>::empty());
    }
}

/// A declaration is read part by part, each under its own key; what is declared under any
/// other key is kept aside as it is.
pub proof fn law_a_property_is_what_it_is_declared(
    key: Seq<char>,
    m: Map<Seq<char>, JsonTree>,
    s: Seq<char>,
    v: JsonTree,
    n: u32,
    k: Seq<char>,
)
    ensures
        declared_property(key, JsonTree::Null) is None,
        declared_property(key, JsonTree::Table(m)) matches Some(p) && {
            &&& p.key == key
            &&& crate::effect::says(m, "type"@, JsonTree::Text(s)) ==> p.kind == kind_named(s)
            &&& crate::effect::says_no_text(m, "type"@) ==> p.kind == KindModel::Other(Seq::empty())
            &&& crate::effect::says(m, "value"@, v) ==> p.value == v
            &&& !m.dom().contains("value"@) ==> p.value == JsonTree::Null
            &&& crate::effect::says(m, "text"@, JsonTree::Text(s)) ==> p.text == s
            &&& crate::effect::says_no_text(m, "text"@) ==> p.text == Seq::<char>::empty()
            &&& crate::effect::says(
                m,
                "order"@,
                JsonTree::Number(NumberModel::Natural(n as u64)),
            ) ==> p.order == Some(n)
            &&& !m.dom().contains("order"@) ==> p.order is None
            &&& crate::effect::says(
                m,
                "index"@,
                JsonTree::Number(NumberModel::Natural(n as u64)),
            ) ==> p.index == Some(n)
            &&& !m.dom().contains("index"@) ==> p.index is None
            &&& p.extra.dom().contains(k) <==> m.dom().contains(k) && !(k == "type"@ || k == "value"@
                || k == "text"@ || k == "order"@ || k == "index"@ || k == "min"@ || k == "max"@ || k
                == "step"@ || k == "precision"@ || k == "fraction"@ || k == "options"@)
            &&& p.extra.dom().contains(k) ==> p.extra[k] == m[k]
        },
{
}

/// A bare declaration is a property of that value and of no type.
pub proof fn law_a_bare_declaration_is_its_value(key: Seq<char>, v: JsonTree)
    requires
        !(v is Null),
        !(v is Table),
    ensures
        declared_property(key, v) matches Some(p) && p.key == key && p.value == v && p.kind
            == KindModel::Other(Seq::empty()) && p.order is None && p.range is None
            && p.options.len() == 0,
{
    let m = declared_fields(v);
    reveal_strlit("value");
    reveal_strlit("type");
    reveal_strlit("order");
    reveal_strlit("min");
    reveal_strlit("max");
    reveal_strlit("options");
    assert("value"@.len() == 5 && "type"@.len() == 4 && "min"@.len() == 3 && "max"@.len() == 3
        && "options"@.len() == 7);
    assert("order"@[0] == 'o' && "value"@[0] == 'v');
}

/// A slider's range is what its declaration says: its bounds, from nought to one where
/// they are left out, its step and precision, and whether it takes fractions. Anything
/// else has a range where it declares a bound.
pub proof fn law_a_range_is_what_it_is_declared(
    m: Map<Seq<char>, JsonTree>,
    x: NumberModel,
    n: u32,
)
    ensures
        (declared_range(m) is Some) <==> (crate::effect::says(m, "type"@, JsonTree::Text("slider"@))
            || (m.dom().contains("min"@) && m["min"@] is Number) || (m.dom().contains("max"@)
            && m["max"@] is Number)),
        declared_range(m) matches Some(r) ==> {
            &&& crate::effect::says(m, "min"@, JsonTree::Number(x)) ==> r.min == x
            &&& !m.dom().contains("min"@) ==> r.min == NumberModel::Natural(0)
            &&& crate::effect::says(m, "max"@, JsonTree::Number(x)) ==> r.max == x
            &&& !m.dom().contains("max"@) ==> r.max == NumberModel::Natural(1)
            &&& crate::effect::says(m, "step"@, JsonTree::Number(x)) ==> r.step == Some(x)
            &&& !m.dom().contains("step"@) ==> r.step is None
            &&& crate::effect::says(
                m,
                "precision"@,
                JsonTree::Number(NumberModel::Natural(n as u64)),
            ) ==> r.precision == Some(n)
            &&& !m.dom().contains("precision"@) ==> r.precision is None
            &&& r.fraction <==> crate::effect::says(m, "fraction"@, JsonTree::Bool(true))
        },
{
    law_kinds_have_their_names("slider"@);
    if m.dom().contains("type"@) {
        if let JsonTree::Text(s) = m["type"@] {
            law_kinds_have_their_names(s);
        }
    }
}

/// Each kind has its own name in a declaration.
pub proof fn law_kinds_have_their_names(s: Seq<char>)
    ensures
        kind_named(s) is Bool <==> s == "bool"@,
        kind_named(s) is Slider <==> s == "slider"@,
        kind_named(s) is Color <==> s == "color"@,
        kind_named(s) is Combo <==> s == "combo"@,
        kind_named(s) is TextInput <==> s == "textinput"@,
        kind_named(s) is Texture <==> s == "texture"@ || s == "scenetexture"@,
        kind_named(s) is UserShortcut <==> s == "usershortcut"@,
        kind_named(s) is Group <==> s == "group"@,
        kind_named(s) is Text <==> s == "text"@,
        kind_named(s) matches KindModel::Other(t) ==> t == s,
{
    reveal_strlit("bool");
    reveal_strlit("slider");
    reveal_strlit("color");
    reveal_strlit("combo");
    reveal_strlit("textinput");
    reveal_strlit("texture");
    reveal_strlit("scenetexture");
    reveal_strlit("usershortcut");
    reveal_strlit("group");
    reveal_strlit("text");
    assert("bool"@[0] == 'b' && "slider"@[0] == 's' && "slider"@.len() == 6 && "color"@.len() == 5
        && "combo"@.len() == 5 && "textinput"@.len() == 9 && "texture"@.len() == 7
        && "scenetexture"@.len() == 12 && "usershortcut"@.len() == 12 && "group"@.len() == 5
        && "text"@.len() == 4);
    assert("color"@[2] == 'l' && "combo"@[2] == 'm' && "group"@[0] == 'g' && "color"@[0] == 'c'
        && "combo"@[0] == 'c' && "text"@[0] == 't' && "scenetexture"@[0] == 's'
        && "usershortcut"@[0] == 'u');
}

/// The options of a dropdown are those entries of its list that have a label and a value,
/// in the list's order.
pub proof fn law_options_are_read_back(list: Seq<JsonTree>, options: Seq<OptionModel>, n: int)
    requires
        list.len() == options.len(),
        0 <= n <= list.len(),
        forall|i: int|
            0 <= i < list.len() ==> ((#[trigger] list[i]) matches JsonTree::Table(m)
                && crate::effect::says(m, "label"@, JsonTree::Text(options[i].label))
                && crate::effect::says(m, "value"@, JsonTree::Text(options[i].value))),
    ensures
        options_in(list, n) == options.take(n),
    decreases n,
{
    if n > 0 {
        law_options_are_read_back(list, options, n - 1);
        assert(list[n - 1] is Table);
        assert(option_in(list[n - 1]) == Some(options[n - 1]));
        assert(options.take(n - 1).push(options[n - 1]) =~= options.take(n));
    } else {
        assert(options.take(n) =~= Seq::<OptionModel>::empty());
    }
}

/// A property comes before another by what the editor says: the smaller order first, of
/// one order the smaller index, of one index the smaller key; what has no order comes
/// behind what has one.
pub proof fn law_properties_are_ordered_by_the_editor(a: PropertyModel, b: PropertyModel)
    ensures
        (a.order matches Some(x) && b.order matches Some(y) && x < y) ==> comes_before(a, b)
            && !comes_before(b, a),
        (a.order matches Some(x) && x < u32::MAX && b.order is None) ==> comes_before(a, b)
            && !comes_before(b, a),
        a.order == b.order && (a.index matches Some(x) && b.index matches Some(y) && x < y)
            ==> comes_before(a, b) && !comes_before(b, a),
        a.order == b.order && (a.index matches Some(x) && x < u32::MAX && b.index is None)
            ==> comes_before(a, b) && !comes_before(b, a),
        a.order == b.order && a.index == b.index ==> comes_before(a, b) == crate::strmap::before(
            a.key,
            b.key,
        ),
{
}

/// A checkbox takes a truth value as it is, a number as whether it is not nought, and the
/// words that users write for either, in any case and with white space around them.
pub proof fn law_checkboxes_take_what_users_write(
    p: PropertyModel,
    b: bool,
    n: u64,
    i: i64,
    s: Seq<char>,
)
    requires
        p.kind is Bool,
    ensures
        coerced(p, JsonTree::Bool(b)) == Some(CoercionModel::Value(JsonTree::Bool(b))),
        coerced(p, JsonTree::Number(NumberModel::Natural(n))) == Some(
            CoercionModel::Value(JsonTree::Bool(n > 0)),
        ),
        i < 0 ==> coerced(p, JsonTree::Number(NumberModel::Negative(i))) == Some(
            CoercionModel::Value(JsonTree::Bool(true)),
        ),
        ({
            let w = crate::text::lower_text(crate::text::trimmed(s));
            let yes = w == "true"@ || w == "on"@ || w == "yes"@ || w == "1"@;
            let no = w == "false"@ || w == "off"@ || w == "no"@ || w == "0"@;
            &&& yes ==> coerced(p, JsonTree::Text(s)) == Some(
                CoercionModel::Value(JsonTree::Bool(true)),
            )
            &&& no && !yes ==> coerced(p, JsonTree::Text(s)) == Some(
                CoercionModel::Value(JsonTree::Bool(false)),
            )
            &&& !yes && !no ==> coerced(p, JsonTree::Text(s)) is None
        }),
        coerced(p, JsonTree::Null) is None,
{
}

/// A dropdown keeps a value that is one of its options, takes a label as the value of the
/// first option that has it, whatever the case, and refuses what is neither; nothing is
/// its first option.
pub proof fn law_dropdowns_take_values_and_labels(p: PropertyModel, s: Seq<char>, i: int)
    requires
        p.kind is Combo,
        0 <= i < p.options.len(),
    ensures
        p.options[i].value == s ==> coerced(p, JsonTree::Text(s)) == Some(
            CoercionModel::Value(JsonTree::Text(s)),
        ),
        (forall|j: int| 0 <= j < p.options.len() ==> (#[trigger] p.options[j]).value != s)
            && crate::text::lower_text(p.options[i].label) == crate::text::lower_text(s) && (forall|
            j: int,
        |
            0 <= j < i ==> crate::text::lower_text((#[trigger] p.options[j]).label)
                != crate::text::lower_text(s)) ==> coerced(p, JsonTree::Text(s)) == Some(
            CoercionModel::Value(JsonTree::Text(p.options[i].value)),
        ),
        (forall|j: int|
            0 <= j < p.options.len() ==> (#[trigger] p.options[j]).value != s
                && crate::text::lower_text(p.options[j].label) != crate::text::lower_text(s))
            ==> coerced(p, JsonTree::Text(s)) is None,
        coerced(p, JsonTree::Null) == Some(
            CoercionModel::Value(JsonTree::Text(p.options[0].value)),
        ),
{
    if crate::text::lower_text(p.options[i].label) == crate::text::lower_text(s) && (forall|j: int|
        0 <= j < i ==> crate::text::lower_text((#[trigger] p.options[j]).label)
            != crate::text::lower_text(s)) {
        lemma_label_found(p.options, s, 0, i);
    }
    if forall|j: int|
        0 <= j < p.options.len() ==> (#[trigger] p.options[j]).value != s
            && crate::text::lower_text(p.options[j].label) != crate::text::lower_text(s) {
        lemma_label_missing(p.options, s, 0);
    }
}

proof fn lemma_label_found(options: Seq<OptionModel>, s: Seq<char>, from: int, i: int)
    requires
        0 <= from <= i < options.len(),
        crate::text::lower_text(options[i].label) == crate::text::lower_text(s),
        forall|j: int|
            0 <= j < i ==> crate::text::lower_text((#[trigger] options[j]).label)
                != crate::text::lower_text(s),
    ensures
        value_labelled(options, s, from) == Some(options[i].value),
    decreases i - from,
{
    if from < i {
        assert(crate::text::lower_text(options[from].label) != crate::text::lower_text(s));
        lemma_label_found(options, s, from + 1, i);
    }
}

proof fn lemma_label_missing(options: Seq<OptionModel>, s: Seq<char>, from: int)
    requires
        0 <= from <= options.len(),
        forall|j: int|
            0 <= j < options.len() ==> crate::text::lower_text((#[trigger] options[j]).label)
                != crate::text::lower_text(s),
    ensures
        value_labelled(options, s, from) is None,
    decreases options.len() - from,
{
    if from < options.len() {
        assert(crate::text::lower_text(options[from].label) != crate::text::lower_text(s));
        lemma_label_missing(options, s, from + 1);
    }
}

/// Texts keep what is text and hold anything else as it is written; labels, headings and
/// unknown kinds keep any value.
pub proof fn law_texts_and_unknown_kinds_keep_their_value(
    p: PropertyModel,
    s: Seq<char>,
    v: JsonTree,
)
    ensures
        p.kind is TextInput || p.kind is Texture || p.kind is UserShortcut ==> coerced(
            p,
            JsonTree::Text(s),
        ) == Some(CoercionModel::Value(JsonTree::Text(s))) && coerced(p, JsonTree::Null) == Some(
            CoercionModel::Value(JsonTree::Text(Seq::empty())),
        ) && (!(v is Text) && !(v is Null) ==> coerced(p, v) == Some(
            CoercionModel::Value(JsonTree::Text(crate::json::json_text(v))),
        )),
        p.kind is Group || p.kind is Text || p.kind is Other ==> coerced(p, v) == Some(
            CoercionModel::Value(v),
        ),
{
}

/// A truth value sets a slider as nought or one does, and a text as the number that it
/// is; what is no number is refused.
pub proof fn law_sliders_take_numbers(p: PropertyModel, b: bool, s: Seq<char>, v: JsonTree)
    requires
        p.kind is Slider,
    ensures
        coerced(p, JsonTree::Bool(b)) == coerced(
            p,
            JsonTree::Number(
                NumberModel::Natural(
                    if b {
                        1
                    } else {
                        0
                    },
                ),
            ),
        ),
        crate::numbers::float_text(crate::text::trimmed(s)) ==> coerced(p, JsonTree::Text(s))
            == Some(CoercionModel::Slide(SlideModel::Text(crate::text::trimmed(s)))),
        !crate::numbers::float_text(crate::text::trimmed(s)) ==> coerced(p, JsonTree::Text(s))
            is None,
        v is Null || v is List || v is Table ==> coerced(p, v) is None,
{
}

/// A colour that is written as three numbers is kept without the white space around it,
/// and any other colour is left to be written as one; what is no colour is refused.
pub proof fn law_colours_are_kept_or_written(p: PropertyModel, s: Seq<char>, v: JsonTree)
    requires
        p.kind is Color,
    ensures
        is_triple(crate::text::trimmed(s)) ==> coerced(p, JsonTree::Text(s)) == Some(
            CoercionModel::Value(JsonTree::Text(crate::text::trimmed(s))),
        ),
        !(v is Text) ==> coerced(p, v) == (match colour_in(v) {
            Some(c) => Some(CoercionModel::Colour(c)),
            None => None,
        }),
        !is_triple(crate::text::trimmed(s)) ==> coerced(p, JsonTree::Text(s)) == (match colour_in(
            JsonTree::Text(s),
        ) {
            Some(c) => Some(CoercionModel::Colour(c)),
            None => None,
        }),
{
}

/// What is saved of a property is its value, wrapped, under its key, where a user can set
/// it; nothing else is saved.
pub proof fn law_editable_values_are_saved(list: Seq<PropertyModel>, n: int, i: int)
    requires
        distinct_keys(list),
        0 <= i < n <= list.len(),
    ensures
        !(list[i].kind is Group) && !(list[i].kind is Text) ==> saved_table(list, n).dom().contains(
            list[i].key,
        ) && (saved_table(list, n)[list[i].key] matches JsonTree::Table(e) && e =~= map![
            "value"@ => list[i].value,
        ]),
        list[i].kind is Group || list[i].kind is Text ==> !saved_table(list, n).dom().contains(
            list[i].key,
        ),
    decreases n,
{
    if i < n - 1 {
        law_editable_values_are_saved(list, n - 1, i);
        assert(list[i].key != list[n - 1].key);
    } else {
        lemma_not_saved(list, n - 1, i);
    }
}

proof fn lemma_not_saved(list: Seq<PropertyModel>, n: int, i: int)
    requires
        distinct_keys(list),
        0 <= n <= i < list.len(),
    ensures
        !saved_table(list, n).dom().contains(list[i].key),
    decreases n,
{
    if n > 0 {
        lemma_not_saved(list, n - 1, i);
        assert(list[n - 1].key != list[i].key);
    }
}

/// A saved value is taken bare or wrapped, and one for a key that no property has changes
/// nothing.
pub proof fn law_saved_values_are_bare_or_wrapped(
    list: Seq<PropertyModel>,
    key: Seq<char>,
    m: Map<Seq<char>, JsonTree>,
    v: JsonTree,
)
    ensures
        crate::effect::says(m, "value"@, v) ==> saved_value(JsonTree::Table(m)) == v,
        !(v is Table) ==> saved_value(v) == v,
        (forall|i: int| 0 <= i < list.len() ==> (#[trigger] list[i]).key != key) ==> entry_change(
            list,
            key,
            v,
        ).len() == 0,
        !(v is Table) && crate::effect::says(m, "value"@, v) ==> entry_change(list, key, v)
            == entry_change(list, key, JsonTree::Table(m)),
{
    if forall|i: int| 0 <= i < list.len() ==> (#[trigger] list[i]).key != key {
        lemma_no_such_key(list, key, 0);
    }
}

proof fn lemma_no_such_key(list: Seq<PropertyModel>, key: Seq<char>, from: int)
    requires
        0 <= from <= list.len(),
        forall|i: int| 0 <= i < list.len() ==> (#[trigger] list[i]).key != key,
    ensures
        index_of_key(list, key, from) is None,
    decreases list.len() - from,
{
    if from < list.len() {
        assert(list[from].key != key);
        lemma_no_such_key(list, key, from + 1);
    }
}

/// Three numbers with space between them are a triple, and neither two words are one nor
/// three of which one is no number.
pub proof fn law_a_triple_is_three_numbers(a: Seq<char>, b: Seq<char>, c: Seq<char>)
    requires
        crate::effect::is_word(a) && crate::effect::is_word(b) && crate::effect::is_word(c),
    ensures
        is_triple(a + seq![' '] + (b + seq![' '] + c)) == (crate::numbers::float_text(a)
            && crate::numbers::float_text(b) && crate::numbers::float_text(c)),
        !is_triple(b + seq![' '] + c),
{
    let none = Seq::<char>::empty();
    let z = Seq::<Seq<char>>::empty();
    let blank = seq![' '];
    let r2 = blank + c;
    let r1 = blank + (b + r2);
    assert(crate::text::white_space(' '));
    crate::text::lemma_reads_nothing();
    crate::text::lemma_reads(blank, c, none, z);
    assert(blank + c + none =~= r2);
    assert(r2[0] == ' ' && r1[0] == ' ');
    crate::text::lemma_reads(blank, b, r2, seq![c] + z);
    assert(blank + b + r2 =~= r1);
    crate::text::lemma_reads(none, b, r2, seq![c] + z);
    assert(none + b + r2 =~= b + blank + c);
    crate::text::lemma_reads(none, a, r1, seq![b] + (seq![c] + z));
    assert(none + a + r1 =~= a + blank + (b + blank + c));
    assert(seq![a] + (seq![b] + (seq![c] + z)) =~= seq![a, b, c]);
    assert(seq![b] + (seq![c] + z) =~= seq![b, c]);
    crate::text::lemma_words_read(a + blank + (b + blank + c), seq![a, b, c]);
    crate::text::lemma_words_read(b + blank + c, seq![b, c]);
    let words = seq![a, b, c];
    assert(words[0] == a && words[1] == b && words[2] == c);
}

/// A property is labelled with its text, and with its key where the text is nothing but
/// white space.
pub proof fn law_blank_labels_give_way_to_the_key(p: Property, r: &str)
    requires
        call_ensures(Property::label, (&p,), r),
    ensures
        (forall|i: int| 0 <= i < p.text@.len() ==> crate::text::white_space(#[trigger] p.text@[i]))
            ==> r@ == p.key@,
        (exists|i: int|
            0 <= i < p.text@.len() && !crate::text::white_space(#[trigger] p.text@[i])) ==> r@
            == p.text@,
{
    crate::text::law_only_white_space_is_trimmed_away(p.text@);
}

/// A set is asked by key for the first property of that key, and for those that can be set
/// in their order.
pub proof fn law_sets_are_asked_by_key(
    set: PropertySet,
    key: &str,
    i: int,
    r: Option<&Property>,
    list: Vec<&Property>,
    p: PropertyModel,
)
    requires
        call_ensures(PropertySet::get, (&set, key), r),
        call_ensures(PropertySet::editable, (&set,), list),
    ensures
        0 <= i < set@.len() && set@[i].key == key@ && (forall|j: int|
            0 <= j < i ==> (#[trigger] set@[j]).key != key@) ==> (r matches Some(q) && q@ == set@[i]),
        (forall|j: int| 0 <= j < set@.len() ==> (#[trigger] set@[j]).key != key@) ==> r is None,
        forall|k: int| 0 <= k < list@.len() ==> (#[trigger] list@[k])@.kind.editable(),
        set@.contains(p) && p.kind.editable() ==> exists|k: int|
            0 <= k < list@.len() && (#[trigger] list@[k])@ == p,
{
    if 0 <= i < set@.len() && set@[i].key == key@ && (forall|j: int|
        0 <= j < i ==> (#[trigger] set@[j]).key != key@) {
        lemma_first_key(set@, key@, 0, i);
    }
    if forall|j: int| 0 <= j < set@.len() ==> (#[trigger] set@[j]).key != key@ {
        lemma_first_key(set@, key@, 0, set@.len() as int);
    }
    let keep = |p: PropertyModel| p.kind.editable();
    let kept = set@.filter(keep);
    let views = Seq::new(list@.len(), |i: int| list@[i]@);
    assert(views == kept);
    assert(views.len() == list@.len());
    assert forall|k: int| 0 <= k < list@.len() implies (#[trigger] list@[k])@.kind.editable() by {
        assert(views[k] == list@[k]@);
        set@.lemma_filter_pred(keep, k);
    }
    if set@.contains(p) && p.kind.editable() {
        let j = set@.index_of(p);
        set@.lemma_filter_contains(keep, j);
        let k = kept.index_of(p);
        assert(views[k] == list@[k]@);
    }
}

proof fn lemma_first_key(list: Seq<PropertyModel>, key: Seq<char>, i: int, k: int)
    requires
        0 <= i <= k <= list.len(),
        forall|j: int| i <= j < k ==> (#[trigger] list[j]).key != key,
        k < list.len() ==> list[k].key == key,
    ensures
        index_of_key(list, key, i) == (if k < list.len() {
            Some(k)
        } else {
            None
        }),
    decreases k - i,
{
    if i < k {
        assert(list[i].key != key);
        lemma_first_key(list, key, i + 1, k);
    }
}

/// Reading a colour that is written in hexadecimal gives the three bytes that it was
/// written from, each in its own channel.
pub proof fn law_written_colours_are_read(
    input: Json,
    lead: Seq<char>,
    r: u8,
    g: u8,
    b: u8,
    upper: bool,
    end: Seq<char>,
    c: Option<Colour>,
)
    requires
        crate::effect::is_space(lead),
        crate::effect::is_space(end),
        input@ == JsonTree::Text(
            lead + (seq!['#'] + hex_digits(r, upper) + hex_digits(g, upper) + hex_digits(b, upper))
                + end,
        ),
        call_ensures(parse_color, (&input,), c),
    ensures
        c matches Some(Colour { r: Channel::Hex(x), g: Channel::Hex(y), b: Channel::Hex(z) }) && x
            == r && y == g && z == b,
{
    law_hexadecimal_colours_are_read_back(lead, r, g, b, upper, end);
}

} // verus!
