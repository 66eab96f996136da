//! JSON documents as plain values.
use vstd::prelude::*;
use crate::numbers::decimal;
use crate::strmap::StrMap;
use crate::text::string_of;

verus! {

/// A JSON number: a natural number, a negative integer, or anything else, by the
/// bits of its double and the text that it is written as.
#[derive(Debug, Clone, PartialEq, Eq)]
pub enum JsonNumber {
    Natural(u64),
    Negative(i64),
    Real { bits: u64, text: String },
}

/// A JSON document.
#[derive(Debug, PartialEq, Eq)]
pub enum Json {
    Null,
    Bool(bool),
    Number(JsonNumber),
    Text(String),
    List(Vec<Json>),
    Table(StrMap<Json>),
}

/// What a JSON number stands for.
pub ghost enum NumberModel {
    Natural(u64),
    Negative(i64),
    Real { bits: u64, text: Seq<char> },
}

/// What a JSON document stands for.
#[verifier::ext_equal]
pub ghost enum JsonTree {
    Null,
    Bool(bool),
    Number(NumberModel),
    Text(Seq<char>),
    List(Seq<JsonTree>),
    Table(Map<Seq<char>, JsonTree>),
}

impl View for JsonNumber {
    type V = NumberModel;

    open spec fn view(&self) -> NumberModel {
        match self {
            JsonNumber::Natural(n) => NumberModel::Natural(*n),
            JsonNumber::Negative(n) => NumberModel::Negative(*n),
            JsonNumber::Real { bits, text } => NumberModel::Real { bits: *bits, text: text@ },
        }
    }
}

impl Json {
    /// What the document stands for.
    pub open spec fn tree(&self) -> JsonTree
        decreases self,
    {
        match self {
            Json::Null => JsonTree::Null,
            Json::Bool(b) => JsonTree::Bool(*b),
            Json::Number(n) => JsonTree::Number(n@),
            Json::Text(s) => JsonTree::Text(s@),
            Json::List(a) => JsonTree::List(
                Seq::new(
                    a@.len(),
                    |i: int|
                        if 0 <= i < a@.len() {
                            a@[i].tree()
                        } else {
                            JsonTree::Null
                        },
                ),
            ),
            Json::Table(m) => JsonTree::Table(
                Map::new(
                    |k: Seq<char>| m@.dom().contains(k),
                    |k: Seq<char>|
                        if m@.dom().contains(k) {
                            proof {
                                m.lemma_value_smaller(k);
                            }
                            m@[k].tree()
                        } else {
                            JsonTree::Null
                        },
                ),
            ),
        }
    }
}

impl View for Json {
    type V = JsonTree;

    open spec fn view(&self) -> JsonTree {
        self.tree()
    }
}

#[verifier::external_type_specification]
#[verifier::external_body]
pub struct ExValue(serde_json::Value);

/// What a value of `serde_json` holds, as a document.
pub uninterp spec fn value_tree(v: serde_json::Value) -> JsonTree;

/// What `serde_json` reads in a text: nothing where the text is not JSON.
pub uninterp spec fn json_read(text: Seq<char>) -> Option<JsonTree>;

/// A value of `serde_json`, opened one level deep.
pub enum Node {
    Null,
    Bool(bool),
    Number(JsonNumber),
    Text(String),
    List(Vec<serde_json::Value>),
    Table(Vec<(String, serde_json::Value)>),
}

/// Whether `t` is what the opened value holds.
pub open spec fn node_holds(n: Node, t: JsonTree) -> bool {
    match n {
        Node::Null => t == JsonTree::Null,
        Node::Bool(b) => t == JsonTree::Bool(b),
        Node::Number(x) => t == JsonTree::Number(x@),
        Node::Text(s) => t == JsonTree::Text(s@),
        Node::List(a) => t matches JsonTree::List(l) && l.len() == a@.len() && forall|i: int|
            0 <= i < l.len() ==> #[trigger] l[i] == value_tree(a@[i]),
        Node::Table(e) => t matches JsonTree::Table(m) && (forall|i: int, j: int|
            0 <= i < j < e@.len() ==> (#[trigger] e@[i]).0@ != (#[trigger] e@[j]).0@) && (forall|i: int|
            0 <= i < e@.len() ==> m.dom().contains((#[trigger] e@[i]).0@) && m[e@[i].0@] == value_tree(
                e@[i].1,
            )) && (forall|k: Seq<char>| #[trigger]
            m.dom().contains(k) ==> exists|i: int| 0 <= i < e@.len() && (#[trigger] e@[i]).0@ == k),
    }
}

/// `serde_json::from_str`, into a `serde_json::Value`: the document that the text
/// is, or nothing where it is no JSON. What counts as JSON, and which of two
/// entries with one key stays, is `serde_json`'s own; the name stands for it.
#[verifier::external_body]
fn read_value(text: &str) -> (r: Option<serde_json::Value>)
    ensures
        match r {
            Some(v) => json_read(text@) == Some(value_tree(v)),
            None => json_read(text@) is None,
        },
{
    serde_json::from_str(text).ok()
}

/// The variants of `serde_json::Value`, with their fields moved out. A number is
/// told apart by `as_u64` and `as_i64`; any other number gives the bits of `as_f64`
/// and its `to_string`. An object gives its entries, whose keys differ from each
/// other.
#[verifier::external_body]
fn open_value(v: serde_json::Value) -> (r: Node)
    ensures
        node_holds(r, value_tree(v)),
{
    match v {
        serde_json::Value::Null => Node::Null,
        serde_json::Value::Bool(b) => Node::Bool(b),
        serde_json::Value::Number(n) => Node::Number(match (n.as_u64(), n.as_i64(), n.as_f64()) {
            (Some(u), _, _) => JsonNumber::Natural(u),
            (None, Some(i), _) => JsonNumber::Negative(i),
            (None, None, x) => JsonNumber::Real { bits: x.map_or(0, |x| x.to_bits()), text: n.to_string() },
        }),
        serde_json::Value::String(s) => Node::Text(s),
        serde_json::Value::Array(a) => Node::List(a),
        serde_json::Value::Object(o) => Node::Table(o.into_iter().collect()),
    }
}

/// The document that a value of `serde_json` holds.
pub fn from_value(v: serde_json::Value) -> (r: Json)
    ensures
        r@ == value_tree(v),
    decreases value_tree(v),
{
    let ghost t = value_tree(v);
    match open_value(v) {
        Node::Null => Json::Null,
        Node::Bool(b) => Json::Bool(b),
        Node::Number(n) => Json::Number(n),
        Node::Text(s) => Json::Text(s),
        Node::List(mut a) => {
            let ghost l = t->List_0;
            let mut back: Vec<Json> = Vec::new();
            let ghost n = a@.len();
            while a.len() > 0
                invariant
                    t == JsonTree::List(l),
                    value_tree(v) == t,
                    l.len() == n,
                    a@.len() + back@.len() == n,
                    forall|i: int| 0 <= i < a@.len() ==> #[trigger] l[i] == value_tree(a@[i]),
                    forall|i: int| 0 <= i < back@.len() ==> (#[trigger] back@[i])@ == l[n - 1 - i],
                decreases a@.len(),
            {
                let ghost k = a@.len() - 1;
                let x = a.pop().unwrap();
                proof {
                    assert(l[k] == value_tree(x));
                    assert(t->List_0 == l);
                    assert(decreases_to!(t => t->List_0));
                    assert(decreases_to!(l => l[k]));
                }
                back.push(from_value(x));
            }
            let mut list: Vec<Json> = Vec::new();
            while back.len() > 0
                invariant
                    l.len() == n,
                    back@.len() + list@.len() == n,
                    forall|i: int| 0 <= i < back@.len() ==> (#[trigger] back@[i])@ == l[n - 1 - i],
                    forall|i: int| 0 <= i < list@.len() ==> (#[trigger] list@[i])@ == l[i],
                decreases back@.len(),
            {
                list.push(back.pop().unwrap());
            }
            let r = Json::List(list);
            proof {
                assert(r@->List_0 =~= l);
            }
            r
        },
        Node::Table(mut e) => {
            let ghost m = t->Table_0;
            let ghost all = e@;
            let mut table: StrMap<Json> = StrMap::new();
            proof {
                let keys = Seq::new(all.len(), |i: int| all[i].0@);
                vstd::seq_lib::seq_to_set_is_finite(keys);
                assert forall|k: Seq<char>| #[trigger] m.dom().contains(k) implies keys.to_set().contains(
                    k,
                ) by {
                    let i = choose|i: int| 0 <= i < all.len() && (#[trigger] all[i]).0@ == k;
                    assert(keys[i] == k);
                }
                vstd::set_lib::lemma_len_subset(m.dom(), keys.to_set());
            }
            while e.len() > 0
                invariant
                    t == JsonTree::Table(m),
                    value_tree(v) == t,
                    m.dom().finite(),
                    e@.len() <= all.len(),
                    e@ == all.take(e@.len() as int),
                    forall|i: int|
                        0 <= i < all.len() ==> m.dom().contains((#[trigger] all[i]).0@)
                            && m[all[i].0@] == value_tree(all[i].1),
                    forall|k: Seq<char>| #[trigger]
                        m.dom().contains(k) ==> exists|i: int|
                            0 <= i < all.len() && (#[trigger] all[i]).0@ == k,
                    forall|k: Seq<char>| #[trigger]
                        table@.dom().contains(k) ==> m.dom().contains(k) && table@[k]@ == m[k],
                    forall|i: int|
                        e@.len() <= i < all.len() ==> table@.dom().contains((#[trigger] all[i]).0@),
                decreases e@.len(),
            {
                let ghost k = e@.len() - 1;
                let (key, x) = e.pop().unwrap();
                proof {
                    assert(all[k] == (key, x));
                    assert(e@ =~= all.take(k));
                    assert(t->Table_0 == m);
                    assert(decreases_to!(t => t->Table_0));
                    assert(m.dom().contains(key@));
                    assert(decreases_to!(m => m[key@]));
                }
                table.insert(key, from_value(x));
            }
            let r = Json::Table(table);
            proof {
                assert(r@->Table_0 =~= m);
            }
            r
        },
    }
}

/// The document that a text is, where it is JSON.
pub fn parse_json(text: &str) -> (r: Option<Json>)
    ensures
        match r {
            Some(j) => json_read(text@) == Some(j@),
            None => json_read(text@) is None,
        },
{
    match read_value(text) {
        Some(v) => Some(from_value(v)),
        None => None,
    }
}

/// The entry of a document under a key, where it is a table that has the key.
pub open spec fn field(t: JsonTree, key: Seq<char>) -> Option<JsonTree> {
    match t {
        JsonTree::Table(m) => if m.dom().contains(key) {
            Some(m[key])
        } else {
            None
        },
        _ => None,
    }
}

/// The text that a document is.
pub open spec fn text_in(t: JsonTree) -> Option<Seq<char>> {
    match t {
        JsonTree::Text(s) => Some(s),
        _ => None,
    }
}

/// The truth value that a document is.
pub open spec fn bool_in(t: JsonTree) -> Option<bool> {
    match t {
        JsonTree::Bool(b) => Some(b),
        _ => None,
    }
}

/// The natural number that a document is.
pub open spec fn natural_in(t: JsonTree) -> Option<u64> {
    match t {
        JsonTree::Number(NumberModel::Natural(n)) => Some(n),
        _ => None,
    }
}

/// The integer that a document is, where it fits.
pub open spec fn integer_in(t: JsonTree) -> Option<i64> {
    match t {
        JsonTree::Number(NumberModel::Natural(n)) => if n <= i64::MAX {
            Some(n as i64)
        } else {
            None
        },
        JsonTree::Number(NumberModel::Negative(n)) => Some(n),
        _ => None,
    }
}

/// The text under a key of a document.
pub open spec fn text_field(t: JsonTree, key: Seq<char>) -> Option<Seq<char>> {
    match field(t, key) {
        Some(v) => text_in(v),
        None => None,
    }
}

/// A number as it is written in JSON.
pub open spec fn number_text(n: NumberModel) -> Seq<char> {
    match n {
        NumberModel::Natural(n) => crate::numbers::decimal_text(n as nat),
        NumberModel::Negative(n) => if n < 0 {
            seq!['-'] + crate::numbers::decimal_text((0 - n) as nat)
        } else {
            crate::numbers::decimal_text(n as nat)
        },
        NumberModel::Real { bits, text } => text,
    }
}

/// A hexadecimal digit in lower case.
pub open spec fn hex_char(d: int) -> char {
    if d < 10 {
        ('0' as int + d) as char
    } else {
        ('a' as int + d - 10) as char
    }
}

/// A character inside a JSON string: a quote, a backslash and a control character are
/// escaped, any other character stands as it is.
pub open spec fn json_char(c: char) -> Seq<char> {
    if c == '"' || c == '\\' {
        seq!['\\', c]
    } else if c == '\u{8}' {
        seq!['\\', 'b']
    } else if c == '\t' {
        seq!['\\', 't']
    } else if c == '\n' {
        seq!['\\', 'n']
    } else if c == '\u{c}' {
        seq!['\\', 'f']
    } else if c == '\r' {
        seq!['\\', 'r']
    } else if ' ' > c {
        seq!['\\', 'u', '0', '0', hex_char(c as int / 16), hex_char(c as int % 16)]
    } else {
        seq![c]
    }
}

/// A text as a JSON string.
pub open spec fn json_string(s: Seq<char>) -> Seq<char> {
    seq!['"'] + Seq::new(s.len(), |i: int| json_char(s[i])).flatten() + seq!['"']
}

/// A document as it is written in JSON, with nothing between its parts: the items of a
/// list in their order, the entries of a table in that of their keys.
pub open spec fn json_text(t: JsonTree) -> Seq<char>
    decreases t,
{
    match t {
        JsonTree::Null => "null"@,
        JsonTree::Bool(b) => if b {
            "true"@
        } else {
            "false"@
        },
        JsonTree::Number(n) => number_text(n),
        JsonTree::Text(s) => json_string(s),
        JsonTree::List(l) => seq!['['] + crate::text::parted(item_texts(l), ","@) + seq![']'],
        JsonTree::Table(m) => seq!['{'] + crate::text::parted(entry_texts(m), ","@) + seq!['}'],
    }
}

/// The items of a list as they are written.
pub open spec fn item_texts(l: Seq<JsonTree>) -> Seq<Seq<char>>
    decreases l,
{
    Seq::new(
        l.len(),
        |i: int|
            if 0 <= i < l.len() {
                json_text(l[i])
            } else {
                Seq::empty()
            },
    )
}

/// The entries of a table as they are written.
pub open spec fn entry_texts(m: Map<Seq<char>, JsonTree>) -> Seq<Seq<char>>
    decreases m,
{
    let keys = crate::strmap::listing(m.dom());
    Seq::new(
        keys.len(),
        |i: int|
            if m.dom().finite() && m.dom().contains(keys[i]) {
                json_string(keys[i]) + seq![':'] + json_text(m[keys[i]])
            } else {
                Seq::empty()
            },
    )
}

/// `to_string` of a `serde_json::Value` that is a string: the text in quotes, escaped
/// as JSON asks and no further.
#[verifier::external_body]
fn write_string(s: &str) -> (r: String)
    ensures
        r@ == json_string(s@),
{
    serde_json::Value::from(s).to_string()
}

impl JsonNumber {
    /// A copy of the number.
    pub fn copy(&self) -> (r: Self)
        ensures
            r@ == self@,
    {
        match self {
            JsonNumber::Natural(n) => JsonNumber::Natural(*n),
            JsonNumber::Negative(n) => JsonNumber::Negative(*n),
            JsonNumber::Real { bits, text } => JsonNumber::Real { bits: *bits, text: text.clone() },
        }
    }

    /// The number as it is written in JSON.
    pub fn written(&self) -> (r: String)
        ensures
            r@ == number_text(self@),
    {
        match self {
            JsonNumber::Natural(n) => string_of(decimal(*n).as_slice()),
            JsonNumber::Negative(n) => {
                if *n >= 0 {
                    return string_of(decimal(*n as u64).as_slice());
                }
                let mut r = String::new();
                r.push('-');
                let size: u64 = (-(*n + 1)) as u64 + 1;
                let digits = decimal(size);
                crate::text::push_chars(&mut r, digits.as_slice());
                proof {
                    assert(r@ =~= seq!['-'] + digits@);
                }
                r
            },
            JsonNumber::Real { bits: _, text } => text.clone(),
        }
    }
}

/// Texts with commas between them, in brackets.
fn bracketed(open: char, parts: &Vec<String>, close: char) -> (r: String)
    ensures
        r@ == seq![open] + crate::text::parted(crate::text::texts(parts@), ","@) + seq![close],
{
    let inner = crate::text::join_with(parts, ",");
    let mut r = String::new();
    r.push(open);
    crate::text::push_text(&mut r, inner.as_str());
    r.push(close);
    proof {
        assert(r@ =~= seq![open] + inner@ + seq![close]);
    }
    r
}

impl Json {
    /// The entry under a key, where the document is a table that has it.
    pub fn get(&self, key: &str) -> (r: Option<&Json>)
        ensures
            match r {
                Some(v) => field(self@, key@) == Some(v@),
                None => field(self@, key@) is None,
            },
    {
        match self {
            Json::Table(m) => m.get(key),
            _ => None,
        }
    }

    /// The text that the document is.
    pub fn as_str(&self) -> (r: Option<&String>)
        ensures
            match r {
                Some(s) => text_in(self@) == Some(s@),
                None => text_in(self@) is None,
            },
    {
        match self {
            Json::Text(s) => Some(s),
            _ => None,
        }
    }

    /// The truth value that the document is.
    pub fn as_bool(&self) -> (r: Option<bool>)
        ensures
            r == bool_in(self@),
    {
        match self {
            Json::Bool(b) => Some(*b),
            _ => None,
        }
    }

    /// The natural number that the document is.
    pub fn as_u64(&self) -> (r: Option<u64>)
        ensures
            r == natural_in(self@),
    {
        match self {
            Json::Number(JsonNumber::Natural(n)) => Some(*n),
            _ => None,
        }
    }

    /// The integer that the document is, where it fits.
    pub fn as_i64(&self) -> (r: Option<i64>)
        ensures
            r == integer_in(self@),
    {
        match self {
            Json::Number(JsonNumber::Natural(n)) => if *n <= i64::MAX as u64 {
                Some(*n as i64)
            } else {
                None
            },
            Json::Number(JsonNumber::Negative(n)) => Some(*n),
            _ => None,
        }
    }

    /// The text under a key.
    pub fn text_at(&self, key: &str) -> (r: Option<&String>)
        ensures
            match r {
                Some(s) => text_field(self@, key@) == Some(s@),
                None => text_field(self@, key@) is None,
            },
    {
        match self.get(key) {
            Some(v) => v.as_str(),
            None => None,
        }
    }

    /// The document as it is written in JSON.
    pub fn written(&self) -> (r: String)
        ensures
            r@ == json_text(self@),
        decreases self,
    {
        match self {
            Json::Null => "null".to_string(),
            Json::Bool(b) => if *b {
                "true".to_string()
            } else {
                "false".to_string()
            },
            Json::Number(n) => n.written(),
            Json::Text(s) => write_string(s.as_str()),
            Json::List(a) => {
                let mut parts: Vec<String> = Vec::new();
                let mut i: usize = 0;
                while i < a.len()
                    invariant
                        *self == Json::List(*a),
                        i <= a@.len(),
                        parts@.len() == i,
                        forall|j: int| 0 <= j < i ==> (#[trigger] parts@[j])@ == json_text(a@[j]@),
                    decreases a@.len() - i,
                {
                    proof {
                        assert(decreases_to!(*self => self->List_0));
                        assert(decreases_to!(a => a@));
                        assert(decreases_to!(a@ => a@[i as int]));
                    }
                    parts.push(a[i].written());
                    i += 1;
                }
                let r = bracketed('[', &parts, ']');
                proof {
                    assert(crate::text::texts(parts@) =~= item_texts(self@->List_0));
                }
                r
            },
            Json::Table(m) => {
                let mut parts: Vec<String> = Vec::new();
                let n = m.len();
                let mut i: usize = 0;
                while i < n
                    invariant
                        *self == Json::Table(*m),
                        i <= n == m.keys().len(),
                        crate::strmap::lists_keys(m.keys(), m@),
                        parts@.len() == i,
                        forall|j: int|
                            0 <= j < i ==> (#[trigger] parts@[j])@ == json_string(m.keys()[j]) + seq![
                                ':',
                            ] + json_text(m@[m.keys()[j]]@),
                    decreases n - i,
                {
                    proof {
                        assert(m.keys().contains(m.keys()[i as int]));
                        m.lemma_value_smaller(m.keys()[i as int]);
                        assert(decreases_to!(*self => self->Table_0));
                    }
                    let mut part = write_string(m.key_at(i).as_str());
                    let ghost key = part@;
                    let value = m.value_at(i).written();
                    part.push(':');
                    crate::text::push_text(&mut part, value.as_str());
                    proof {
                        assert(part@ =~= key + seq![':'] + value@);
                    }
                    parts.push(part);
                    i += 1;
                }
                let r = bracketed('{', &parts, '}');
                proof {
                    let t = self@->Table_0;
                    assert(t.dom() =~= m@.dom());
                    crate::strmap::lemma_keys_listing(m.keys(), m@);
                    assert forall|j: int| 0 <= j < m.keys().len() implies t.dom().contains(
                        #[trigger] m.keys()[j],
                    ) by {
                        assert(m.keys().contains(m.keys()[j]));
                    }
                    assert(crate::text::texts(parts@) =~= entry_texts(t));
                }
                r
            },
        }
    }

    /// A copy of the document.
    pub fn copy(&self) -> (r: Json)
        ensures
            r@ == self@,
        decreases self,
    {
        match self {
            Json::Null => Json::Null,
            Json::Bool(b) => Json::Bool(*b),
            Json::Number(n) => Json::Number(n.copy()),
            Json::Text(s) => Json::Text(s.clone()),
            Json::List(a) => {
                let mut list: Vec<Json> = Vec::new();
                let mut i: usize = 0;
                while i < a.len()
                    invariant
                        *self == Json::List(*a),
                        i <= a@.len(),
                        list@.len() == i,
                        forall|j: int| 0 <= j < i ==> (#[trigger] list@[j])@ == a@[j]@,
                    decreases a@.len() - i,
                {
                    proof {
                        assert(decreases_to!(*self => self->List_0));
                        assert(decreases_to!(a => a@));
                        assert(decreases_to!(a@ => a@[i as int]));
                    }
                    list.push(a[i].copy());
                    i += 1;
                }
                let r = Json::List(list);
                proof {
                    assert(r@->List_0 =~= self@->List_0);
                }
                r
            },
            Json::Table(m) => {
                let mut table: StrMap<Json> = StrMap::new();
                let n = m.len();
                let mut i: usize = 0;
                while i < n
                    invariant
                        *self == Json::Table(*m),
                        i <= n == m.keys().len(),
                        crate::strmap::lists_keys(m.keys(), m@),
                        forall|j: int| 0 <= j < i ==> table@.dom().contains(#[trigger] m.keys()[j]),
                        forall|k: Seq<char>| #[trigger]
                            table@.dom().contains(k) ==> m@.dom().contains(k) && table@[k]@ == m@[k]@,
                    decreases n - i,
                {
                    proof {
                        assert(m.keys().contains(m.keys()[i as int]));
                        m.lemma_value_smaller(m.keys()[i as int]);
                        assert(decreases_to!(*self => self->Table_0));
                    }
                    table.insert(m.key_at(i).clone(), m.value_at(i).copy());
                    i += 1;
                }
                let r = Json::Table(table);
                proof {
                    assert forall|k: Seq<char>| #[trigger]
                        m@.dom().contains(k) implies table@.dom().contains(k) by {
                        let j = choose|j: int| 0 <= j < m.keys().len() && m.keys()[j] == k;
                        assert(table@.dom().contains(m.keys()[j]));
                    }
                    assert(r@->Table_0 =~= self@->Table_0);
                }
                r
            },
        }
    }
}

impl Clone for Json {
    fn clone(&self) -> (r: Self)
        ensures
            r@ == self@,
    {
        self.copy()
    }
}

/// A table is asked by its keys, and nothing else has entries; a text, a truth value and a
/// number each are what they are asked for alone.
pub proof fn law_documents_are_asked_by_key(
    m: Map<Seq<char>, JsonTree>,
    key: Seq<char>,
    other: Seq<char>,
    v: JsonTree,
    s: Seq<char>,
)
    requires
        key != other,
    ensures
        field(JsonTree::Table(m.insert(key, v)), key) == Some(v),
        field(JsonTree::Table(m.insert(key, v)), other) == field(JsonTree::Table(m), other),
        field(JsonTree::Table(m.remove(key)), key) is None,
        !(v is Table) ==> field(v, key) is None,
        text_field(JsonTree::Table(m.insert(key, JsonTree::Text(s))), key) == Some(s),
        !(v is Text) ==> text_field(JsonTree::Table(m.insert(key, v)), key) is None,
        text_in(v) is Some == v is Text,
        bool_in(v) is Some == v is Bool,
        natural_in(v) is Some ==> v is Number,
{
}

/// A number is read as the integer that it is, where that fits.
pub proof fn law_integers_are_what_they_are(n: u64, i: i64, b: bool)
    ensures
        natural_in(JsonTree::Number(NumberModel::Natural(n))) == Some(n),
        n <= i64::MAX ==> (integer_in(JsonTree::Number(NumberModel::Natural(n))) matches Some(k)
            && k == n),
        n > i64::MAX ==> integer_in(JsonTree::Number(NumberModel::Natural(n))) is None,
        integer_in(JsonTree::Number(NumberModel::Negative(i))) == Some(i),
        natural_in(JsonTree::Number(NumberModel::Negative(i))) is None,
        bool_in(JsonTree::Bool(b)) == Some(b),
        i > 0 ==> number_text(NumberModel::Negative((-i) as i64)) == seq!['-'] + number_text(
            NumberModel::Natural(i as u64),
        ),
        crate::numbers::natural_read(number_text(NumberModel::Natural(n)), u64::MAX as nat) == Some(
            n as nat,
        ),
{
    crate::numbers::law_decimal_is_read_back(n as nat, u64::MAX as nat);
}

/// The items of a list are written in their order, with a comma before each but the first.
pub proof fn law_lists_are_written_item_by_item(l: Seq<JsonTree>, x: JsonTree)
    ensures
        json_text(JsonTree::List(Seq::empty())) == "[]"@,
        json_text(JsonTree::List(seq![x])) == seq!['['] + json_text(x) + seq![']'],
        l.len() > 0 ==> json_text(JsonTree::List(l.push(x))) == json_text(
            JsonTree::List(l),
        ).drop_last() + seq![','] + json_text(x) + seq![']'],
{
    reveal_strlit("[]");
    reveal_strlit(",");
    let none = Seq::<Seq<char>>::empty();
    let t = json_text(x);
    assert(item_texts(Seq::empty()) =~= none);
    assert(item_texts(seq![x]) =~= seq![t]);
    assert(item_texts(l.push(x)) =~= item_texts(l).push(t));
    crate::text::law_texts_are_parted(none, t, ","@);
    crate::text::law_texts_are_parted(item_texts(l), t, ","@);
    assert(json_text(JsonTree::List(Seq::empty())) =~= "[]"@);
    let a = crate::text::parted(item_texts(l), ","@);
    assert((seq!['['] + a + seq![']']).drop_last() =~= seq!['['] + a);
    if l.len() > 0 {
        assert(item_texts(l).len() > 0);
        assert(json_text(JsonTree::List(l.push(x))) =~= seq!['['] + a + seq![','] + t + seq![']']);
    }
}

/// A table of one entry is written as its key, a colon and its value; the words for nothing
/// and for the truth values stand without quotes.
pub proof fn law_entries_are_written_with_their_key(key: Seq<char>, x: JsonTree)
    ensures
        json_text(JsonTree::Table(Map::empty().insert(key, x))) == seq!['{'] + json_string(key)
            + seq![':'] + json_text(x) + seq!['}'],
        json_text(JsonTree::Null) == "null"@,
        json_text(JsonTree::Bool(true)) == "true"@,
        json_text(JsonTree::Bool(false)) == "false"@,
        json_text(JsonTree::Text(key)) == json_string(key),
{
    reveal_strlit(",");
    let m = Map::empty().insert(key, x);
    let one = seq![key];
    let none = Seq::<Seq<char>>::empty();
    assert(m.dom() =~= Set::empty().insert(key));
    assert forall|k: Seq<char>| one.contains(k) <==> m.dom().contains(k) by {
        assert(one[0] == key);
    }
    assert(crate::strmap::listed(one, m.dom()));
    crate::strmap::lemma_listing(one, m.dom());
    let e = json_string(key) + seq![':'] + json_text(x);
    assert(m.dom().finite());
    assert(m[key] == x);
    assert(entry_texts(m) =~= seq![e]);
    crate::text::law_texts_are_parted(none, e, ","@);
    assert(json_text(JsonTree::Table(m)) =~= seq!['{'] + e + seq!['}']);
    assert(seq!['{'] + e + seq!['}'] =~= seq!['{'] + json_string(key) + seq![':'] + json_text(x)
        + seq!['}']);
}

} // verus!
