//! Maps keyed by text, kept in the order of their keys.
use vstd::prelude::*;

verus! {

/// Whether `a` comes before `b`: by the first character in which they differ,
/// and a text before each longer one that it begins.
pub open spec fn before(a: Seq<char>, b: Seq<char>) -> bool
    decreases a.len(),
{
    if b.len() == 0 {
        false
    } else if a.len() == 0 {
        true
    } else if a[0] != b[0] {
        a[0] < b[0]
    } else {
        before(a.skip(1), b.skip(1))
    }
}

/// Nothing comes before itself.
pub proof fn lemma_before_irreflexive(a: Seq<char>)
    ensures
        !before(a, a),
    decreases a.len(),
{
    if a.len() > 0 {
        lemma_before_irreflexive(a.skip(1));
    }
}

/// The order is transitive.
pub proof fn lemma_before_transitive(a: Seq<char>, b: Seq<char>, c: Seq<char>)
    requires
        before(a, b),
        before(b, c),
    ensures
        before(a, c),
    decreases a.len(),
{
    if a.len() > 0 && b.len() > 0 && c.len() > 0 && a[0] == b[0] && b[0] == c[0] {
        lemma_before_transitive(a.skip(1), b.skip(1), c.skip(1));
    }
}

/// Of two different texts one comes before the other.
pub proof fn lemma_before_total(a: Seq<char>, b: Seq<char>)
    ensures
        a == b || before(a, b) || before(b, a),
        !(before(a, b) && before(b, a)),
        before(a, b) ==> a != b,
    decreases a.len(),
{
    if a.len() > 0 && b.len() > 0 && a[0] == b[0] {
        lemma_before_total(a.skip(1), b.skip(1));
        if a.skip(1) == b.skip(1) {
            assert(a =~= seq![a[0]] + a.skip(1));
            assert(b =~= seq![b[0]] + b.skip(1));
        }
    } else if a.len() == 0 && b.len() == 0 {
        assert(a =~= b);
    }
    lemma_before_irreflexive(a);
}

/// How two texts stand to each other.
#[derive(Debug, Clone, Copy, PartialEq, Eq, Structural)]
pub enum Standing {
    Before,
    Same,
    After,
}

pub open spec fn standing(a: Seq<char>, b: Seq<char>) -> Standing {
    if a == b {
        Standing::Same
    } else if before(a, b) {
        Standing::Before
    } else {
        Standing::After
    }
}

proof fn lemma_skip_step(a: Seq<char>, b: Seq<char>, i: int)
    requires
        0 <= i < a.len(),
        i < b.len(),
        a[i] == b[i],
    ensures
        before(a.skip(i), b.skip(i)) == before(a.skip(i + 1), b.skip(i + 1)),
        (a.skip(i) == b.skip(i)) == (a.skip(i + 1) == b.skip(i + 1)),
{
    assert(a.skip(i).skip(1) =~= a.skip(i + 1));
    assert(b.skip(i).skip(1) =~= b.skip(i + 1));
    assert(a.skip(i) =~= seq![a[i]] + a.skip(i + 1));
    assert(b.skip(i) =~= seq![b[i]] + b.skip(i + 1));
}

/// How the text `a` stands to the text `b`.
pub fn order_of(a: &str, b: &str) -> (r: Standing)
    ensures
        r == standing(a@, b@),
{
    let x = crate::text::chars_of(a);
    let y = crate::text::chars_of(b);
    let mut i: usize = 0;
    proof {
        assert(a@.skip(0) =~= a@);
        assert(b@.skip(0) =~= b@);
    }
    while i < x.len() && i < y.len()
        invariant
            x@ == a@,
            y@ == b@,
            i <= x@.len(),
            i <= y@.len(),
            before(a@, b@) == before(a@.skip(i as int), b@.skip(i as int)),
            (a@ == b@) == (a@.skip(i as int) == b@.skip(i as int)),
        decreases x@.len() - i,
    {
        if x[i] != y[i] {
            proof {
                assert(a@.skip(i as int)[0] == x@[i as int]);
                assert(b@.skip(i as int)[0] == y@[i as int]);
            }
            return if x[i] < y[i] {
                Standing::Before
            } else {
                Standing::After
            };
        }
        proof {
            lemma_skip_step(a@, b@, i as int);
        }
        i += 1;
    }
    if x.len() == y.len() {
        proof {
            assert(a@.skip(i as int) =~= b@.skip(i as int));
        }
        Standing::Same
    } else if i == x.len() {
        Standing::Before
    } else {
        Standing::After
    }
}

/// A map whose keys are text, in ascending order of its keys.
#[derive(Debug, PartialEq, Eq)]
pub struct StrMap<V> {
    entries: Vec<(String, V)>,
}

/// Whether `keys` are the keys of `m`, each once, in ascending order.
pub open spec fn lists_keys<V>(keys: Seq<Seq<char>>, m: Map<Seq<char>, V>) -> bool {
    &&& forall|i: int, j: int| 0 <= i < j < keys.len() ==> before(#[trigger] keys[i], #[trigger] keys[j])
    &&& forall|k: Seq<char>| #[trigger] m.dom().contains(k) <==> keys.contains(k)
}

spec fn entry_keys<V>(e: Seq<(String, V)>) -> Seq<Seq<char>> {
    Seq::new(e.len(), |i: int| e[i].0@)
}

spec fn ascending<V>(e: Seq<(String, V)>) -> bool {
    forall|i: int, j: int| 0 <= i < j < e.len() ==> before((#[trigger] e[i]).0@, (#[trigger] e[j]).0@)
}

spec fn place<V>(e: Seq<(String, V)>, k: Seq<char>) -> int {
    choose|i: int| 0 <= i < e.len() && (#[trigger] e[i]).0@ == k
}

spec fn as_map<V>(e: Seq<(String, V)>) -> Map<Seq<char>, V> {
    Map::new(
        |k: Seq<char>| exists|i: int| 0 <= i < e.len() && (#[trigger] e[i]).0@ == k,
        |k: Seq<char>| e[place(e, k)].1,
    )
}

proof fn lemma_place<V>(e: Seq<(String, V)>, i: int)
    requires
        ascending(e),
        0 <= i < e.len(),
    ensures
        as_map(e).dom().contains(e[i].0@),
        as_map(e)[e[i].0@] == e[i].1,
        place(e, e[i].0@) == i,
{
    let k = e[i].0@;
    let p = place(e, k);
    assert(0 <= p < e.len() && e[p].0@ == k);
    if p < i {
        lemma_before_irreflexive(k);
    } else if i < p {
        lemma_before_irreflexive(k);
    }
}

impl<V> View for StrMap<V> {
    type V = Map<Seq<char>, V>;

    closed spec fn view(&self) -> Map<Seq<char>, V> {
        as_map(self.entries@)
    }
}

impl<V> StrMap<V> {
    #[verifier::type_invariant]
    spec fn well_formed(self) -> bool {
        ascending(self.entries@)
    }

    /// The keys, in order.
    pub closed spec fn keys(&self) -> Seq<Seq<char>> {
        entry_keys(self.entries@)
    }

    pub fn new() -> (r: Self)
        ensures
            r@ == Map::<Seq<char>, V>::empty(),
            r.keys() == Seq::<Seq<char>>::empty(),
    {
        let r = StrMap { entries: Vec::new() };
        proof {
            assert(r@ =~= Map::<Seq<char>, V>::empty());
            assert(r.keys() =~= Seq::<Seq<char>>::empty());
        }
        r
    }

    /// Where the key is, or where it would be.
    fn seek(&self, key: &str) -> (r: (usize, bool))
        ensures
            r.0 <= self.entries@.len(),
            r.1 ==> r.0 < self.entries@.len() && self.entries@[r.0 as int].0@ == key@,
            !r.1 ==> !self@.dom().contains(key@),
            forall|i: int| 0 <= i < r.0 ==> before((#[trigger] self.entries@[i]).0@, key@),
            forall|i: int|
                r.0 <= i < self.entries@.len() && (i > r.0 || !r.1) ==> before(
                    key@,
                    (#[trigger] self.entries@[i]).0@,
                ),
    {
        proof {
            use_type_invariant(self);
        }
        let mut lo: usize = 0;
        let mut hi: usize = self.entries.len();
        while lo < hi
            invariant
                ascending(self.entries@),
                lo <= hi <= self.entries@.len(),
                forall|i: int| 0 <= i < lo ==> before((#[trigger] self.entries@[i]).0@, key@),
                forall|i: int|
                    hi <= i < self.entries@.len() ==> before(
                        key@,
                        (#[trigger] self.entries@[i]).0@,
                    ),
            decreases hi - lo,
        {
            let mid = lo + (hi - lo) / 2;
            let ghost e = self.entries@;
            let ghost m = mid as int;
            proof {
                lemma_before_total(self.entries@[m].0@, key@);
            }
            match order_of(self.entries[mid].0.as_str(), key) {
                Standing::Same => {
                    return (mid, true);
                },
                Standing::Before => {
                    proof {
                        assert forall|i: int| 0 <= i < mid + 1 implies before(
                            (#[trigger] e[i]).0@,
                            key@,
                        ) by {
                            if i < m {
                                lemma_before_transitive(e[i].0@, e[m].0@, key@);
                            }
                        }
                    }
                    lo = mid + 1;
                },
                Standing::After => {
                    proof {
                        assert forall|i: int| mid <= i < e.len() implies before(
                            key@,
                            (#[trigger] e[i]).0@,
                        ) by {
                            if m < i {
                                lemma_before_transitive(key@, e[m].0@, e[i].0@);
                            }
                        }
                    }
                    hi = mid;
                },
            }
        }
        proof {
            assert forall|i: int| 0 <= i < self.entries@.len() implies (#[trigger] self.entries@[i]).0@
                != key@ by {
                lemma_before_irreflexive(key@);
            }
        }
        (lo, false)
    }

    /// The value of the key, where the map has it.
    pub fn get(&self, key: &str) -> (r: Option<&V>)
        ensures
            match r {
                Some(v) => self@.dom().contains(key@) && *v == self@[key@],
                None => !self@.dom().contains(key@),
            },
    {
        proof {
            use_type_invariant(self);
        }
        let (at, found) = self.seek(key);
        if found {
            proof {
                lemma_place(self.entries@, at as int);
            }
            Some(&self.entries[at].1)
        } else {
            None
        }
    }

    pub fn contains_key(&self, key: &str) -> (r: bool)
        ensures
            r == self@.dom().contains(key@),
    {
        self.get(key).is_some()
    }

    /// Set the value of the key.
    pub fn insert(&mut self, key: String, value: V)
        ensures
            final(self)@ == old(self)@.insert(key@, value),
    {
        proof {
            use_type_invariant(&*self);
        }
        let (at, found) = self.seek(key.as_str());
        let ghost was = self.entries@;
        let ghost k = key@;
        let mut entries: Vec<(String, V)> = Vec::new();
        std::mem::swap(&mut self.entries, &mut entries);
        if found {
            entries.set(at, (key, value));
        } else {
            entries.insert(at, (key, value));
        }
        proof {
            let e = entries@;
            let a = at as int;
            if found {
                assert(e == was.update(a, (key, value)));
                assert(ascending(e));
                assert forall|x: Seq<char>| #[trigger]
                    as_map(e).dom().contains(x) == as_map(was).insert(k, value).dom().contains(x) by {
                    if as_map(was).dom().contains(x) && x != k {
                        let i = place(was, x);
                        assert(e[i].0@ == x);
                    }
                    if as_map(e).dom().contains(x) && x != k {
                        let i = place(e, x);
                        assert(was[i].0@ == x);
                    }
                    assert(e[a].0@ == k);
                }
                assert forall|x: Seq<char>| #[trigger]
                    as_map(e).dom().contains(x) implies as_map(e)[x] == as_map(was).insert(
                    k,
                    value,
                )[x] by {
                    let i = place(e, x);
                    lemma_place(e, i);
                    if i != a {
                        lemma_place(was, i);
                        lemma_before_irreflexive(k);
                    }
                }
            } else {
                assert(e == was.insert(a, (key, value)));
                assert forall|i: int, j: int| 0 <= i < j < e.len() implies before(
                    (#[trigger] e[i]).0@,
                    (#[trigger] e[j]).0@,
                ) by {
                    if i < a && j > a {
                        assert(e[i] == was[i] && e[j] == was[j - 1]);
                    } else if i < a && j < a {
                        assert(e[i] == was[i] && e[j] == was[j]);
                    } else if i > a {
                        assert(e[i] == was[i - 1] && e[j] == was[j - 1]);
                    } else if i == a {
                        assert(e[j] == was[j - 1]);
                    } else {
                        assert(e[i] == was[i]);
                    }
                }
                assert forall|x: Seq<char>| #[trigger]
                    as_map(e).dom().contains(x) == as_map(was).insert(k, value).dom().contains(x) by {
                    if as_map(was).dom().contains(x) {
                        let i = place(was, x);
                        if i < a {
                            assert(e[i].0@ == x);
                        } else {
                            assert(e[i + 1].0@ == x);
                        }
                    }
                    if as_map(e).dom().contains(x) && x != k {
                        let i = place(e, x);
                        if i < a {
                            assert(was[i].0@ == x);
                        } else {
                            assert(was[i - 1].0@ == x);
                        }
                    }
                    assert(e[a].0@ == k);
                }
                assert forall|x: Seq<char>| #[trigger]
                    as_map(e).dom().contains(x) implies as_map(e)[x] == as_map(was).insert(
                    k,
                    value,
                )[x] by {
                    let i = place(e, x);
                    lemma_place(e, i);
                    if i < a {
                        lemma_place(was, i);
                    } else if i > a {
                        lemma_place(was, i - 1);
                    }
                }
            }
            assert(as_map(e) =~= as_map(was).insert(k, value));
        }
        self.entries = entries;
    }

    /// Take the key out, and give its value where the map had it.
    pub fn remove(&mut self, key: &str) -> (r: Option<V>)
        ensures
            final(self)@ == old(self)@.remove(key@),
            match r {
                Some(v) => old(self)@.dom().contains(key@) && v == old(self)@[key@],
                None => !old(self)@.dom().contains(key@),
            },
    {
        proof {
            use_type_invariant(&*self);
        }
        let (at, found) = self.seek(key);
        if !found {
            proof {
                assert(self@ =~= self@.remove(key@));
            }
            return None;
        }
        let ghost was = self.entries@;
        let mut entries: Vec<(String, V)> = Vec::new();
        std::mem::swap(&mut self.entries, &mut entries);
        let (_name, value) = entries.remove(at);
        proof {
            let e = entries@;
            let a = at as int;
            let k = key@;
            assert(e == was.remove(a));
            lemma_place(was, a);
            assert forall|i: int, j: int| 0 <= i < j < e.len() implies before(
                (#[trigger] e[i]).0@,
                (#[trigger] e[j]).0@,
            ) by {
                let x = if i < a {
                    i
                } else {
                    i + 1
                };
                let y = if j < a {
                    j
                } else {
                    j + 1
                };
                assert(e[i] == was[x] && e[j] == was[y]);
            }
            assert forall|x: Seq<char>| #[trigger]
                as_map(e).dom().contains(x) == as_map(was).remove(k).dom().contains(x) by {
                if as_map(was).dom().contains(x) && x != k {
                    let i = place(was, x);
                    if i < a {
                        assert(e[i].0@ == x);
                    } else {
                        assert(e[i - 1].0@ == x);
                    }
                }
                if as_map(e).dom().contains(x) {
                    let i = place(e, x);
                    let y = if i < a {
                        i
                    } else {
                        i + 1
                    };
                    assert(was[y].0@ == x);
                    lemma_place(was, y);
                }
            }
            assert forall|x: Seq<char>| #[trigger]
                as_map(e).dom().contains(x) implies as_map(e)[x] == as_map(was).remove(k)[x] by {
                let i = place(e, x);
                lemma_place(e, i);
                if i < a {
                    lemma_place(was, i);
                } else {
                    lemma_place(was, i + 1);
                }
            }
            assert(as_map(e) =~= as_map(was).remove(k));
        }
        self.entries = entries;
        Some(value)
    }

    /// How many keys the map has. They are listed in ascending order.
    pub fn len(&self) -> (r: usize)
        ensures
            r == self.keys().len(),
            lists_keys(self.keys(), self@),
            self@.dom().finite(),
    {
        proof {
            use_type_invariant(self);
            let e = self.entries@;
            assert forall|k: Seq<char>| #[trigger]
                self@.dom().contains(k) <==> self.keys().contains(k) by {
                if self@.dom().contains(k) {
                    let i = place(e, k);
                    assert(self.keys()[i] == k);
                }
                if self.keys().contains(k) {
                    let i = choose|i: int| 0 <= i < self.keys().len() && self.keys()[i] == k;
                    assert(e[i].0@ == k);
                }
            }
            vstd::seq_lib::seq_to_set_is_finite(self.keys());
            assert(self@.dom() =~= self.keys().to_set());
        }
        self.entries.len()
    }

    pub fn is_empty(&self) -> (r: bool)
        ensures
            r == (self@ == Map::<Seq<char>, V>::empty()),
            r == (self.keys().len() == 0),
    {
        let n = self.len();
        proof {
            if n == 0 {
                assert(self@ =~= Map::<Seq<char>, V>::empty());
            } else {
                assert(self.keys().contains(self.keys()[0]));
                assert(self@.dom().contains(self.keys()[0]));
            }
        }
        n == 0
    }

    /// The key at a place in the order.
    pub fn key_at(&self, i: usize) -> (r: &String)
        requires
            i < self.keys().len(),
        ensures
            r@ == self.keys()[i as int],
    {
        &self.entries[i].0
    }

    /// The value of the key at a place in the order.
    pub fn value_at(&self, i: usize) -> (r: &V)
        requires
            i < self.keys().len(),
        ensures
            self@.dom().contains(self.keys()[i as int]),
            *r == self@[self.keys()[i as int]],
    {
        proof {
            use_type_invariant(self);
            lemma_place(self.entries@, i as int);
        }
        &self.entries[i].1
    }

    /// The value of a key is smaller than the map.
    pub proof fn lemma_value_smaller(self, key: Seq<char>)
        requires
            self@.dom().contains(key),
        ensures
            decreases_to!(self => self@[key]),
    {
        let i = place(self.entries@, key);
        assert(decreases_to!(self => self.entries));
        assert(decreases_to!(self.entries => self.entries@));
        assert(decreases_to!(self.entries@ => self.entries@[i]));
        assert(decreases_to!(self.entries@[i] => self.entries@[i].1));
    }
}

impl<V: Clone> Clone for StrMap<V> {
    fn clone(&self) -> (r: Self)
        ensures
            r.keys() == self.keys(),
            r@.dom() == self@.dom(),
            forall|k: Seq<char>| #[trigger]
                r@.dom().contains(k) ==> cloned::<V>(self@[k], r@[k]),
    {
        proof {
            use_type_invariant(self);
        }
        let mut entries: Vec<(String, V)> = Vec::new();
        let mut i: usize = 0;
        while i < self.entries.len()
            invariant
                ascending(self.entries@),
                i <= self.entries@.len(),
                entries@.len() == i,
                forall|j: int|
                    0 <= j < i ==> (#[trigger] entries@[j]).0@ == self.entries@[j].0@ && cloned::<V>(
                        self.entries@[j].1,
                        entries@[j].1,
                    ),
            decreases self.entries@.len() - i,
        {
            let key = self.entries[i].0.clone();
            let value = self.entries[i].1.clone();
            entries.push((key, value));
            i += 1;
        }
        proof {
            let e = entries@;
            let was = self.entries@;
            assert(entry_keys(e) =~= entry_keys(was));
            assert(ascending(e));
            assert forall|k: Seq<char>| #[trigger]
                as_map(e).dom().contains(k) implies as_map(was).dom().contains(k) && cloned::<V>(
                as_map(was)[k],
                as_map(e)[k],
            ) by {
                let p = place(e, k);
                lemma_place(e, p);
                lemma_place(was, p);
            }
            assert forall|k: Seq<char>| #[trigger]
                as_map(was).dom().contains(k) implies as_map(e).dom().contains(k) by {
                let p = place(was, k);
                assert(e[p].0@ == k);
            }
            assert(as_map(e).dom() =~= as_map(was).dom());
        }
        StrMap { entries }
    }
}

/// Whether `list` holds the texts of `set`, each once, in ascending order.
pub open spec fn listed(list: Seq<Seq<char>>, set: Set<Seq<char>>) -> bool {
    &&& forall|i: int, j: int| 0 <= i < j < list.len() ==> before(#[trigger] list[i], #[trigger] list[j])
    &&& forall|k: Seq<char>| #[trigger] set.contains(k) <==> list.contains(k)
}

/// The texts of a finite set in ascending order.
pub open spec fn listing(set: Set<Seq<char>>) -> Seq<Seq<char>> {
    choose|list: Seq<Seq<char>>| listed(list, set)
}

/// There is only one ascending list of a set.
pub proof fn lemma_listing(list: Seq<Seq<char>>, set: Set<Seq<char>>)
    requires
        listed(list, set),
    ensures
        listing(set) == list,
{
    lemma_listed_once(list, listing(set), set);
}

proof fn lemma_listed_once(a: Seq<Seq<char>>, b: Seq<Seq<char>>, set: Set<Seq<char>>)
    requires
        listed(a, set),
        listed(b, set),
    ensures
        a == b,
    decreases a.len(),
{
    if a.len() == 0 {
        if b.len() > 0 {
            assert(b.contains(b[0]));
            assert(set.contains(b[0]));
        }
        assert(a =~= b);
    } else {
        let x = a.last();
        assert(a[a.len() - 1] == x);
        assert(set.contains(x));
        assert(b.contains(x));
        let y = b.last();
        assert(b[b.len() - 1] == y);
        assert(set.contains(y));
        assert(a.contains(y));
        if x != y {
            let i = choose|i: int| 0 <= i < a.len() && a[i] == y;
            let j = choose|j: int| 0 <= j < b.len() && b[j] == x;
            assert(before(a[i], a[a.len() - 1]));
            assert(before(b[j], b[b.len() - 1]));
            lemma_before_total(x, y);
        }
        let rest = set.remove(x);
        lemma_listed_without_last(a, set);
        lemma_listed_without_last(b, set);
        lemma_listed_once(a.drop_last(), b.drop_last(), rest);
        assert(a =~= a.drop_last().push(x));
        assert(b =~= b.drop_last().push(x));
    }
}

proof fn lemma_listed_without_last(a: Seq<Seq<char>>, set: Set<Seq<char>>)
    requires
        listed(a, set),
        a.len() > 0,
    ensures
        listed(a.drop_last(), set.remove(a.last())),
{
    let x = a.last();
    let d = a.drop_last();
    assert forall|k: Seq<char>| #[trigger] set.remove(x).contains(k) <==> d.contains(k) by {
        if set.remove(x).contains(k) {
            let i = choose|i: int| 0 <= i < a.len() && a[i] == k;
            assert(d[i] == k);
        }
        if d.contains(k) {
            let i = choose|i: int| 0 <= i < d.len() && d[i] == k;
            assert(a[i] == k);
            assert(before(a[i], a[a.len() - 1]));
            lemma_before_irreflexive(x);
        }
    }
}

/// The keys of a map are the ascending list of its domain.
pub proof fn lemma_keys_listing<V>(keys: Seq<Seq<char>>, m: Map<Seq<char>, V>)
    requires
        lists_keys(keys, m),
    ensures
        keys == listing(m.dom()),
{
    lemma_listing(keys, m.dom());
}

/// Every finite set has its ascending list.
pub proof fn lemma_listing_exists(set: Set<Seq<char>>)
    requires
        set.finite(),
    ensures
        listed(listing(set), set),
    decreases set.len(),
{
    if set =~= Set::empty() {
        assert(listed(Seq::empty(), set));
    } else {
        let x = lemma_greatest(set);
        let rest = set.remove(x);
        lemma_listing_exists(rest);
        let list = listing(rest).push(x);
        assert(listed(list, set)) by {
            let short = listing(rest);
            assert forall|i: int, j: int| 0 <= i < j < list.len() implies before(
                #[trigger] list[i],
                #[trigger] list[j],
            ) by {
                if j == short.len() {
                    assert(short.contains(short[i]));
                    assert(rest.contains(short[i]));
                } else {
                    assert(list[i] == short[i] && list[j] == short[j]);
                }
            }
            assert forall|k: Seq<char>| #[trigger] set.contains(k) <==> list.contains(k) by {
                if set.contains(k) && k != x {
                    assert(rest.contains(k));
                    let i = choose|i: int| 0 <= i < short.len() && short[i] == k;
                    assert(list[i] == k);
                }
                assert(list[short.len() as int] == x);
                if list.contains(k) && k != x {
                    let i = choose|i: int| 0 <= i < list.len() && list[i] == k;
                    assert(short[i] == k);
                    assert(rest.contains(k));
                }
            }
        }
    }
}

/// A finite set that is not empty has an element that all others come before.
proof fn lemma_greatest(set: Set<Seq<char>>) -> (x: Seq<char>)
    requires
        set.finite(),
        !(set =~= Set::empty()),
    ensures
        set.contains(x),
        forall|k: Seq<char>| #[trigger] set.contains(k) && k != x ==> before(k, x),
    decreases set.len(),
{
    let a = set.choose();
    let rest = set.remove(a);
    if rest =~= Set::empty() {
        assert forall|k: Seq<char>| #[trigger] set.contains(k) && k != a implies before(k, a) by {
            assert(rest.contains(k));
        }
        a
    } else {
        let b = lemma_greatest(rest);
        lemma_before_total(a, b);
        if before(a, b) {
            assert forall|k: Seq<char>| #[trigger] set.contains(k) && k != b implies before(k, b) by {
                if k != a {
                    assert(rest.contains(k));
                }
            }
            b
        } else {
            assert forall|k: Seq<char>| #[trigger] set.contains(k) && k != a implies before(k, a) by {
                assert(rest.contains(k));
                if k != b {
                    lemma_before_transitive(k, b, a);
                }
            }
            a
        }
    }
}

/// Two texts that begin alike are ordered by the first character in which they differ, and
/// a text comes before each longer one that it begins.
pub proof fn law_the_first_difference_decides(
    start: Seq<char>,
    c: char,
    d: char,
    a: Seq<char>,
    b: Seq<char>,
)
    requires
        c < d,
    ensures
        before(start.push(c) + a, start.push(d) + b),
        !before(start.push(d) + b, start.push(c) + a),
        before(start, start.push(c) + a),
        !before(start.push(c) + a, start),
    decreases start.len(),
{
    let x = start.push(c) + a;
    let y = start.push(d) + b;
    if start.len() > 0 {
        let s = start.skip(1);
        law_the_first_difference_decides(s, c, d, a, b);
        assert(x.skip(1) =~= s.push(c) + a);
        assert(y.skip(1) =~= s.push(d) + b);
        assert(x[0] == y[0] == start[0]);
    } else {
        assert(x[0] == c && y[0] == d);
    }
}

} // verus!
