//! Attributes: an ordered map from attribute names to string values, attached
//! to every entity.
use vstd::prelude::*;

use crate::text::{chars_of, decimal_of, decimal_text, same_text};

verus! {

/// The name of an attribute.
///
/// Some formats give attributes no key and refer to them by their position
/// in a list of values; those names are indices.
#[derive(Debug)]
pub enum AttributeName {
    Index(usize),
    Key(String),
}

/// The name of an attribute, under its shorter name.
pub type AttrName = AttributeName;

/// Attribute names as they are reasoned about.
pub enum AttrKey {
    Index(usize),
    Key(Seq<char>),
}

impl View for AttributeName {
    type V = AttrKey;

    open spec fn view(&self) -> AttrKey {
        match self {
            AttributeName::Index(i) => AttrKey::Index(*i),
            AttributeName::Key(s) => AttrKey::Key(s@),
        }
    }
}

/// Lexicographic order on character sequences, by code point. On UTF-8 text
/// this is the byte order by which `str` compares.
pub open spec fn chars_lt(a: Seq<char>, b: Seq<char>) -> bool
    decreases a.len(),
{
    if a.len() == 0 {
        b.len() > 0
    } else if b.len() == 0 {
        false
    } else if a[0] != b[0] {
        a[0] < b[0]
    } else {
        chars_lt(a.drop_first(), b.drop_first())
    }
}

/// The order of attribute names: indices before keys, then by value.
pub open spec fn key_lt(a: AttrKey, b: AttrKey) -> bool {
    match (a, b) {
        (AttrKey::Index(i), AttrKey::Index(j)) => i < j,
        (AttrKey::Index(_), AttrKey::Key(_)) => true,
        (AttrKey::Key(_), AttrKey::Index(_)) => false,
        (AttrKey::Key(s), AttrKey::Key(t)) => chars_lt(s, t),
    }
}

pub proof fn lemma_chars_lt_irreflexive(a: Seq<char>)
    ensures
        !chars_lt(a, a),
    decreases a.len(),
{
    if a.len() > 0 {
        lemma_chars_lt_irreflexive(a.drop_first());
    }
}

pub proof fn lemma_chars_lt_asymmetric(a: Seq<char>, b: Seq<char>)
    requires
        chars_lt(a, b),
    ensures
        !chars_lt(b, a),
    decreases a.len(),
{
    if a.len() > 0 && b.len() > 0 && a[0] == b[0] {
        lemma_chars_lt_asymmetric(a.drop_first(), b.drop_first());
    }
}

pub proof fn lemma_chars_lt_transitive(a: Seq<char>, b: Seq<char>, c: Seq<char>)
    requires
        chars_lt(a, b),
        chars_lt(b, c),
    ensures
        chars_lt(a, c),
    decreases a.len(),
{
    if a.len() > 0 && b.len() > 0 && c.len() > 0 && a[0] == b[0] && b[0] == c[0] {
        lemma_chars_lt_transitive(a.drop_first(), b.drop_first(), c.drop_first());
    }
}

pub proof fn lemma_chars_lt_total(a: Seq<char>, b: Seq<char>)
    requires
        a != b,
    ensures
        chars_lt(a, b) || chars_lt(b, a),
    decreases a.len(),
{
    if a.len() > 0 && b.len() > 0 && a[0] == b[0] {
        if a.drop_first() == b.drop_first() {
            assert(a =~= seq![a[0]] + a.drop_first());
            assert(b =~= seq![b[0]] + b.drop_first());
        }
        lemma_chars_lt_total(a.drop_first(), b.drop_first());
    } else if a.len() == 0 && b.len() == 0 {
        assert(a =~= b);
    }
}

/// `key_lt` is a strict total order.
pub proof fn lemma_key_order(a: AttrKey, b: AttrKey, c: AttrKey)
    ensures
        !key_lt(a, a),
        key_lt(a, b) ==> !key_lt(b, a),
        key_lt(a, b) && key_lt(b, c) ==> key_lt(a, c),
        a != b ==> key_lt(a, b) || key_lt(b, a),
{
    match (a, b, c) {
        (AttrKey::Key(s), AttrKey::Key(t), AttrKey::Key(u)) => {
            lemma_chars_lt_irreflexive(s);
            if chars_lt(s, t) {
                lemma_chars_lt_asymmetric(s, t);
                if chars_lt(t, u) {
                    lemma_chars_lt_transitive(s, t, u);
                }
            }
            if s != t {
                lemma_chars_lt_total(s, t);
            }
        },
        (AttrKey::Key(s), AttrKey::Key(t), _) => {
            lemma_chars_lt_irreflexive(s);
            if chars_lt(s, t) {
                lemma_chars_lt_asymmetric(s, t);
            }
            if s != t {
                lemma_chars_lt_total(s, t);
            }
        },
        (AttrKey::Key(s), _, _) => {
            lemma_chars_lt_irreflexive(s);
        },
        _ => {},
    }
}

fn chars_less(a: &Vec<char>, b: &Vec<char>) -> (r: bool)
    ensures
        r == chars_lt(a@, b@),
{
    let mut i: usize = 0;
    assert(a@.skip(0) =~= a@);
    assert(b@.skip(0) =~= b@);
    while i < a.len() && i < b.len() && a[i] == b[i]
        invariant
            0 <= i <= a@.len(),
            i <= b@.len(),
            forall|k: int| 0 <= k < i ==> a@[k] == b@[k],
            chars_lt(a@, b@) == chars_lt(a@.skip(i as int), b@.skip(i as int)),
        decreases a@.len() - i,
    {
        let ghost sa = a@.skip(i as int);
        let ghost sb = b@.skip(i as int);
        assert(sa.drop_first() =~= a@.skip(i + 1));
        assert(sb.drop_first() =~= b@.skip(i + 1));
        i = i + 1;
    }
    if i == a.len() {
        i < b.len()
    } else if i == b.len() {
        false
    } else {
        a[i] < b[i]
    }
}

impl AttributeName {
    pub fn is_index(&self) -> (r: bool)
        ensures
            r == (self@ is Index),
    {
        match self {
            AttributeName::Index(_) => true,
            AttributeName::Key(_) => false,
        }
    }

    pub fn is_key(&self) -> (r: bool)
        ensures
            r == (self@ is Key),
    {
        match self {
            AttributeName::Index(_) => false,
            AttributeName::Key(_) => true,
        }
    }

    /// The name as text: an index in decimal, a key as it is.
    pub fn to_string(&self) -> (r: String)
        ensures
            r@ == match self@ {
                AttrKey::Index(i) => decimal_of(i as nat),
                AttrKey::Key(s) => s,
            },
    {
        match self {
            AttributeName::Index(i) => decimal_text(*i),
            AttributeName::Key(s) => s.clone(),
        }
    }

    /// Whether `self` comes before `other` in the order of names.
    pub fn less_than(&self, other: &AttributeName) -> (r: bool)
        ensures
            r == key_lt(self@, other@),
    {
        match (self, other) {
            (AttributeName::Index(i), AttributeName::Index(j)) => *i < *j,
            (AttributeName::Index(_), AttributeName::Key(_)) => true,
            (AttributeName::Key(_), AttributeName::Index(_)) => false,
            (AttributeName::Key(s), AttributeName::Key(t)) => {
                let a = chars_of(s.as_str());
                let b = chars_of(t.as_str());
                chars_less(&a, &b)
            },
        }
    }

    pub fn same_as(&self, other: &AttributeName) -> (r: bool)
        ensures
            r == (self@ == other@),
    {
        match (self, other) {
            (AttributeName::Index(i), AttributeName::Index(j)) => *i == *j,
            (AttributeName::Key(s), AttributeName::Key(t)) => {
                let a = chars_of(s.as_str());
                same_text(&a, t.as_str())
            },
            _ => false,
        }
    }
}

impl Clone for AttributeName {
    fn clone(&self) -> (r: Self)
        ensures
            r@ == self@,
    {
        match self {
            AttributeName::Index(i) => AttributeName::Index(*i),
            AttributeName::Key(s) => AttributeName::Key(s.clone()),
        }
    }
}

impl PartialEq for AttributeName {
    fn eq(&self, other: &AttributeName) -> (r: bool) {
        self.same_as(other)
    }
}

impl vstd::std_specs::cmp::PartialEqSpecImpl for AttributeName {
    open spec fn obeys_eq_spec() -> bool {
        true
    }

    open spec fn eq_spec(&self, other: &AttributeName) -> bool {
        self@ == other@
    }
}

impl From<usize> for AttributeName {
    fn from(i: usize) -> (r: AttributeName) {
        AttributeName::Index(i)
    }
}

impl vstd::std_specs::convert::FromSpecImpl<usize> for AttributeName {
    open spec fn obeys_from_spec() -> bool {
        true
    }

    open spec fn from_spec(i: usize) -> AttributeName {
        AttributeName::Index(i)
    }
}

impl From<String> for AttributeName {
    fn from(k: String) -> (r: AttributeName) {
        AttributeName::Key(k)
    }
}

impl vstd::std_specs::convert::FromSpecImpl<String> for AttributeName {
    open spec fn obeys_from_spec() -> bool {
        true
    }

    open spec fn from_spec(k: String) -> AttributeName {
        AttributeName::Key(k)
    }
}

/// Entries whose names strictly increase: names are unique and in order.
pub open spec fn sorted_entries(v: Seq<(AttrKey, Seq<char>)>) -> bool {
    forall|i: int, j: int| 0 <= i < j < v.len() ==> key_lt(#[trigger] v[i].0, #[trigger] v[j].0)
}

/// The entries after setting `k` to `val`: the entry of `k` is replaced, or a
/// new one stands before the first greater name.
pub open spec fn assign(v: Seq<(AttrKey, Seq<char>)>, k: AttrKey, val: Seq<char>) -> Seq<
    (AttrKey, Seq<char>),
>
    decreases v.len(),
{
    if v.len() == 0 {
        seq![(k, val)]
    } else if key_lt(k, v[0].0) {
        seq![(k, val)] + v
    } else if v[0].0 == k {
        seq![(k, val)] + v.drop_first()
    } else {
        seq![v[0]] + assign(v.drop_first(), k, val)
    }
}

/// The value that the entries give to `k`.
pub open spec fn lookup(v: Seq<(AttrKey, Seq<char>)>, k: AttrKey) -> Option<Seq<char>> {
    if exists|i: int| 0 <= i < v.len() && (#[trigger] v[i]).0 == k {
        let i = choose|i: int| 0 <= i < v.len() && (#[trigger] v[i]).0 == k;
        Some(v[i].1)
    } else {
        None
    }
}

/// A store of attributes, enumerated in the order of their names.
pub trait AttributeContainer {
    /// The attributes, in the order of their names.
    spec fn attribute_entries(&self) -> Seq<(AttrKey, Seq<char>)>;

    /// The number of contained attributes. The attributes of every container
    /// are in the order of their names, each name once.
    fn len(&self) -> (r: usize)
        ensures
            r == self.attribute_entries().len(),
            sorted_entries(self.attribute_entries()),
    ;

    /// The value of the attribute named `name`.
    fn get(&self, name: &AttributeName) -> (r: Option<&String>)
        ensures
            match r {
                Some(s) => lookup(self.attribute_entries(), name@) == Some(s@),
                None => lookup(self.attribute_entries(), name@) is None,
            },
    ;

    /// The attribute at `index` in the order of names; `None` from the length
    /// on.
    fn get_at(&self, index: usize) -> (r: Option<(&AttributeName, &String)>)
        ensures
            index < self.attribute_entries().len() ==> match r {
                Some((n, v)) => (n@, v@) == self.attribute_entries()[index as int],
                None => false,
            },
            index >= self.attribute_entries().len() ==> r is None,
    ;
}

pub trait AttributeContainerMut: AttributeContainer {
    /// Sets the attribute `name` to `value`, replacing an earlier value.
    fn set(&mut self, name: AttributeName, value: String)
        ensures
            final(self).attribute_entries() == assign(
                old(self).attribute_entries(),
                name@,
                value@,
            ),
    ;
}

/// Attributes held in a vector sorted by name.
#[derive(Debug)]
pub struct AttributeMap {
    data: Vec<(AttributeName, String)>,
}

impl View for AttributeMap {
    type V = Seq<(AttrKey, Seq<char>)>;

    closed spec fn view(&self) -> Seq<(AttrKey, Seq<char>)> {
        self.data@.map_values(|e: (AttributeName, String)| (e.0@, e.1@))
    }
}

impl AttributeMap {
    #[verifier::type_invariant]
    closed spec fn well_formed(self) -> bool {
        sorted_entries(self@)
    }

    /// An empty map.
    pub fn new() -> (r: AttributeMap)
        ensures
            r@ == Seq::<(AttrKey, Seq<char>)>::empty(),
    {
        let r = AttributeMap { data: Vec::new() };
        assert(r@ =~= Seq::<(AttrKey, Seq<char>)>::empty());
        r
    }

    /// The attributes of `c`, copied.
    pub fn from_container<A: AttributeContainer>(c: &A) -> (r: AttributeMap)
        ensures
            r@ == c.attribute_entries(),
    {
        let mut r = AttributeMap::new();
        let n = c.len();
        assert(r@ =~= c.attribute_entries().take(0));
        let mut i: usize = 0;
        while i < n
            invariant
                n == c.attribute_entries().len(),
                0 <= i <= n,
                sorted_entries(c.attribute_entries()),
                r@ == c.attribute_entries().take(i as int),
            decreases n - i,
        {
            match c.get_at(i) {
                Some((name, value)) => {
                    let ghost before = r@;
                    r.set(name.clone(), value.clone());
                    proof {
                        {
                            let v = c.attribute_entries();
                            assert((name@, value@) == v[i as int]);
                            assert forall|j: int| 0 <= j < before.len() implies key_lt(
                                #[trigger] before[j].0,
                                name@,
                            ) by {
                                assert(before[j] == v[j]);
                                assert(key_lt(v[j].0, v[i as int].0));
                            }
                            lemma_assign_after_all(before, name@, value@);
                            assert(r@ =~= v.take(i + 1));
                        }
                    }
                },
                None => {},
            }
            i = i + 1;
        }
        assert(c.attribute_entries().take(n as int) =~= c.attribute_entries());
        r
    }
}

/// Setting a name greater than every present name appends it.
pub proof fn lemma_assign_after_all(v: Seq<(AttrKey, Seq<char>)>, k: AttrKey, val: Seq<char>)
    requires
        forall|j: int| 0 <= j < v.len() ==> key_lt(#[trigger] v[j].0, k),
    ensures
        assign(v, k, val) == v.push((k, val)),
    decreases v.len(),
{
    if v.len() > 0 {
        lemma_key_order(v[0].0, k, k);
        assert forall|j: int| 0 <= j < v.drop_first().len() implies key_lt(
            #[trigger] v.drop_first()[j].0,
            k,
        ) by {
            assert(v.drop_first()[j] == v[j + 1]);
        }
        lemma_assign_after_all(v.drop_first(), k, val);
        assert(seq![v[0]] + v.drop_first().push((k, val)) =~= v.push((k, val)));
    } else {
        assert(seq![(k, val)] =~= v.push((k, val)));
    }
}

/// Every name in `assign(v, k, val)` is `k` or a name of `v`, and `k` holds
/// `val` there.
pub proof fn lemma_assign_keys(v: Seq<(AttrKey, Seq<char>)>, k: AttrKey, val: Seq<char>)
    ensures
        forall|i: int|
            0 <= i < assign(v, k, val).len() ==> (#[trigger] assign(v, k, val)[i]).0 == k
                || exists|j: int| 0 <= j < v.len() && v[j].0 == assign(v, k, val)[i].0,
        exists|i: int| 0 <= i < assign(v, k, val).len() && assign(v, k, val)[i] == (k, val),
    decreases v.len(),
{
    let r = assign(v, k, val);
    if v.len() == 0 {
        assert(r[0] == (k, val));
    } else if key_lt(k, v[0].0) {
        assert(r[0] == (k, val));
        assert forall|i: int| 0 <= i < r.len() implies (#[trigger] r[i]).0 == k || exists|j: int|
            0 <= j < v.len() && v[j].0 == r[i].0 by {
            if i > 0 {
                assert(v[i - 1].0 == r[i].0);
            }
        }
    } else if v[0].0 == k {
        assert(r[0] == (k, val));
        assert forall|i: int| 0 <= i < r.len() implies (#[trigger] r[i]).0 == k || exists|j: int|
            0 <= j < v.len() && v[j].0 == r[i].0 by {
            if i > 0 {
                assert(v[i].0 == r[i].0);
            }
        }
    } else {
        let rest = v.drop_first();
        lemma_assign_keys(rest, k, val);
        let ar = assign(rest, k, val);
        let w = choose|i: int| 0 <= i < ar.len() && ar[i] == (k, val);
        assert(r[w + 1] == (k, val));
        assert forall|i: int| 0 <= i < r.len() implies (#[trigger] r[i]).0 == k || exists|j: int|
            0 <= j < v.len() && v[j].0 == r[i].0 by {
            if i == 0 {
                assert(v[0].0 == r[i].0);
            } else {
                assert(r[i] == ar[i - 1]);
                if ar[i - 1].0 != k {
                    let j = choose|j: int| 0 <= j < rest.len() && rest[j].0 == ar[i - 1].0;
                    assert(v[j + 1].0 == r[i].0);
                }
            }
        }
    }
}

/// Setting a name keeps the entries sorted.
pub proof fn lemma_assign_sorted(v: Seq<(AttrKey, Seq<char>)>, k: AttrKey, val: Seq<char>)
    requires
        sorted_entries(v),
    ensures
        sorted_entries(assign(v, k, val)),
    decreases v.len(),
{
    let r = assign(v, k, val);
    if v.len() == 0 {
    } else if key_lt(k, v[0].0) {
        assert forall|a: int, b: int| 0 <= a < b < r.len() implies key_lt(
            #[trigger] r[a].0,
            #[trigger] r[b].0,
        ) by {
            if a == 0 {
                if b > 1 {
                    lemma_key_order(k, v[0].0, v[b - 1].0);
                }
            } else {
                assert(r[a] == v[a - 1] && r[b] == v[b - 1]);
            }
        }
    } else if v[0].0 == k {
        assert forall|a: int, b: int| 0 <= a < b < r.len() implies key_lt(
            #[trigger] r[a].0,
            #[trigger] r[b].0,
        ) by {
            assert(r[a].0 == v[a].0 && r[b].0 == v[b].0);
        }
    } else {
        let rest = v.drop_first();
        assert(sorted_entries(rest)) by {
            assert forall|a: int, b: int| 0 <= a < b < rest.len() implies key_lt(
                #[trigger] rest[a].0,
                #[trigger] rest[b].0,
            ) by {
                assert(rest[a] == v[a + 1] && rest[b] == v[b + 1]);
            }
        }
        lemma_assign_sorted(rest, k, val);
        lemma_assign_keys(rest, k, val);
        lemma_key_order(v[0].0, k, k);
        lemma_key_order(k, v[0].0, k);
        let ar = assign(rest, k, val);
        assert forall|a: int, b: int| 0 <= a < b < r.len() implies key_lt(
            #[trigger] r[a].0,
            #[trigger] r[b].0,
        ) by {
            assert(r[b] == ar[b - 1]);
            if a == 0 {
                if ar[b - 1].0 != k {
                    let j = choose|j: int| 0 <= j < rest.len() && rest[j].0 == ar[b - 1].0;
                    assert(rest[j] == v[j + 1]);
                }
            } else {
                assert(r[a] == ar[a - 1]);
            }
        }
    }
}

/// Setting a name twice gives the entries of setting it once to the later
/// value: exactly one entry has that name, and it holds the later value.
pub proof fn lemma_set_twice(
    v: Seq<(AttrKey, Seq<char>)>,
    k: AttrKey,
    first: Seq<char>,
    second: Seq<char>,
)
    requires
        sorted_entries(v),
    ensures
        assign(assign(v, k, first), k, second) == assign(v, k, second),
        exists|i: int|
            0 <= i < assign(v, k, second).len() && assign(v, k, second)[i] == (k, second),
        forall|i: int, j: int|
            0 <= i < assign(v, k, second).len() && 0 <= j < assign(v, k, second).len()
                && (#[trigger] assign(v, k, second)[i]).0 == k && (#[trigger] assign(
                v,
                k,
                second,
            )[j]).0 == k ==> i == j,
    decreases v.len(),
{
    lemma_key_order(k, k, k);
    lemma_assign_keys(v, k, second);
    lemma_assign_sorted(v, k, second);
    let r = assign(v, k, second);
    assert forall|i: int, j: int|
        0 <= i < r.len() && 0 <= j < r.len() && (#[trigger] r[i]).0 == k && (#[trigger] r[j]).0
            == k implies i == j by {
        if i < j {
            assert(key_lt(r[i].0, r[j].0));
        } else if j < i {
            assert(key_lt(r[j].0, r[i].0));
        }
    }
    if v.len() == 0 {
    } else if key_lt(k, v[0].0) {
        assert((seq![(k, first)] + v).drop_first() =~= v);
    } else if v[0].0 == k {
        assert((seq![(k, first)] + v.drop_first()).drop_first() =~= v.drop_first());
    } else {
        let rest = v.drop_first();
        assert(sorted_entries(rest)) by {
            assert forall|a: int, b: int| 0 <= a < b < rest.len() implies key_lt(
                #[trigger] rest[a].0,
                #[trigger] rest[b].0,
            ) by {
                assert(rest[a] == v[a + 1] && rest[b] == v[b + 1]);
            }
        }
        lemma_set_twice(rest, k, first, second);
        lemma_key_order(v[0].0, k, k);
        let once = seq![v[0]] + assign(rest, k, first);
        assert(once[0] == v[0]);
        assert(once.drop_first() =~= assign(rest, k, first));
    }
}

impl Clone for AttributeMap {
    fn clone(&self) -> (r: Self)
        ensures
            r@ == self@,
    {
        proof {
            use_type_invariant(self);
        }
        let mut data: Vec<(AttributeName, String)> = Vec::new();
        let mut i: usize = 0;
        while i < self.data.len()
            invariant
                0 <= i <= self.data@.len(),
                data@.len() == i,
                forall|j: int|
                    0 <= j < i ==> (#[trigger] data@[j]).0@ == self.data@[j].0@ && data@[j].1@
                        == self.data@[j].1@,
            decreases self.data@.len() - i,
        {
            let e = &self.data[i];
            data.push((e.0.clone(), e.1.clone()));
            i = i + 1;
        }
        assert(data@.map_values(|e: (AttributeName, String)| (e.0@, e.1@)) =~= self@);
        let r = AttributeMap { data };
        r
    }
}

impl Default for AttributeMap {
    fn default() -> (r: AttributeMap)
        ensures
            r@ == Seq::<(AttrKey, Seq<char>)>::empty(),
    {
        AttributeMap::new()
    }
}

impl AttributeContainer for AttributeMap {
    open spec fn attribute_entries(&self) -> Seq<(AttrKey, Seq<char>)> {
        self@
    }

    fn len(&self) -> (r: usize) {
        proof {
            use_type_invariant(self);
        }
        self.data.len()
    }

    fn get(&self, name: &AttributeName) -> (r: Option<&String>) {
        let mut i: usize = 0;
        while i < self.data.len()
            invariant
                0 <= i <= self.data@.len(),
                forall|j: int| 0 <= j < i ==> (#[trigger] self@[j]).0 != name@,
            decreases self.data@.len() - i,
        {
            if self.data[i].0.same_as(name) {
                proof {
                    use_type_invariant(self);
                    let v = self@;
                    assert(v[i as int].0 == name@);
                    let c = choose|c: int| 0 <= c < v.len() && (#[trigger] v[c]).0 == name@;
                    if c != i {
                        if c < i {
                            lemma_key_order(v[c].0, v[i as int].0, name@);
                        } else {
                            lemma_key_order(v[i as int].0, v[c].0, name@);
                        }
                    }
                }
                return Some(&self.data[i].1);
            }
            i = i + 1;
        }
        None
    }

    fn get_at(&self, index: usize) -> (r: Option<(&AttributeName, &String)>) {
        if index < self.data.len() {
            let e = &self.data[index];
            Some((&e.0, &e.1))
        } else {
            None
        }
    }
}

impl AttributeContainerMut for AttributeMap {
    fn set(&mut self, name: AttributeName, value: String) {
        let mut taken = AttributeMap::new();
        core::mem::swap(self, &mut taken);
        proof {
            use_type_invariant(&taken);
        }
        let ghost v = taken@;
        let ghost k = name@;
        let ghost val = value@;
        let AttributeMap { data: mut data } = taken;
        assert(data@.map_values(|e: (AttributeName, String)| (e.0@, e.1@)) == v);
        let mut i: usize = 0;
        assert(v.skip(0) =~= v);
        assert(v.take(0) + assign(v, k, val) =~= assign(v, k, val));
        while i < data.len() && data[i].0.less_than(&name)
            invariant
                0 <= i <= data@.len(),
                v == data@.map_values(|e: (AttributeName, String)| (e.0@, e.1@)),
                sorted_entries(v),
                k == name@,
                val == value@,
                forall|j: int| 0 <= j < i ==> key_lt(#[trigger] v[j].0, k),
                assign(v, k, val) == v.take(i as int) + assign(v.skip(i as int), k, val),
            decreases data@.len() - i,
        {
            proof {
                let s = v.skip(i as int);
                lemma_key_order(v[i as int].0, k, k);
                lemma_key_order(k, v[i as int].0, k);
                assert(s.drop_first() =~= v.skip(i + 1));
                assert(v.take(i as int) + (seq![s[0]] + assign(s.drop_first(), k, val))
                    =~= v.take(i + 1) + assign(v.skip(i + 1), k, val));
            }
            i = i + 1;
        }
        let ghost s = v.skip(i as int);
        if i < data.len() && data[i].0.same_as(&name) {
            proof {
                lemma_key_order(k, k, k);
            }
            data.set(i, (name, value));
            let ghost w = data@.map_values(|e: (AttributeName, String)| (e.0@, e.1@));
            proof {
                assert(w =~= v.take(i as int) + (seq![(k, val)] + s.drop_first()));
                assert forall|a: int, b: int| 0 <= a < b < w.len() implies key_lt(
                    #[trigger] w[a].0,
                    #[trigger] w[b].0,
                ) by {
                    assert(w[a].0 == v[a].0 && w[b].0 == v[b].0);
                }
            }
        } else {
            proof {
                if i < v.len() {
                    lemma_key_order(v[i as int].0, k, k);
                    assert(key_lt(k, v[i as int].0));
                } else {
                    assert(s.len() == 0);
                }
            }
            data.insert(i, (name, value));
            let ghost w = data@.map_values(|e: (AttributeName, String)| (e.0@, e.1@));
            proof {
                if i < v.len() {
                    assert(w =~= v.take(i as int) + (seq![(k, val)] + s));
                } else {
                    assert(w =~= v.take(i as int) + seq![(k, val)]);
                }
                assert forall|a: int, b: int| 0 <= a < b < w.len() implies key_lt(
                    #[trigger] w[a].0,
                    #[trigger] w[b].0,
                ) by {
                    if b < i {
                        assert(w[a].0 == v[a].0 && w[b].0 == v[b].0);
                    } else if b == i {
                        assert(w[a].0 == v[a].0);
                    } else if a == i {
                        assert(w[b].0 == v[b - 1].0);
                        if b - 1 > i {
                            lemma_key_order(k, v[i as int].0, v[b - 1].0);
                        }
                    } else if a < i {
                        assert(w[a].0 == v[a].0 && w[b].0 == v[b - 1].0);
                    } else {
                        assert(w[a].0 == v[a - 1].0 && w[b].0 == v[b - 1].0);
                    }
                }
            }
        }
        *self = AttributeMap { data };
    }
}

} // verus!
