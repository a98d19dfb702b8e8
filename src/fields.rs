use vstd::prelude::*;
use vstd::slice::slice_to_vec;
use vstd::utf8::encode_utf8;
use crate::text::{chars_of, lossy_of, lossy_string};

verus! {

/// Lexicographic order of keys, character by character.
pub open spec fn key_less(a: Seq<char>, b: Seq<char>) -> bool
    decreases a.len(),
{
    if a.len() == 0 {
        b.len() > 0
    } else if b.len() == 0 {
        false
    } else if a[0] != b[0] {
        a[0] < b[0]
    } else {
        key_less(a.drop_first(), b.drop_first())
    }
}

pub proof fn lemma_key_less_irreflexive(a: Seq<char>)
    ensures
        !key_less(a, a),
    decreases a.len(),
{
    if a.len() > 0 {
        lemma_key_less_irreflexive(a.drop_first());
    }
}

pub proof fn lemma_key_less_total(a: Seq<char>, b: Seq<char>)
    requires
        a != b,
    ensures
        key_less(a, b) || key_less(b, a),
    decreases a.len(),
{
    if a.len() > 0 && b.len() > 0 && a[0] == b[0] {
        if a.drop_first() == b.drop_first() {
            assert(a =~= seq![a[0]] + a.drop_first());
            assert(b =~= seq![b[0]] + b.drop_first());
        }
        lemma_key_less_total(a.drop_first(), b.drop_first());
    } else if a.len() == 0 && b.len() == 0 {
        assert(a =~= b);
    }
}

pub proof fn lemma_key_less_transitive(a: Seq<char>, b: Seq<char>, c: Seq<char>)
    requires
        key_less(a, b),
        key_less(b, c),
    ensures
        key_less(a, c),
    decreases a.len(),
{
    if a.len() > 0 && b.len() > 0 && c.len() > 0 && a[0] == b[0] && b[0] == c[0] {
        lemma_key_less_transitive(a.drop_first(), b.drop_first(), c.drop_first());
    }
}

/// `a` comes before `b` in key order.
pub fn key_less_chars(a: &[char], b: &[char]) -> (r: bool)
    ensures
        r == key_less(a@, b@),
{
    let mut i: usize = 0;
    assert(a@.skip(0) =~= a@);
    assert(b@.skip(0) =~= b@);
    loop
        invariant
            i <= a@.len(),
            i <= b@.len(),
            key_less(a@, b@) == key_less(a@.skip(i as int), b@.skip(i as int)),
        decreases a@.len() - i,
    {
        if i == a.len() {
            return i < b.len();
        }
        if i == b.len() {
            return false;
        }
        if a[i] != b[i] {
            assert(a@.skip(i as int)[0] == a@[i as int]);
            assert(b@.skip(i as int)[0] == b@[i as int]);
            return a[i] < b[i];
        }
        assert(a@.skip(i as int).drop_first() =~= a@.skip(i + 1));
        assert(b@.skip(i as int).drop_first() =~= b@.skip(i + 1));
        i += 1;
    }
}

pub fn chars_equal(a: &[char], b: &[char]) -> (r: bool)
    ensures
        r == (a@ == b@),
{
    if a.len() != b.len() {
        return false;
    }
    let mut i: usize = 0;
    while i < a.len()
        invariant
            a@.len() == b@.len(),
            i <= a@.len(),
            forall|j: int| 0 <= j < i ==> a@[j] == b@[j],
        decreases a@.len() - i,
    {
        if a[i] != b[i] {
            return false;
        }
        i += 1;
    }
    assert(a@ =~= b@);
    true
}

/// A map from text keys to values, kept in key order, one value per key.
pub struct FieldMap<V> {
    entries: Vec<(String, V)>,
}

impl<V: View> FieldMap<V> {
    /// The keys, in order.
    pub closed spec fn keys(&self) -> Seq<Seq<char>> {
        self.entries@.map_values(|e: (String, V)| e.0@)
    }

    /// The values, in key order.
    pub closed spec fn values(&self) -> Seq<V::V> {
        self.entries@.map_values(|e: (String, V)| e.1@)
    }

    /// Keys are strictly increasing.
    pub closed spec fn wf(&self) -> bool {
        forall|i: int, j: int|
            0 <= i < j < self.entries@.len() ==> key_less(
                #[trigger] self.entries@[i].0@,
                #[trigger] self.entries@[j].0@,
            )
    }

    pub closed spec fn index_of_key(&self, k: Seq<char>) -> int {
        choose|i: int| 0 <= i < self.entries@.len() && self.entries@[i].0@ == k
    }

    pub closed spec fn map(&self) -> Map<Seq<char>, V::V> {
        Map::new(
            |k: Seq<char>| exists|i: int| 0 <= i < self.entries@.len() && self.entries@[i].0@ == k,
            |k: Seq<char>| self.entries@[self.index_of_key(k)].1@,
        )
    }

    proof fn lemma_at(&self, i: int)
        requires
            self.wf(),
            0 <= i < self.entries@.len(),
        ensures
            self.map().contains_key(self.entries@[i].0@),
            self.map()[self.entries@[i].0@] == self.entries@[i].1@,
            self.keys()[i] == self.entries@[i].0@,
            self.values()[i] == self.entries@[i].1@,
    {
        let k = self.entries@[i].0@;
        assert(exists|j: int| 0 <= j < self.entries@.len() && self.entries@[j].0@ == k);
        let j = self.index_of_key(k);
        lemma_key_less_irreflexive(k);
        if j < i {
            assert(key_less(self.entries@[j].0@, self.entries@[i].0@));
        } else if i < j {
            assert(key_less(self.entries@[i].0@, self.entries@[j].0@));
        }
    }

    proof fn lemma_all(&self)
        requires
            self.wf(),
        ensures
            forall|i: int|
                0 <= i < self.entries@.len() ==> #[trigger] self.map().contains_key(
                    self.entries@[i].0@,
                ) && self.map()[self.entries@[i].0@] == self.entries@[i].1@,
            forall|k: Seq<char>|
                #[trigger] self.map().contains_key(k) ==> exists|i: int|
                    0 <= i < self.entries@.len() && self.entries@[i].0@ == k,
            self.keys().len() == self.entries@.len(),
            self.values().len() == self.entries@.len(),
            forall|i: int| 0 <= i < self.entries@.len() ==> #[trigger] self.keys()[i] == self.entries@[i].0@,
            forall|i: int| 0 <= i < self.entries@.len() ==> #[trigger] self.values()[i] == self.entries@[i].1@,
    {
        assert forall|i: int| 0 <= i < self.entries@.len() implies #[trigger] self.map().contains_key(
            self.entries@[i].0@,
        ) && self.map()[self.entries@[i].0@] == self.entries@[i].1@ by {
            self.lemma_at(i);
        }
    }

    /// The key and value sequences list exactly the map's fields, keys
    /// strictly increasing.
    pub proof fn lemma_entries(&self)
        requires
            self.wf(),
        ensures
            self.keys().len() == self.values().len(),
            forall|i: int|
                0 <= i < self.keys().len() ==> #[trigger] self@.contains_key(self.keys()[i])
                    && self@[self.keys()[i]] == self.values()[i],
            forall|k: Seq<char>|
                #[trigger] self@.contains_key(k) ==> exists|i: int|
                    0 <= i < self.keys().len() && self.keys()[i] == k,
            forall|i: int, j: int|
                0 <= i < j < self.keys().len() ==> key_less(self.keys()[i], self.keys()[j]),
    {
        self.lemma_all();
        assert forall|i: int| 0 <= i < self.keys().len() implies #[trigger] self@.contains_key(
            self.keys()[i],
        ) && self@[self.keys()[i]] == self.values()[i] by {
            assert(self.map().contains_key(self.entries@[i].0@));
        }
        assert forall|k: Seq<char>| #[trigger] self@.contains_key(k) implies exists|i: int|
            0 <= i < self.keys().len() && self.keys()[i] == k by {
            let i = choose|i: int| 0 <= i < self.entries@.len() && self.entries@[i].0@ == k;
            assert(self.keys()[i] == k);
        }
        assert forall|i: int, j: int| 0 <= i < j < self.keys().len() implies key_less(
            self.keys()[i],
            self.keys()[j],
        ) by {
            assert(key_less(self.entries@[i].0@, self.entries@[j].0@));
        }
    }

    /// An empty map.
    pub fn new() -> (r: Self)
        ensures
            r.wf(),
            r@ == Map::<Seq<char>, V::V>::empty(),
            r.keys() == Seq::<Seq<char>>::empty(),
    {
        let r = FieldMap { entries: Vec::new() };
        assert(r.map() =~= Map::<Seq<char>, V::V>::empty());
        assert(r.keys() =~= Seq::<Seq<char>>::empty());
        r
    }

    pub fn len(&self) -> (r: usize)
        ensures
            r == self.keys().len(),
            r == self.values().len(),
    {
        self.entries.len()
    }

    /// The key at position `i` in key order.
    pub fn key_at(&self, i: usize) -> (r: &String)
        requires
            i < self.keys().len(),
        ensures
            r@ == self.keys()[i as int],
    {
        &self.entries[i].0
    }

    /// The value at position `i` in key order.
    pub fn value_at(&self, i: usize) -> (r: &V)
        requires
            i < self.keys().len(),
        ensures
            r@ == self.values()[i as int],
    {
        &self.entries[i].1
    }

    /// Sets the value of `key`, replacing any earlier value.
    pub fn insert(&mut self, key: String, value: V)
        requires
            old(self).wf(),
        ensures
            final(self).wf(),
            final(self)@ == old(self)@.insert(key@, value@),
    {
        let kc = chars_of(key.as_str());
        let n = self.entries.len();
        let mut i: usize = 0;
        while i < n
            invariant
                n == self.entries@.len(),
                i <= n,
                kc@ == key@,
                forall|j: int| 0 <= j < i ==> key_less(#[trigger] self.entries@[j].0@, key@),
            ensures
                i <= n,
                forall|j: int| 0 <= j < i ==> key_less(#[trigger] self.entries@[j].0@, key@),
                i < n ==> !key_less(self.entries@[i as int].0@, key@),
            decreases n - i,
        {
            let ec = chars_of(self.entries[i].0.as_str());
            if !key_less_chars(ec.as_slice(), kc.as_slice()) {
                break;
            }
            i += 1;
        }
        let ghost old_self = *self;
        proof {
            old_self.lemma_all();
        }
        let replace = if i < n {
            let ec = chars_of(self.entries[i].0.as_str());
            chars_equal(ec.as_slice(), kc.as_slice())
        } else {
            false
        };
        if replace {
            self.entries.remove(i);
        }
        self.entries.insert(i, (key, value));
        proof {
            let new_e = self.entries@;
            let old_e = old_self.entries@;
            if !replace && i < n {
                lemma_key_less_total(old_e[i as int].0@, key@);
            }
            assert forall|a: int, b: int|
                0 <= a < b < new_e.len() implies key_less(
                #[trigger] new_e[a].0@,
                #[trigger] new_e[b].0@,
            ) by {
                if a < i && b == i {
                } else if a < i && b > i && replace {
                    assert(new_e[a] == old_e[a]);
                    assert(new_e[b] == old_e[b]);
                } else if a < i && b > i {
                    let ob = if replace { b } else { b - 1 };
                    assert(new_e[b] == old_e[ob]);
                    lemma_key_less_transitive(old_e[a].0@, key@, old_e[i as int].0@);
                    if ob > i {
                        assert(key_less(old_e[i as int].0@, old_e[ob].0@));
                        lemma_key_less_transitive(old_e[a].0@, old_e[i as int].0@, old_e[ob].0@);
                    }
                } else if a == i {
                    let ob = if replace { b } else { b - 1 };
                    assert(new_e[b] == old_e[ob]);
                    if ob > i {
                        assert(key_less(old_e[i as int].0@, old_e[ob].0@));
                        if !replace {
                            lemma_key_less_transitive(key@, old_e[i as int].0@, old_e[ob].0@);
                        }
                    }
                } else if a > i {
                    let oa = if replace { a } else { a - 1 };
                    let ob = if replace { b } else { b - 1 };
                    assert(new_e[a] == old_e[oa]);
                    assert(new_e[b] == old_e[ob]);
                } else {
                    assert(new_e[a] == old_e[a]);
                    assert(new_e[b] == old_e[b]);
                }
            }
            self.lemma_all();
            assert forall|k: Seq<char>| #[trigger] self.map().contains_key(k) == old_self.map().insert(key@, value@).contains_key(k) by {
                if self.map().contains_key(k) {
                    let j = choose|j: int| 0 <= j < new_e.len() && new_e[j].0@ == k;
                    if j < i {
                        assert(new_e[j] == old_e[j]);
                    } else if j > i {
                        let oj = if replace { j } else { j - 1 };
                        assert(new_e[j] == old_e[oj]);
                    }
                }
                if old_self.map().contains_key(k) && k != key@ {
                    let j = choose|j: int| 0 <= j < old_e.len() && old_e[j].0@ == k;
                    if j < i {
                        assert(new_e[j] == old_e[j]);
                    } else if j > i {
                        let nj = if replace { j } else { j + 1 };
                        assert(new_e[nj] == old_e[j]);
                    } else if !replace {
                        assert(new_e[j + 1] == old_e[j]);
                    }
                }
                if k == key@ {
                    assert(new_e[i as int].0@ == key@);
                }
            }
            assert forall|k: Seq<char>| #[trigger] self.map().contains_key(k) implies self.map()[k] == old_self.map().insert(key@, value@)[k] by {
                let j = choose|j: int| 0 <= j < new_e.len() && new_e[j].0@ == k;
                lemma_key_less_irreflexive(k);
                if j < i {
                    assert(new_e[j] == old_e[j]);
                    assert(self.map().contains_key(new_e[j].0@));
                    assert(old_self.map().contains_key(old_e[j].0@));
                    assert(k != key@);
                } else if j > i {
                    let oj = if replace { j } else { j - 1 };
                    assert(new_e[j] == old_e[oj]);
                    assert(key_less(new_e[i as int].0@, new_e[j].0@));
                    assert(self.map().contains_key(new_e[j].0@));
                    assert(old_self.map().contains_key(old_e[oj].0@));
                    assert(k != key@);
                } else {
                    assert(self.map().contains_key(new_e[i as int].0@));
                }
            }
            assert(self.map() =~= old_self.map().insert(key@, value@));
        }
    }

    /// The value of `key`, if it has one.
    pub fn get(&self, key: &str) -> (r: Option<&V>)
        requires
            self.wf(),
        ensures
            r is Some <==> self@.contains_key(key@),
            r matches Some(v) ==> v@ == self@[key@],
    {
        let kc = chars_of(key);
        let n = self.entries.len();
        let mut i: usize = 0;
        proof {
            self.lemma_all();
        }
        while i < n
            invariant
                n == self.entries@.len(),
                i <= n,
                kc@ == key@,
                self.wf(),
                forall|j: int| 0 <= j < i ==> #[trigger] self.entries@[j].0@ != key@,
            decreases n - i,
        {
            let ec = chars_of(self.entries[i].0.as_str());
            if chars_equal(ec.as_slice(), kc.as_slice()) {
                proof {
                    self.lemma_at(i as int);
                }
                return Some(&self.entries[i].1);
            }
            i += 1;
        }
        None
    }
}

impl<V: View> View for FieldMap<V> {
    type V = Map<Seq<char>, V::V>;

    closed spec fn view(&self) -> Map<Seq<char>, V::V> {
        self.map()
    }
}

impl<V: View> FieldMap<V> {
    /// The same keys, each value converted by `f`, whose results `g` describes.
    pub(crate) fn map_values<W: View, F: Fn(&V) -> W>(&self, f: F, Ghost(g): Ghost<spec_fn(V::V) -> W::V>) -> (r: FieldMap<W>)
        requires
            self.wf(),
            forall|v: &V| #[trigger] f.requires((v,)),
            forall|v: &V, w: W| #[trigger] f.ensures((v,), w) ==> w@ == g(v@),
        ensures
            r.wf(),
            r@ == self@.map_values(g),
    {
        let mut entries: Vec<(String, W)> = Vec::new();
        let n = self.entries.len();
        let mut i: usize = 0;
        while i < n
            invariant
                n == self.entries@.len(),
                i <= n,
                entries@.len() == i,
                forall|v: &V| #[trigger] f.requires((v,)),
                forall|v: &V, w: W| #[trigger] f.ensures((v,), w) ==> w@ == g(v@),
                forall|j: int|
                    0 <= j < i ==> (#[trigger] entries@[j]).0@ == self.entries@[j].0@
                        && entries@[j].1@ == g(self.entries@[j].1@),
            decreases n - i,
        {
            let key = self.entries[i].0.clone();
            let value = f(&self.entries[i].1);
            entries.push((key, value));
            i += 1;
        }
        let r = FieldMap { entries };
        proof {
            assert forall|a: int, b: int|
                0 <= a < b < r.entries@.len() implies key_less(
                #[trigger] r.entries@[a].0@,
                #[trigger] r.entries@[b].0@,
            ) by {
                assert(key_less(self.entries@[a].0@, self.entries@[b].0@));
            }
            r.lemma_all();
            self.lemma_all();
            let target = self@.map_values(g);
            assert forall|k: Seq<char>| #[trigger] r.map().contains_key(k) == target.contains_key(k) by {
                if r.map().contains_key(k) {
                    let j = choose|j: int| 0 <= j < r.entries@.len() && r.entries@[j].0@ == k;
                    assert(self.map().contains_key(self.entries@[j].0@));
                }
                if target.contains_key(k) {
                    let j = choose|j: int| 0 <= j < self.entries@.len() && self.entries@[j].0@ == k;
                    assert(r.map().contains_key(r.entries@[j].0@));
                }
            }
            assert forall|k: Seq<char>| #[trigger] r.map().contains_key(k) implies r.map()[k] == target[k] by {
                let j = choose|j: int| 0 <= j < r.entries@.len() && r.entries@[j].0@ == k;
                assert(self.map().contains_key(self.entries@[j].0@));
                assert(r.map().contains_key(r.entries@[j].0@));
            }
            assert(r.map() =~= target);
        }
        r
    }
}

fn lossy_value(v: &Vec<u8>) -> (t: String)
    ensures
        t@ == lossy_of(v@),
{
    lossy_string(v.as_slice())
}

fn utf8_bytes(v: &String) -> (b: Vec<u8>)
    ensures
        b@ == encode_utf8(v@),
{
    slice_to_vec(v.as_str().as_bytes())
}

impl FieldMap<Vec<u8>> {
    /// The same fields with each value decoded as UTF-8 text, invalid
    /// sequences replaced.
    pub fn to_text(&self) -> (r: FieldMap<String>)
        requires
            self.wf(),
        ensures
            r.wf(),
            r@ == self@.map_values(|v: Seq<u8>| lossy_of(v)),
    {
        self.map_values(lossy_value, Ghost(|v: Seq<u8>| lossy_of(v)))
    }
}

impl FieldMap<String> {
    /// The same fields with each value replaced by the UTF-8 bytes of its text.
    pub fn to_bytes(&self) -> (r: FieldMap<Vec<u8>>)
        requires
            self.wf(),
        ensures
            r.wf(),
            r@ == self@.map_values(|v: Seq<char>| encode_utf8(v)),
    {
        self.map_values(utf8_bytes, Ghost(|v: Seq<char>| encode_utf8(v)))
    }

    /// Sets every field of `other`, replacing earlier values of the same keys.
    pub fn merge(&mut self, other: &FieldMap<String>)
        requires
            old(self).wf(),
            other.wf(),
        ensures
            final(self).wf(),
            final(self)@ == old(self)@.union_prefer_right(other@),
    {
        let ghost start = self@;
        let n = other.entries.len();
        let mut i: usize = 0;
        proof {
            other.lemma_all();
        }
        while i < n
            invariant
                n == other.entries@.len(),
                i <= n,
                other.wf(),
                self.wf(),
                forall|k: Seq<char>|
                    #[trigger] self@.contains_key(k) <==> (start.contains_key(k) || exists|j: int|
                        0 <= j < i && other.entries@[j].0@ == k),
                forall|j: int|
                    0 <= j < i ==> #[trigger] self@[other.entries@[j].0@] == other.entries@[j].1@,
                forall|k: Seq<char>|
                    #[trigger] start.contains_key(k) && (forall|j: int|
                        0 <= j < i ==> other.entries@[j].0@ != k) ==> self@[k] == start[k],
            decreases n - i,
        {
            let ghost before = self@;
            let key = other.entries[i].0.clone();
            let value = other.entries[i].1.clone();
            self.insert(key, value);
            proof {
                assert forall|j: int| 0 <= j < i + 1 implies #[trigger] self@[other.entries@[j].0@]
                    == other.entries@[j].1@ by {
                    if j < i {
                        assert(key_less(other.entries@[j].0@, other.entries@[i as int].0@));
                        lemma_key_less_irreflexive(other.entries@[j].0@);
                    }
                }
                assert forall|k: Seq<char>| #[trigger] self@.contains_key(k) <==> (start.contains_key(k)
                    || exists|j: int| 0 <= j < i + 1 && other.entries@[j].0@ == k) by {
                    if exists|j: int| 0 <= j < i + 1 && other.entries@[j].0@ == k {
                        let j = choose|j: int| 0 <= j < i + 1 && other.entries@[j].0@ == k;
                        if j < i {
                            assert(before.contains_key(k));
                        }
                    }
                    if before.contains_key(k) {
                    }
                }
            }
            i += 1;
        }
        proof {
            let target = start.union_prefer_right(other@);
            assert forall|k: Seq<char>| #[trigger] self@.contains_key(k) == target.contains_key(k) by {
                if other@.contains_key(k) {
                    let j = choose|j: int| 0 <= j < other.entries@.len() && other.entries@[j].0@ == k;
                }
                if exists|j: int| 0 <= j < n && other.entries@[j].0@ == k {
                    let j = choose|j: int| 0 <= j < n && other.entries@[j].0@ == k;
                    assert(other@.contains_key(other.entries@[j].0@));
                }
            }
            assert forall|k: Seq<char>| #[trigger] self@.contains_key(k) implies self@[k] == target[k] by {
                if exists|j: int| 0 <= j < n && other.entries@[j].0@ == k {
                    let j = choose|j: int| 0 <= j < n && other.entries@[j].0@ == k;
                    assert(other@.contains_key(other.entries@[j].0@));
                } else {
                    if other@.contains_key(k) {
                        let j = choose|j: int| 0 <= j < other.entries@.len() && other.entries@[j].0@ == k;
                    }
                }
            }
            assert(self@ =~= target);
        }
    }
}

} // verus!
