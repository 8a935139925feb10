use vstd::prelude::*;

verus! {

/// Position of the last entry of `s` whose key is `k`, or -1 when no entry has that key.
pub open spec fn key_index<T>(s: Seq<(Seq<char>, T)>, k: Seq<char>) -> int
    decreases s.len(),
{
    if s.len() == 0 {
        -1
    } else if s.last().0 == k {
        s.len() - 1
    } else {
        key_index(s.drop_last(), k)
    }
}

/// The value stored under `k` in the association list `s`.
pub open spec fn lookup<T>(s: Seq<(Seq<char>, T)>, k: Seq<char>) -> Option<T> {
    let i = key_index(s, k);
    if i >= 0 {
        Some(s[i].1)
    } else {
        None
    }
}

/// Whether some entry of `s` has key `k`.
pub open spec fn has_key<T>(s: Seq<(Seq<char>, T)>, k: Seq<char>) -> bool {
    exists|i: int| 0 <= i < s.len() && #[trigger] s[i].0 == k
}

/// No two entries of `s` share a key.
pub open spec fn unique_keys<T>(s: Seq<(Seq<char>, T)>) -> bool {
    forall|i: int, j: int| 0 <= i < s.len() && 0 <= j < s.len() && i != j ==> #[trigger] s[i].0 != #[trigger] s[j].0
}

/// `s` after storing `v` under `k`: an entry with key `k` has its value
/// replaced in place, otherwise the pair is appended.
pub open spec fn insert_pair<T>(s: Seq<(Seq<char>, T)>, k: Seq<char>, v: T) -> Seq<(Seq<char>, T)> {
    let i = key_index(s, k);
    if i >= 0 {
        s.update(i, (k, v))
    } else {
        s.push((k, v))
    }
}

/// `s` after storing each entry of `t` in turn.
pub open spec fn extend_pairs<T>(s: Seq<(Seq<char>, T)>, t: Seq<(Seq<char>, T)>) -> Seq<(Seq<char>, T)>
    decreases t.len(),
{
    if t.len() == 0 {
        s
    } else {
        let prev = extend_pairs(s, t.drop_last());
        insert_pair(prev, t.last().0, t.last().1)
    }
}

/// The association list `s` with each value replaced by its view.
pub open spec fn view_pairs<V: View>(s: Seq<(Seq<char>, V)>) -> Seq<(Seq<char>, V::V)> {
    s.map_values(|p: (Seq<char>, V)| (p.0, p.1@))
}

/// `key_index` finds the last entry with the key, or reports that none has it.
pub proof fn lemma_key_index<T>(s: Seq<(Seq<char>, T)>, k: Seq<char>)
    ensures
        -1 <= key_index(s, k) < s.len(),
        key_index(s, k) >= 0 ==> s[key_index(s, k)].0 == k,
        key_index(s, k) >= 0 ==> forall|j: int| key_index(s, k) < j < s.len() ==> s[j].0 != k,
        key_index(s, k) == -1 <==> !has_key(s, k),
    decreases s.len(),
{
    if s.len() > 0 {
        lemma_key_index(s.drop_last(), k);
        if s.last().0 != k {
            if has_key(s, k) {
                let j = choose|j: int| 0 <= j < s.len() && #[trigger] s[j].0 == k;
                assert(s.drop_last()[j].0 == k);
            }
            if has_key(s.drop_last(), k) {
                let j = choose|j: int| 0 <= j < s.drop_last().len() && #[trigger] s.drop_last()[j].0 == k;
                assert(s[j].0 == k);
            }
            assert forall|j: int| key_index(s, k) < j < s.len() implies s[j].0 != k by {
                if j < s.len() - 1 {
                    assert(s[j] == s.drop_last()[j]);
                }
            }
        } else {
            assert(s[s.len() - 1].0 == k);
        }
    }
}

/// Reading a key after storing a value under it gives that value back, and
/// storing leaves every other key's value and the keys' distinctness as they were.
pub proof fn lemma_lookup_after_insert<T>(s: Seq<(Seq<char>, T)>, k: Seq<char>, v: T, other: Seq<char>)
    requires
        other != k,
    ensures
        lookup(insert_pair(s, k, v), k) == Some(v),
        lookup(insert_pair(s, k, v), other) == lookup(s, other),
        unique_keys(s) ==> unique_keys(insert_pair(s, k, v)),
{
    lemma_key_index(s, k);
    lemma_key_index(s, other);
    let t = insert_pair(s, k, v);
    lemma_key_index(t, k);
    lemma_key_index(t, other);
    let i = key_index(s, k);
    if i >= 0 {
        assert(t[i].0 == k);
        if key_index(t, k) != i {
            assert(key_index(t, k) > i);
            assert(s[key_index(t, k)].0 == k);
        }
        let o = key_index(s, other);
        if o >= 0 {
            assert(t[o] == s[o]);
            assert(key_index(t, other) >= o);
            if key_index(t, other) > o {
                assert(s[key_index(t, other)].0 == other);
            }
        } else if key_index(t, other) >= 0 {
            assert(s[key_index(t, other)].0 == other);
        }
        if unique_keys(s) {
            assert forall|a: int, b: int|
                0 <= a < t.len() && 0 <= b < t.len() && a != b implies #[trigger] t[a].0 != #[trigger] t[b].0 by {
                assert(t[a].0 == s[a].0 && t[b].0 == s[b].0);
            }
        }
    } else {
        assert(t.last().0 == k);
        assert(t.drop_last() =~= s);
        if unique_keys(s) {
            lemma_insert_absent(s, k, v);
        }
    }
}

/// Taking the views of the values keeps positions and lookups.
pub proof fn lemma_view_pairs<V: View>(s: Seq<(Seq<char>, V)>, k: Seq<char>)
    ensures
        view_pairs(s).len() == s.len(),
        key_index(view_pairs(s), k) == key_index(s, k),
        lookup(view_pairs(s), k) == (match lookup(s, k) {
            Some(v) => Some(v@),
            None => None,
        }),
    decreases s.len(),
{
    if s.len() > 0 {
        lemma_view_pairs(s.drop_last(), k);
        assert(view_pairs(s).drop_last() =~= view_pairs(s.drop_last()));
        assert(view_pairs(s).last().0 == s.last().0);
    }
    let i = key_index(s, k);
    if i >= 0 {
        lemma_key_index(s, k);
        assert(view_pairs(s)[i] == (s[i].0, s[i].1@));
    }
}

/// Storing a key that is not present appends one entry.
pub proof fn lemma_insert_absent<T>(s: Seq<(Seq<char>, T)>, k: Seq<char>, v: T)
    requires
        !has_key(s, k),
    ensures
        insert_pair(s, k, v) == s.push((k, v)),
        unique_keys(s) ==> unique_keys(s.push((k, v))),
{
    lemma_key_index(s, k);
    if unique_keys(s) {
        assert forall|i: int, j: int|
            0 <= i < s.len() + 1 && 0 <= j < s.len() + 1 && i != j implies #[trigger] s.push((k, v))[i].0
            != #[trigger] s.push((k, v))[j].0 by {
            if i < s.len() && j < s.len() {
                assert(s[i].0 != s[j].0);
            } else if i < s.len() {
                assert(s[i].0 != k);
            } else {
                assert(s[j].0 != k);
            }
        }
    }
}

/// In a list with distinct keys, a prefix does not hold the key of a later entry.
pub proof fn lemma_unique_prefix<T>(s: Seq<(Seq<char>, T)>, i: int)
    requires
        unique_keys(s),
        0 <= i < s.len(),
    ensures
        !has_key(s.take(i), s[i].0),
        unique_keys(s.take(i)),
        s.take(i + 1) == s.take(i).push(s[i]),
{
    if has_key(s.take(i), s[i].0) {
        let j = choose|j: int| 0 <= j < s.take(i).len() && #[trigger] s.take(i)[j].0 == s[i].0;
        assert(s[j].0 == s[i].0);
    }
    assert(s.take(i + 1) =~= s.take(i).push(s[i]));
}

/// Taking the views of the values keeps the keys present.
pub proof fn lemma_has_key_view<V: View>(s: Seq<(Seq<char>, V)>, k: Seq<char>)
    ensures
        has_key(view_pairs(s), k) == has_key(s, k),
{
    lemma_view_pairs(s, k);
    lemma_key_index(s, k);
    lemma_key_index(view_pairs(s), k);
}

/// Taking views commutes with appending an entry.
pub proof fn lemma_view_push<V: View>(s: Seq<(Seq<char>, V)>, k: Seq<char>, v: V)
    ensures
        view_pairs(s.push((k, v))) == view_pairs(s).push((k, v@)),
{
    assert(view_pairs(s.push((k, v))) =~= view_pairs(s).push((k, v@)));
}

/// Taking views commutes with taking a prefix.
pub proof fn lemma_view_take<V: View>(s: Seq<(Seq<char>, V)>, n: int)
    requires
        0 <= n <= s.len(),
    ensures
        view_pairs(s.take(n)) == view_pairs(s).take(n),
{
    assert(view_pairs(s.take(n)) =~= view_pairs(s).take(n));
}

/// A map from text keys to values that keeps its entries in insertion order.
pub struct StrMap<V> {
    keys: Vec<String>,
    vals: Vec<V>,
}

impl<V> StrMap<V> {
    /// The entries, in order, with keys taken as text.
    pub closed spec fn pairs(&self) -> Seq<(Seq<char>, V)> {
        Seq::new(self.keys@.len(), |i: int| (self.keys@[i]@, self.vals@[i]))
    }

    #[verifier::type_invariant]
    closed spec fn well_formed(&self) -> bool {
        &&& self.keys@.len() == self.vals@.len()
        &&& forall|i: int, j: int|
            0 <= i < self.keys@.len() && 0 <= j < self.keys@.len() && i != j
                ==> #[trigger] self.keys@[i]@ != #[trigger] self.keys@[j]@
    }

    /// An empty map.
    pub fn new() -> (r: Self)
        ensures
            r.pairs() == Seq::<(Seq<char>, V)>::empty(),
    {
        let r = StrMap { keys: Vec::new(), vals: Vec::new() };
        assert(r.pairs() =~= Seq::<(Seq<char>, V)>::empty());
        r
    }

    /// The number of entries; the keys of a map are always distinct.
    pub fn len(&self) -> (r: usize)
        ensures
            r == self.pairs().len(),
            unique_keys(self.pairs()),
    {
        proof {
            use_type_invariant(self);
        }
        self.keys.len()
    }

    /// The key of entry `i`.
    pub fn key_at(&self, i: usize) -> (r: &String)
        requires
            i < self.pairs().len(),
        ensures
            r@ == self.pairs()[i as int].0,
    {
        proof {
            use_type_invariant(self);
        }
        &self.keys[i]
    }

    /// The value of entry `i`.
    pub fn value_at(&self, i: usize) -> (r: &V)
        requires
            i < self.pairs().len(),
        ensures
            *r == self.pairs()[i as int].1,
    {
        proof {
            use_type_invariant(self);
        }
        &self.vals[i]
    }

    /// Position of the entry with key `key`.
    fn find(&self, key: &str) -> (r: Option<usize>)
        ensures
            key_index(self.pairs(), key@) == (match r {
                Some(i) => i as int,
                None => -1,
            }),
    {
        proof {
            use_type_invariant(self);
        }
        let wanted = key.to_owned();
        let mut i = self.keys.len();
        assert(self.pairs().take(i as int) =~= self.pairs());
        while i > 0
            invariant
                i <= self.keys@.len(),
                self.keys@.len() == self.vals@.len(),
                wanted@ == key@,
                key_index(self.pairs(), key@) == key_index(self.pairs().take(i as int), key@),
            decreases i,
        {
            let j = i - 1;
            assert(self.pairs().take(i as int).last() == self.pairs()[j as int]);
            if self.keys[j] == wanted {
                return Some(j);
            }
            assert(self.pairs().take(i as int).drop_last() =~= self.pairs().take(j as int));
            i = j;
        }
        None
    }

    /// Whether some entry has key `key`.
    pub fn contains_key(&self, key: &str) -> (r: bool)
        ensures
            r == has_key(self.pairs(), key@),
    {
        proof {
            lemma_key_index(self.pairs(), key@);
        }
        self.find(key).is_some()
    }

    /// The value stored under `key`.
    pub fn get(&self, key: &str) -> (r: Option<&V>)
        ensures
            match r {
                Some(v) => lookup(self.pairs(), key@) == Some(*v),
                None => lookup(self.pairs(), key@) is None,
            },
    {
        proof {
            use_type_invariant(self);
            lemma_key_index(self.pairs(), key@);
        }
        match self.find(key) {
            Some(i) => Some(&self.vals[i]),
            None => None,
        }
    }

    /// The value stored under `key`, to be changed in place.
    pub fn get_mut(&mut self, key: &str) -> (r: Option<&mut V>)
        ensures
            r is None <==> !has_key(old(self).pairs(), key@),
            r is None ==> *final(self) == *old(self),
            r is Some ==> {
                let i = key_index(old(self).pairs(), key@);
                &&& lookup(old(self).pairs(), key@) == Some(*r.unwrap())
                &&& final(self).pairs() == old(self).pairs().update(i, (key@, *final(r.unwrap())))
            },
    {
        proof {
            use_type_invariant(&*self);
            lemma_key_index(self.pairs(), key@);
        }
        match self.find(key) {
            Some(i) => Some(&mut self.vals[i]),
            None => None,
        }
    }

    /// Stores `value` under `key`, replacing the value of an entry with that
    /// key or else appending a new entry.
    pub fn insert(&mut self, key: String, value: V)
        ensures
            final(self).pairs() == insert_pair(old(self).pairs(), key@, value),
    {
        proof {
            use_type_invariant(&*self);
            lemma_key_index(self.pairs(), key@);
        }
        let found = self.find(key.as_str());
        let mut whole = StrMap::new();
        std::mem::swap(&mut whole, self);
        proof {
            use_type_invariant(&whole);
        }
        let StrMap { keys: mut keys, vals: mut vals } = whole;
        match found {
            Some(i) => {
                vals.set(i, value);
            },
            None => {
                assert forall|j: int| 0 <= j < keys@.len() implies keys@[j]@ != key@ by {
                    assert(old(self).pairs()[j].0 == keys@[j]@);
                }
                keys.push(key);
                vals.push(value);
            },
        }
        assert(Seq::new(keys@.len(), |i: int| (keys@[i]@, vals@[i])) =~= insert_pair(old(self).pairs(), key@, value));
        let updated = StrMap { keys, vals };
        *self = updated;
    }
}

impl<V: View> View for StrMap<V> {
    type V = Seq<(Seq<char>, V::V)>;

    open spec fn view(&self) -> Seq<(Seq<char>, V::V)> {
        view_pairs(self.pairs())
    }
}

} // verus!
