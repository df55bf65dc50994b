//! Sets and maps keyed by strings, kept in ascending order.
use vstd::prelude::*;
use crate::text;
use crate::text::Rank;

verus! {

/// What a list of strings stands for.
pub open spec fn strs_view(v: Seq<String>) -> Seq<Seq<char>> {
    Seq::new(v.len(), |i: int| v[i]@)
}

/// Strictly ascending, so without repetition.
pub open spec fn ascending(s: Seq<Seq<char>>) -> bool {
    forall|i: int, j: int| 0 <= i < j < s.len() ==> text::lex_lt(#[trigger] s[i], #[trigger] s[j])
}

/// An ascending list holds no string twice.
pub proof fn lemma_ascending_distinct(s: Seq<Seq<char>>)
    requires
        ascending(s),
    ensures
        s.no_duplicates(),
{
    assert forall|i: int, j: int| 0 <= i < s.len() && 0 <= j < s.len() && i != j implies s[i]
        != s[j] by {
        if i < j {
            text::lemma_lex_asymmetric(s[i], s[j]);
        } else {
            text::lemma_lex_asymmetric(s[j], s[i]);
        }
    }
}

proof fn lemma_insert_ascending(s: Seq<Seq<char>>, k: int, x: Seq<char>)
    requires
        ascending(s),
        0 <= k <= s.len(),
        forall|i: int| 0 <= i < k ==> text::lex_lt(#[trigger] s[i], x),
        forall|i: int| k <= i < s.len() ==> text::lex_lt(x, #[trigger] s[i]),
    ensures
        ascending(s.insert(k, x)),
{
    let t = s.insert(k, x);
    assert forall|i: int, j: int| 0 <= i < j < t.len() implies text::lex_lt(
        #[trigger] t[i],
        #[trigger] t[j],
    ) by {
        let a = if i < k {
            s[i]
        } else if i > k {
            s[i - 1]
        } else {
            x
        };
        let b = if j < k {
            s[j]
        } else if j > k {
            s[j - 1]
        } else {
            x
        };
        assert(t[i] == a && t[j] == b);
    }
}

/// Where a string is in an ascending list, or where it belongs.
fn search(keys: &Vec<String>, key: &str) -> (r: Result<usize, usize>)
    requires
        ascending(strs_view(keys@)),
    ensures
        r matches Ok(i) ==> i < keys@.len() && keys@[i as int]@ == key@,
        r matches Err(i) ==> {
            &&& i <= keys@.len()
            &&& forall|j: int| 0 <= j < i ==> text::lex_lt(#[trigger] strs_view(keys@)[j], key@)
            &&& forall|j: int|
                i <= j < keys@.len() ==> text::lex_lt(key@, #[trigger] strs_view(keys@)[j])
        },
{
    let ghost s = strs_view(keys@);
    let mut lo: usize = 0;
    let mut hi: usize = keys.len();
    while lo < hi
        invariant
            0 <= lo <= hi <= keys@.len(),
            s == strs_view(keys@),
            ascending(s),
            forall|j: int| 0 <= j < lo ==> text::lex_lt(#[trigger] s[j], key@),
            forall|j: int| hi <= j < keys@.len() ==> text::lex_lt(key@, #[trigger] s[j]),
        decreases hi - lo,
    {
        let mid: usize = lo + (hi - lo) / 2;
        assert(s[mid as int] == keys@[mid as int]@);
        match text::rank(keys[mid].as_str(), key) {
            Rank::Same => {
                return Ok(mid);
            },
            Rank::Before => {
                proof {
                    assert forall|j: int| 0 <= j < mid + 1 implies text::lex_lt(
                        #[trigger] s[j],
                        key@,
                    ) by {
                        if j < mid {
                            text::lemma_lex_transitive(s[j], s[mid as int], key@);
                        }
                    }
                }
                lo = mid + 1;
            },
            Rank::After => {
                proof {
                    assert forall|j: int| mid <= j < keys@.len() implies text::lex_lt(
                        key@,
                        #[trigger] s[j],
                    ) by {
                        if j > mid {
                            text::lemma_lex_transitive(key@, s[mid as int], s[j]);
                        }
                    }
                }
                hi = mid;
            },
        }
    }
    Err(lo)
}

proof fn lemma_not_found(s: Seq<Seq<char>>, k: int, x: Seq<char>)
    requires
        0 <= k <= s.len(),
        forall|i: int| 0 <= i < k ==> text::lex_lt(#[trigger] s[i], x),
        forall|i: int| k <= i < s.len() ==> text::lex_lt(x, #[trigger] s[i]),
    ensures
        !s.contains(x),
{
    if s.contains(x) {
        let i = choose|i: int| 0 <= i < s.len() && s[i] == x;
        text::lemma_lex_irreflexive(x);
        assert(text::lex_lt(s[i], x) || text::lex_lt(x, s[i]));
    }
}

/// A set of strings.
#[derive(Debug)]
pub struct StrSet {
    items: Vec<String>,
}

impl View for StrSet {
    type V = Set<Seq<char>>;

    closed spec fn view(&self) -> Set<Seq<char>> {
        strs_view(self.items@).to_set()
    }
}

impl StrSet {
    /// The items ascend.
    pub closed spec fn wf(self) -> bool {
        ascending(strs_view(self.items@))
    }

    /// The empty set.
    pub fn new() -> (r: Self)
        ensures
            r.wf(),
            r@ == Set::<Seq<char>>::empty(),
    {
        let r = StrSet { items: Vec::new() };
        assert(strs_view(r.items@).to_set() =~= Set::<Seq<char>>::empty());
        r
    }

    /// Whether the set holds a string.
    pub fn contains(&self, key: &str) -> (r: bool)
        requires
            self.wf(),
        ensures
            r == self@.contains(key@),
    {
        match search(&self.items, key) {
            Ok(i) => {
                assert(strs_view(self.items@)[i as int] == key@);
                true
            },
            Err(i) => {
                proof {
                    lemma_not_found(strs_view(self.items@), i as int, key@);
                }
                false
            },
        }
    }

    /// Adds a string.
    pub fn insert(&mut self, key: String)
        requires
            old(self).wf(),
        ensures
            final(self).wf(),
            final(self)@ == old(self)@.insert(key@),
    {
        let ghost before = strs_view(self.items@);
        let ghost k = key@;
        match search(&self.items, key.as_str()) {
            Ok(i) => {
                assert(before[i as int] == k);
                assert(before.to_set().insert(k) =~= before.to_set());
            },
            Err(i) => {
                self.items.insert(i, key);
                proof {
                    let after = strs_view(self.items@);
                    assert(after =~= before.insert(i as int, k));
                    lemma_insert_ascending(before, i as int, k);
                    before.insert_ensures(i as int, k);
                    assert forall|x: Seq<char>| after.to_set().contains(x)
                        <==> before.to_set().insert(k).contains(x) by {
                        if before.contains(x) {
                            let j = choose|j: int| 0 <= j < before.len() && before[j] == x;
                            if j < i {
                                assert(after[j] == x);
                            } else {
                                assert(after[j + 1] == x);
                            }
                        }
                        if x == k {
                            assert(after[i as int] == x);
                        }
                        if after.contains(x) {
                            let j = choose|j: int| 0 <= j < after.len() && after[j] == x;
                            if j < i {
                                assert(before[j] == x);
                            } else if j > i {
                                assert(before[j - 1] == x);
                            }
                        }
                    }
                    assert(after.to_set() =~= before.to_set().insert(k));
                }
            },
        }
    }

    /// The strings, ascending.
    pub fn items(&self) -> (r: &Vec<String>)
        requires
            self.wf(),
        ensures
            ascending(strs_view(r@)),
            strs_view(r@).to_set() == self@,
    {
        &self.items
    }

    /// The strings, ascending.
    pub fn into_items(self) -> (r: Vec<String>)
        requires
            self.wf(),
        ensures
            ascending(strs_view(r@)),
            strs_view(r@).to_set() == self@,
    {
        self.items
    }
}

/// A map from strings.
#[derive(Debug)]
pub struct StrMap<V> {
    keys: Vec<String>,
    vals: Vec<V>,
}

/// The map with these keys and values.
pub open spec fn map_of<V: View>(keys: Seq<String>, vals: Seq<V>) -> Map<Seq<char>, V::V> {
    Map::new(
        |k: Seq<char>| strs_view(keys).contains(k),
        |k: Seq<char>| vals[strs_view(keys).index_of(k)]@,
    )
}

impl<V: View> View for StrMap<V> {
    type V = Map<Seq<char>, V::V>;

    closed spec fn view(&self) -> Map<Seq<char>, V::V> {
        map_of(self.keys@, self.vals@)
    }
}

proof fn lemma_map_at<V: View>(keys: Seq<String>, vals: Seq<V>, i: int)
    requires
        ascending(strs_view(keys)),
        keys.len() == vals.len(),
        0 <= i < keys.len(),
    ensures
        map_of(keys, vals).contains_key(keys[i]@),
        map_of(keys, vals)[keys[i]@] == vals[i]@,
{
    lemma_ascending_distinct(strs_view(keys));
    let s = strs_view(keys);
    assert(s[i] == keys[i]@);
    assert(s.contains(keys[i]@));
    let j = s.index_of(keys[i]@);
    assert(s[j] == s[i]);
    assert(i == j);
}

impl<V: View> StrMap<V> {
    /// The keys ascend, and each has a value.
    pub closed spec fn wf(self) -> bool {
        ascending(strs_view(self.keys@)) && self.keys@.len() == self.vals@.len()
    }

    /// The keys in ascending order.
    pub closed spec fn key_seq(self) -> Seq<Seq<char>> {
        strs_view(self.keys@)
    }

    /// The keys ascend and are those of the map.
    pub proof fn lemma_keys(self)
        requires
            self.wf(),
        ensures
            ascending(self.key_seq()),
            self.key_seq().no_duplicates(),
            forall|k: Seq<char>| #[trigger] self@.contains_key(k) <==> self.key_seq().contains(k),
            self.key_seq().to_set() == self@.dom(),
    {
        lemma_ascending_distinct(self.key_seq());
        assert(self.key_seq().to_set() =~= self@.dom());
    }

    /// The empty map.
    pub fn new() -> (r: Self)
        ensures
            r.wf(),
            r@ == Map::<Seq<char>, V::V>::empty(),
    {
        let r = StrMap { keys: Vec::new(), vals: Vec::new() };
        assert(r@ =~= Map::<Seq<char>, V::V>::empty());
        r
    }

    /// A copy, by a function that copies values.
    pub fn copied<F: Fn(&V) -> V>(&self, copy: &F) -> (r: Self)
        requires
            forall|v: &V| #[trigger] copy.requires((v,)),
            forall|v: &V, w: V| #[trigger] copy.ensures((v,), w) ==> w@ == v@,
        ensures
            self.wf() ==> r.wf() && r@ == self@,
    {
        let mut keys: Vec<String> = Vec::new();
        let mut i: usize = 0;
        while i < self.keys.len()
            invariant
                0 <= i <= self.keys@.len(),
                keys@.len() == i,
                forall|j: int| 0 <= j < i ==> (#[trigger] keys@[j])@ == self.keys@[j]@,
            decreases self.keys@.len() - i,
        {
            keys.push(self.keys[i].clone());
            i = i + 1;
        }
        let mut vals: Vec<V> = Vec::new();
        let mut i: usize = 0;
        while i < self.vals.len()
            invariant
                0 <= i <= self.vals@.len(),
                vals@.len() == i,
                forall|v: &V| #[trigger] copy.requires((v,)),
                forall|v: &V, w: V| #[trigger] copy.ensures((v,), w) ==> w@ == v@,
                forall|j: int| 0 <= j < i ==> (#[trigger] vals@[j])@ == self.vals@[j]@,
            decreases self.vals@.len() - i,
        {
            vals.push(copy(&self.vals[i]));
            i = i + 1;
        }
        assert(strs_view(keys@) =~= strs_view(self.keys@));
        let r = StrMap { keys, vals };
        assert(self.wf() ==> r@ =~= self@);
        r
    }

    /// How many keys there are.
    pub fn len(&self) -> (r: usize)
        requires
            self.wf(),
        ensures
            r == self.key_seq().len(),
    {
        self.keys.len()
    }

    /// The `i`-th key, ascending.
    pub fn key_at(&self, i: usize) -> (r: &String)
        requires
            self.wf(),
            i < self.key_seq().len(),
        ensures
            r@ == self.key_seq()[i as int],
            self@.contains_key(r@),
    {
        proof {
            lemma_map_at(self.keys@, self.vals@, i as int);
        }
        &self.keys[i]
    }

    /// The value of the `i`-th key.
    pub fn value_at(&self, i: usize) -> (r: &V)
        requires
            self.wf(),
            i < self.key_seq().len(),
        ensures
            r@ == self@[self.key_seq()[i as int]],
    {
        proof {
            lemma_map_at(self.keys@, self.vals@, i as int);
        }
        &self.vals[i]
    }

    /// The value of a key.
    pub fn get(&self, key: &str) -> (r: Option<&V>)
        requires
            self.wf(),
        ensures
            r is Some <==> self@.contains_key(key@),
            r matches Some(v) ==> v@ == self@[key@],
    {
        match search(&self.keys, key) {
            Ok(i) => {
                proof {
                    lemma_map_at(self.keys@, self.vals@, i as int);
                }
                Some(&self.vals[i])
            },
            Err(i) => {
                proof {
                    lemma_not_found(strs_view(self.keys@), i as int, key@);
                }
                None
            },
        }
    }

    /// Sets the value of a key.
    pub fn insert(&mut self, key: String, value: V)
        requires
            old(self).wf(),
        ensures
            final(self).wf(),
            final(self)@ == old(self)@.insert(key@, value@),
    {
        let ghost keys0 = self.keys@;
        let ghost vals0 = self.vals@;
        let ghost before = strs_view(self.keys@);
        let ghost k = key@;
        match search(&self.keys, key.as_str()) {
            Ok(i) => {
                self.vals.set(i, value);
                proof {
                    let want = map_of(keys0, vals0).insert(k, value@);
                    assert(before[i as int] == k);
                    lemma_ascending_distinct(before);
                    assert forall|x: Seq<char>| #[trigger] want.contains_key(
                        x,
                    ) implies self@.contains_key(x) && self@[x] == want[x] by {
                        assert(before.contains(x));
                        let j = before.index_of(x);
                        assert(before[j] == x);
                        if x == k {
                            assert(j == i);
                        }
                    }
                    assert(self@ =~= want);
                }
            },
            Err(i) => {
                self.keys.insert(i, key);
                self.vals.insert(i, value);
                proof {
                    let after = strs_view(self.keys@);
                    let want = map_of(keys0, vals0).insert(k, value@);
                    assert(after =~= before.insert(i as int, k));
                    lemma_insert_ascending(before, i as int, k);
                    lemma_not_found(before, i as int, k);
                    assert forall|x: Seq<char>| #[trigger] want.contains_key(
                        x,
                    ) implies self@.contains_key(x) && self@[x] == want[x] by {
                        if x == k {
                            lemma_map_at(self.keys@, self.vals@, i as int);
                        } else {
                            let j = before.index_of(x);
                            assert(before[j] == x);
                            lemma_map_at(keys0, vals0, j);
                            if j < i {
                                lemma_map_at(self.keys@, self.vals@, j);
                            } else {
                                lemma_map_at(self.keys@, self.vals@, j + 1);
                            }
                        }
                    }
                    assert forall|x: Seq<char>| #[trigger] self@.contains_key(
                        x,
                    ) implies want.contains_key(x) by {
                        let j = after.index_of(x);
                        assert(after[j] == x);
                        if j < i {
                            assert(before[j] == x);
                        } else if j > i {
                            assert(before[j - 1] == x);
                        }
                    }
                    assert(self@ =~= want);
                }
            },
        }
    }

    /// Removes a key, and tells whether it was there.
    pub fn remove(&mut self, key: &str) -> (r: Option<V>)
        requires
            old(self).wf(),
        ensures
            final(self).wf(),
            final(self)@ == old(self)@.remove(key@),
            r is Some <==> old(self)@.contains_key(key@),
            r matches Some(v) ==> v@ == old(self)@[key@],
    {
        match search(&self.keys, key) {
            Ok(i) => {
                proof {
                    lemma_map_at(self.keys@, self.vals@, i as int);
                }
                Some(self.remove_at(i))
            },
            Err(i) => {
                proof {
                    lemma_not_found(strs_view(self.keys@), i as int, key@);
                    assert(self@.remove(key@) =~= self@);
                }
                None
            },
        }
    }

    /// Removes the `i`-th key.
    fn remove_at(&mut self, i: usize) -> (r: V)
        requires
            old(self).wf(),
            i < old(self).key_seq().len(),
        ensures
            final(self).wf(),
            final(self).key_seq() == old(self).key_seq().remove(i as int),
            final(self)@ == old(self)@.remove(old(self).key_seq()[i as int]),
            r@ == old(self)@[old(self).key_seq()[i as int]],
    {
        let ghost keys0 = self.keys@;
        let ghost vals0 = self.vals@;
        let ghost before = strs_view(self.keys@);
        let ghost k = before[i as int];
        self.keys.remove(i);
        let r = self.vals.remove(i);
        proof {
            lemma_map_at(keys0, vals0, i as int);
            lemma_ascending_distinct(before);
            let after = strs_view(self.keys@);
            let want = map_of(keys0, vals0).remove(k);
            assert(after =~= before.remove(i as int));
            assert forall|a: int, b: int| 0 <= a < b < after.len() implies text::lex_lt(
                #[trigger] after[a],
                #[trigger] after[b],
            ) by {
                let a0 = if a < i {
                    a
                } else {
                    a + 1
                };
                let b0 = if b < i {
                    b
                } else {
                    b + 1
                };
                assert(after[a] == before[a0] && after[b] == before[b0]);
            }
            assert forall|x: Seq<char>| #[trigger] want.contains_key(x) implies self@.contains_key(x)
                && self@[x] == want[x] by {
                let j = before.index_of(x);
                assert(before[j] == x);
                lemma_map_at(keys0, vals0, j);
                if j < i {
                    lemma_map_at(self.keys@, self.vals@, j);
                } else {
                    lemma_map_at(self.keys@, self.vals@, j - 1);
                }
            }
            assert forall|x: Seq<char>| #[trigger] self@.contains_key(x) implies want.contains_key(
                x,
            ) by {
                let j = after.index_of(x);
                assert(after[j] == x);
                let j0 = if j < i {
                    j
                } else {
                    j + 1
                };
                assert(before[j0] == x);
            }
            assert(self@ =~= want);
        }
        r
    }

    /// Keeps only the keys that the set holds.
    pub fn retain_in(&mut self, keep: &StrSet)
        requires
            old(self).wf(),
            keep.wf(),
        ensures
            final(self).wf(),
            final(self)@ == old(self)@.restrict(keep@),
    {
        let ghost start = self@;
        let mut i: usize = 0;
        while i < self.len()
            invariant
                self.wf(),
                keep.wf(),
                0 <= i <= self.key_seq().len(),
                forall|k: Seq<char>| #[trigger]
                    self@.contains_key(k) ==> start.contains_key(k) && start[k] == self@[k],
                forall|k: Seq<char>| #[trigger]
                    start.contains_key(k) && keep@.contains(k) ==> self@.contains_key(k),
                forall|j: int| 0 <= j < i ==> keep@.contains(#[trigger] self.key_seq()[j]),
            decreases self.key_seq().len() - i,
        {
            let ghost seq0 = self.key_seq();
            let ghost map0 = self@;
            if keep.contains(self.key_at(i).as_str()) {
                i = i + 1;
            } else {
                let _ = self.remove_at(i);
                proof {
                    assert forall|j: int| 0 <= j < i implies keep@.contains(
                        #[trigger] self.key_seq()[j],
                    ) by {
                        assert(self.key_seq()[j] == seq0[j]);
                    }
                    assert forall|k: Seq<char>| #[trigger]
                        self@.contains_key(k) implies start.contains_key(k) && start[k]
                        == self@[k] by {
                        assert(map0.contains_key(k));
                    }
                }
            }
        }
        proof {
            self.lemma_keys();
            let want = start.restrict(keep@);
            assert forall|k: Seq<char>| #[trigger] self@.contains_key(k) implies want.contains_key(
                k,
            ) && want[k] == self@[k] by {
                let j = self.key_seq().index_of(k);
                assert(self.key_seq()[j] == k);
                assert(keep@.contains(self.key_seq()[j]));
                assert(start.contains_key(k));
            }
            assert(self@ =~= want);
        }
    }
}

/// Strings ascend if each comes before all that follow it.
pub proof fn law_ascending(s: Seq<Seq<char>>)
    ensures
        ascending(s) <==> forall|i: int, j: int|
            0 <= i < j < s.len() ==> text::lex_lt(#[trigger] s[i], #[trigger] s[j]),
{
}

/// A list of strings stands for the strings in it, in order.
pub proof fn law_strings_are_seen_in_order(v: Seq<String>, i: int)
    requires
        0 <= i < v.len(),
    ensures
        strs_view(v).len() == v.len(),
        strs_view(v)[i] == v[i]@,
{
}

} // verus!
