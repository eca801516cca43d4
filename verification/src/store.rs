use vstd::prelude::*;

verus! {

/// A key by which stored items are found again; executable code decides
/// whether two keys are the same.
pub trait StoreKey: Copy + Sized {
    fn same_key(&self, other: &Self) -> (r: bool)
        ensures
            r == (*self == *other),
    ;
}

impl StoreKey for u64 {
    fn same_key(&self, other: &Self) -> (r: bool) {
        *self == *other
    }
}

/// A set that remembers the order of its items: a new item goes last, and
/// removing an item moves the last item into its place. Positions are
/// counted from 1.
#[derive(Clone)]
pub struct UnorderedSet<T: StoreKey> {
    items: Vec<T>,
}

impl<T: StoreKey> View for UnorderedSet<T> {
    type V = Seq<T>;

    closed spec fn view(&self) -> Seq<T> {
        self.items@
    }
}

/// The sequence after the item at `i` is replaced by the last one and the
/// last place is dropped.
pub open spec fn seq_swap_remove<T>(s: Seq<T>, i: int) -> Seq<T> {
    s.update(i, s.last()).drop_last()
}

/// The sequence with the items at `i` and `j` exchanged.
pub open spec fn seq_swap<T>(s: Seq<T>, i: int, j: int) -> Seq<T> {
    s.update(i, s[j]).update(j, s[i])
}

impl<T: StoreKey> UnorderedSet<T> {
    pub fn new() -> (r: Self)
        ensures
            r@ == Seq::<T>::empty(),
            r@.no_duplicates(),
    {
        UnorderedSet { items: Vec::new() }
    }

    pub fn len(&self) -> (r: usize)
        ensures
            r == self@.len(),
    {
        self.items.len()
    }

    /// The position of `x`, counted from 1, or 0 where `x` is absent.
    pub fn get_index(&self, x: &T) -> (r: usize)
        ensures
            r == 0 <==> !self@.contains(*x),
            r != 0 ==> r <= self@.len() && self@[r - 1] == *x,
    {
        let mut i: usize = 0;
        while i < self.items.len()
            invariant
                i <= self.items@.len(),
                forall|j: int| 0 <= j < i ==> self.items@[j] != *x,
            decreases self.items@.len() - i,
        {
            if self.items[i].same_key(x) {
                return i + 1;
            }
            i = i + 1;
        }
        0
    }

    pub fn contains(&self, x: &T) -> (r: bool)
        ensures
            r == self@.contains(*x),
    {
        self.get_index(x) != 0
    }

    /// The item at position `index`, counted from 1.
    pub fn get_by_index(&self, index: usize) -> (r: T)
        requires
            1 <= index <= self@.len(),
        ensures
            r == self@[index - 1],
    {
        self.items[index - 1]
    }

    /// Adds `x` at the end where it is absent; tells whether it was added.
    pub fn insert(&mut self, x: T) -> (r: bool)
        requires
            old(self)@.no_duplicates(),
        ensures
            final(self)@.no_duplicates(),
            r == !old(self)@.contains(x),
            final(self)@ == if r { old(self)@.push(x) } else { old(self)@ },
    {
        if self.contains(&x) {
            false
        } else {
            proof {
                lemma_push_no_duplicates(self.items@, x);
            }
            self.items.push(x);
            true
        }
    }

    /// Removes `x` where it is present, moving the last item into its place;
    /// tells whether it was removed.
    pub fn swap_remove(&mut self, x: &T) -> (r: bool)
        requires
            old(self)@.no_duplicates(),
        ensures
            final(self)@.no_duplicates(),
            r == old(self)@.contains(*x),
            r ==> final(self)@ == seq_swap_remove(old(self)@, old(self)@.index_of(*x)),
            !r ==> final(self)@ == old(self)@,
            final(self)@.to_set() == old(self)@.to_set().remove(*x),
    {
        let index = self.get_index(x);
        if index == 0 {
            false
        } else {
            proof {
                lemma_index_of_unique(self.items@, (index - 1) as int);
                lemma_swap_remove_no_duplicates(self.items@, (index - 1) as int);
            }
            self.items.swap_remove(index - 1);
            true
        }
    }

    /// Exchanges the items at positions `i` and `j`, counted from 1.
    pub fn swap_indexes(&mut self, i: usize, j: usize)
        requires
            old(self)@.no_duplicates(),
            1 <= i <= old(self)@.len(),
            1 <= j <= old(self)@.len(),
        ensures
            final(self)@.no_duplicates(),
            final(self)@ == seq_swap(old(self)@, i - 1, j - 1),
            final(self)@.to_set() == old(self)@.to_set(),
    {
        proof {
            lemma_swap_no_duplicates(self.items@, i - 1, j - 1);
        }
        let a = self.items[i - 1];
        let b = self.items[j - 1];
        self.items.set(i - 1, b);
        self.items.set(j - 1, a);
    }

    /// The items in their order.
    pub fn items(&self) -> (r: &Vec<T>)
        ensures
            r@ == self@,
    {
        &self.items
    }
}

pub proof fn lemma_push_no_duplicates<T>(s: Seq<T>, x: T)
    requires
        s.no_duplicates(),
        !s.contains(x),
    ensures
        s.push(x).no_duplicates(),
{
    assert forall|i: int, j: int| 0 <= i < s.push(x).len() && 0 <= j < s.push(x).len() && i != j
        implies s.push(x)[i] != s.push(x)[j] by {
        if i == s.len() as int {
            assert(s.push(x)[j] == s[j]);
        } else if j == s.len() as int {
            assert(s.push(x)[i] == s[i]);
        }
    }
}

pub proof fn lemma_index_of_unique<T>(s: Seq<T>, i: int)
    requires
        s.no_duplicates(),
        0 <= i < s.len(),
    ensures
        s.index_of(s[i]) == i,
{
}

pub proof fn lemma_swap_remove_no_duplicates<T>(s: Seq<T>, i: int)
    requires
        s.no_duplicates(),
        0 <= i < s.len(),
    ensures
        seq_swap_remove(s, i).no_duplicates(),
        seq_swap_remove(s, i).to_set() == s.to_set().remove(s[i]),
{
    let r = seq_swap_remove(s, i);
    let n = s.len() - 1;
    assert forall|a: int, b: int| 0 <= a < r.len() && 0 <= b < r.len() && a != b
        implies r[a] != r[b] by {
    }
    assert forall|y: T| r.to_set().contains(y) <==> s.to_set().remove(s[i]).contains(y) by {
        if r.contains(y) {
            let a = choose|a: int| 0 <= a < r.len() && r[a] == y;
        }
        if s.contains(y) && y != s[i] {
            let a = choose|a: int| 0 <= a < s.len() && s[a] == y;
            if a == n {
                assert(r[i] == y);
            } else {
                assert(r[a] == y);
            }
        }
    }
}

pub proof fn lemma_swap_no_duplicates<T>(s: Seq<T>, i: int, j: int)
    requires
        s.no_duplicates(),
        0 <= i < s.len(),
        0 <= j < s.len(),
    ensures
        seq_swap(s, i, j).no_duplicates(),
        seq_swap(s, i, j).to_set() == s.to_set(),
{
    let r = seq_swap(s, i, j);
    assert forall|a: int, b: int| 0 <= a < r.len() && 0 <= b < r.len() && a != b
        implies r[a] != r[b] by {
    }
    lemma_swap_same_items(s, i, j);
}

/// Exchanging two items keeps the length and the items.
pub proof fn lemma_swap_same_items<T>(s: Seq<T>, i: int, j: int)
    requires
        0 <= i < s.len(),
        0 <= j < s.len(),
    ensures
        seq_swap(s, i, j).len() == s.len(),
        seq_swap(s, i, j).to_set() == s.to_set(),
{
    let r = seq_swap(s, i, j);
    let p = |a: int| if a == i { j } else if a == j { i } else { a };
    assert forall|a: int| 0 <= a < r.len() implies r[a] == s[p(a)] by {}
    assert forall|y: T| r.to_set().contains(y) <==> s.to_set().contains(y) by {
        if r.contains(y) {
            let a = choose|a: int| 0 <= a < r.len() && r[a] == y;
        }
        if s.contains(y) {
            let a = choose|a: int| 0 <= a < s.len() && s[a] == y;
            assert(r[p(a)] == y);
        }
    }
}

/// A map from keys to values, each key stored at most once.
#[derive(Clone)]
pub struct Store<K: StoreKey, V> {
    entries: Vec<(K, V)>,
}

/// The map that a list of distinct keys with their values stands for.
pub open spec fn map_of<K, V>(s: Seq<(K, V)>) -> Map<K, V> {
    Map::new(
        |k: K| exists|i: int| 0 <= i < s.len() && s[i].0 == k,
        |k: K| s[choose|i: int| 0 <= i < s.len() && s[i].0 == k].1,
    )
}

pub open spec fn keys_distinct<K, V>(s: Seq<(K, V)>) -> bool {
    forall|i: int, j: int| 0 <= i < s.len() && 0 <= j < s.len() && i != j ==> s[i].0 != s[j].0
}

impl<K: StoreKey, V> View for Store<K, V> {
    type V = Map<K, V>;

    closed spec fn view(&self) -> Map<K, V> {
        map_of(self.entries@)
    }
}

proof fn lemma_map_of_at<K, V>(s: Seq<(K, V)>, i: int)
    requires
        keys_distinct(s),
        0 <= i < s.len(),
    ensures
        map_of(s).dom().contains(s[i].0),
        map_of(s)[s[i].0] == s[i].1,
{
    let k = s[i].0;
}

impl<K: StoreKey, V> Store<K, V> {
    /// Each key is stored once.
    pub closed spec fn wf(&self) -> bool {
        keys_distinct(self.entries@)
    }

    pub fn new() -> (r: Self)
        ensures
            r@ == Map::<K, V>::empty(),
            r.wf(),
    {
        let r = Store { entries: Vec::new() };
        r
    }

    fn find(&self, k: &K) -> (r: Option<usize>)
        requires
            self.wf(),
        ensures
            match r {
                Some(i) => i < self.entries@.len() && self.entries@[i as int].0 == *k,
                None => forall|j: int| 0 <= j < self.entries@.len() ==> self.entries@[j].0 != *k,
            },
    {
        let mut i: usize = 0;
        while i < self.entries.len()
            invariant
                i <= self.entries@.len(),
                forall|j: int| 0 <= j < i ==> self.entries@[j].0 != *k,
            decreases self.entries@.len() - i,
        {
            if self.entries[i].0.same_key(k) {
                return Some(i);
            }
            i = i + 1;
        }
        None
    }

    pub fn contains_key(&self, k: &K) -> (r: bool)
        requires
            self.wf(),
        ensures
            r == self@.dom().contains(*k),
    {
        match self.find(k) {
            Some(i) => {
                proof {
                                        lemma_map_of_at(self.entries@, i as int);
                }
                true
            },
            None => false,
        }
    }

    pub fn get_ref(&self, k: &K) -> (r: Option<&V>)
        requires
            self.wf(),
        ensures
            match r {
                Some(v) => self@.dom().contains(*k) && *v == self@[*k],
                None => !self@.dom().contains(*k),
            },
    {
        match self.find(k) {
            Some(i) => {
                proof {
                                        lemma_map_of_at(self.entries@, i as int);
                }
                Some(&self.entries[i].1)
            },
            None => None,
        }
    }

    /// Sets the value of `k`, adding the key where it is absent.
    pub fn insert(&mut self, k: K, v: V)
        requires
            old(self).wf(),
        ensures
            final(self).wf(),
            final(self)@ == old(self)@.insert(k, v),
    {
        let ghost s0 = self.entries@;
        match self.find(&k) {
            Some(i) => {
                self.entries.set(i, (k, v));
                proof {
                    let s1 = s0.update(i as int, (k, v));
                    assert forall|key: K| #[trigger] map_of(s1).dom().contains(key)
                        <==> map_of(s0).insert(k, v).dom().contains(key) by {
                        if key != k && map_of(s0).dom().contains(key) {
                            let j = choose|j: int| 0 <= j < s0.len() && s0[j].0 == key;
                            assert(s1[j].0 == key);
                        }
                        if map_of(s1).dom().contains(key) && key != k {
                            let j = choose|j: int| 0 <= j < s1.len() && s1[j].0 == key;
                        }
                        if key == k {
                            lemma_map_of_at(s1, i as int);
                        }
                    }
                    assert forall|key: K| #[trigger] map_of(s1).dom().contains(key)
                        implies map_of(s1)[key] == map_of(s0).insert(k, v)[key] by {
                        let j = choose|j: int| 0 <= j < s1.len() && s1[j].0 == key;
                        lemma_map_of_at(s1, j);
                        if key != k {
                            lemma_map_of_at(s0, j);
                        }
                    }
                }
            },
            None => {
                self.entries.push((k, v));
                proof {
                    let s1 = s0.push((k, v));
                    assert forall|key: K| #[trigger] map_of(s1).dom().contains(key)
                        <==> map_of(s0).insert(k, v).dom().contains(key) by {
                        if key != k && map_of(s0).dom().contains(key) {
                            let j = choose|j: int| 0 <= j < s0.len() && s0[j].0 == key;
                            assert(s1[j].0 == key);
                        }
                        if map_of(s1).dom().contains(key) && key != k {
                            let j = choose|j: int| 0 <= j < s1.len() && s1[j].0 == key;
                        }
                        if key == k {
                            lemma_map_of_at(s1, s0.len() as int);
                        }
                    }
                    assert forall|key: K| #[trigger] map_of(s1).dom().contains(key)
                        implies map_of(s1)[key] == map_of(s0).insert(k, v)[key] by {
                        let j = choose|j: int| 0 <= j < s1.len() && s1[j].0 == key;
                        lemma_map_of_at(s1, j);
                        if key != k {
                            lemma_map_of_at(s0, j);
                        }
                    }
                }
            },
        }
    }

    /// Takes the value of `k` out, where there is one.
    pub fn remove(&mut self, k: &K) -> (r: Option<V>)
        requires
            old(self).wf(),
        ensures
            final(self).wf(),
            r == (if old(self)@.dom().contains(*k) { Some(old(self)@[*k]) } else { None }),
            final(self)@ == old(self)@.remove(*k),
    {
        let ghost s0 = self.entries@;
        match self.find(k) {
            Some(i) => {
                proof {
                    lemma_map_of_at(s0, i as int);
                }
                let (_, v) = self.entries.swap_remove(i);
                proof {
                    let s1 = seq_swap_remove(s0, i as int);
                    let n = s0.len() - 1;
                    let p = |a: int| if a == i { n } else { a };
                    assert forall|a: int| 0 <= a < s1.len() implies s1[a] == s0[p(a)] by {}
                    assert forall|key: K| #[trigger] map_of(s1).dom().contains(key)
                        <==> map_of(s0).remove(*k).dom().contains(key) by {
                        if key != *k && map_of(s0).dom().contains(key) {
                            let j = choose|j: int| 0 <= j < s0.len() && s0[j].0 == key;
                            if j == n {
                                assert(s1[i as int].0 == key);
                            } else {
                                assert(s1[j].0 == key);
                            }
                        }
                        if map_of(s1).dom().contains(key) {
                            let j = choose|j: int| 0 <= j < s1.len() && s1[j].0 == key;
                        }
                    }
                    assert forall|key: K| #[trigger] map_of(s1).dom().contains(key)
                        implies map_of(s1)[key] == map_of(s0).remove(*k)[key] by {
                        let j = choose|j: int| 0 <= j < s1.len() && s1[j].0 == key;
                        lemma_map_of_at(s1, j);
                        lemma_map_of_at(s0, p(j));
                    }
                }
                Some(v)
            },
            None => {
                None
            },
        }
    }
}

impl<K: StoreKey, V: Copy> Store<K, V> {
    pub fn get(&self, k: &K) -> (r: Option<V>)
        requires
            self.wf(),
        ensures
            r == (if self@.dom().contains(*k) { Some(self@[*k]) } else { None }),
    {
        match self.get_ref(k) {
            Some(v) => Some(*v),
            None => None,
        }
    }

    /// The value of `k`, or `default` where the key is absent.
    pub fn get_or(&self, k: &K, default: V) -> (r: V)
        requires
            self.wf(),
        ensures
            r == (if self@.dom().contains(*k) { self@[*k] } else { default }),
    {
        match self.get_ref(k) {
            Some(v) => *v,
            None => default,
        }
    }
}

} // verus!
