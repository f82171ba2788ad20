//! A map keyed by transaction id, held in the order of its keys.
use vstd::prelude::*;

verus! {

/// A map from transaction ids to values.
pub struct XidMap<V> {
    rows: Vec<(u64, V)>,
}

/// The keys stand in strictly ascending order.
pub open spec fn is_ascending<V>(rows: Seq<(u64, V)>) -> bool {
    forall|i: int, j: int|
        0 <= i < j < rows.len() ==> (#[trigger] rows[i]).0 < (#[trigger] rows[j]).0
}

/// Row `i` holds `key`.
pub open spec fn holds<V>(rows: Seq<(u64, V)>, key: u64, i: int) -> bool {
    0 <= i < rows.len() && rows[i].0 == key
}

/// The map that `rows` stand for.
pub open spec fn map_of<V>(rows: Seq<(u64, V)>) -> Map<u64, V> {
    Map::new(
        |key: u64| exists|i: int| holds(rows, key, i),
        |key: u64| rows[choose|i: int| holds(rows, key, i)].1,
    )
}

proof fn lemma_row<V>(rows: Seq<(u64, V)>, i: int)
    requires
        is_ascending(rows),
        0 <= i < rows.len(),
    ensures
        map_of(rows).contains_key(rows[i].0),
        map_of(rows)[rows[i].0] == rows[i].1,
{
    let key = rows[i].0;
    assert(holds(rows, key, i));
    let k = choose|k: int| holds(rows, key, k);
    if k < i {
        assert(rows[k].0 < rows[i].0);
    } else if k > i {
        assert(rows[i].0 < rows[k].0);
    }
}

impl<V> View for XidMap<V> {
    type V = Map<u64, V>;

    closed spec fn view(&self) -> Map<u64, V> {
        map_of(self.rows@)
    }
}

impl<V> XidMap<V> {
    #[verifier::type_invariant]
    spec fn ordered(self) -> bool {
        is_ascending(self.rows@)
    }

    /// A map without keys.
    pub fn new() -> (r: XidMap<V>)
        ensures
            r@ == Map::<u64, V>::empty(),
    {
        let r = XidMap { rows: Vec::new() };
        proof {
            assert forall|key: u64| !r@.contains_key(key) by {
                assert forall|i: int| !holds(r.rows@, key, i) by {}
            }
            assert(r@ =~= Map::empty());
        }
        r
    }

    /// How many keys are smaller than `key`.
    fn position(&self, key: u64) -> (r: usize)
        ensures
            r <= self.rows@.len(),
            forall|i: int| 0 <= i < r ==> (#[trigger] self.rows@[i]).0 < key,
            forall|i: int| r <= i < self.rows@.len() ==> (#[trigger] self.rows@[i]).0 >= key,
    {
        proof {
            use_type_invariant(self);
        }
        let mut low: usize = 0;
        let mut high: usize = self.rows.len();
        while low < high
            invariant
                is_ascending(self.rows@),
                low <= high <= self.rows@.len(),
                forall|i: int| 0 <= i < low ==> (#[trigger] self.rows@[i]).0 < key,
                forall|i: int| high <= i < self.rows@.len() ==> (#[trigger] self.rows@[i]).0 >= key,
            decreases high - low,
        {
            let mid: usize = low + (high - low) / 2;
            if self.rows[mid].0 < key {
                low = mid + 1;
            } else {
                high = mid;
            }
        }
        low
    }

    /// Where `key` stands, if it is there.
    fn find(&self, key: u64) -> (r: Option<usize>)
        ensures
            match r {
                Some(i) => holds(self.rows@, key, i as int) && self@.contains_key(key) && self@[key]
                    == self.rows@[i as int].1,
                None => !self@.contains_key(key),
            },
    {
        let i: usize = self.position(key);
        proof {
            use_type_invariant(self);
        }
        if i < self.rows.len() && self.rows[i].0 == key {
            proof {
                lemma_row(self.rows@, i as int);
            }
            Some(i)
        } else {
            proof {
                assert forall|k: int| !holds(self.rows@, key, k) by {
                    if 0 <= k < self.rows@.len() && k > i {
                        assert(self.rows@[i as int].0 < self.rows@[k].0);
                    }
                }
            }
            None
        }
    }

    /// The value of `key`.
    pub fn get(&self, key: u64) -> (r: Option<&V>)
        ensures
            match r {
                Some(value) => self@.contains_key(key) && *value == self@[key],
                None => !self@.contains_key(key),
            },
    {
        match self.find(key) {
            Some(i) => Some(&self.rows[i].1),
            None => None,
        }
    }

    /// Sets the value of `key`; a value that it had before is replaced.
    pub fn insert(&mut self, key: u64, value: V)
        ensures
            final(self)@ == old(self)@.insert(key, value),
    {
        let i: usize = self.position(key);
        proof {
            use_type_invariant(&*self);
        }
        let ghost before = self.rows@;
        let mut rows: Vec<(u64, V)> = Vec::new();
        std::mem::swap(&mut rows, &mut self.rows);
        if i < rows.len() && rows[i].0 == key {
            rows.set(i, (key, value));
            proof {
                assert forall|k: u64|
                    map_of(rows@).contains_key(k) == before_insert(before, key, value).contains_key(
                        k,
                    ) by {
                    lemma_replaced(before, rows@, i as int, key, value, k);
                }
                assert forall|k: u64| map_of(rows@).contains_key(k) implies map_of(rows@)[k]
                    == before_insert(before, key, value)[k] by {
                    lemma_replaced(before, rows@, i as int, key, value, k);
                }
                assert(map_of(rows@) =~= before_insert(before, key, value));
            }
        } else {
            rows.insert(i, (key, value));
            proof {
                assert forall|k: u64|
                    map_of(rows@).contains_key(k) == before_insert(before, key, value).contains_key(
                        k,
                    ) by {
                    lemma_inserted(before, rows@, i as int, key, value, k);
                }
                assert forall|k: u64| map_of(rows@).contains_key(k) implies map_of(rows@)[k]
                    == before_insert(before, key, value)[k] by {
                    lemma_inserted(before, rows@, i as int, key, value, k);
                }
                assert(map_of(rows@) =~= before_insert(before, key, value));
            }
        }
        self.rows = rows;
    }

    /// Takes the largest key and its value out.
    pub fn pop_largest(&mut self) -> (r: Option<(u64, V)>)
        ensures
            match r {
                Some((key, value)) => {
                    &&& old(self)@.contains_key(key)
                    &&& value == old(self)@[key]
                    &&& forall|k: u64| #[trigger] old(self)@.contains_key(k) ==> k <= key
                    &&& final(self)@ == old(self)@.remove(key)
                },
                None => final(self)@ == old(self)@ && forall|k: u64| !old(self)@.contains_key(k),
            },
    {
        proof {
            use_type_invariant(&*self);
        }
        let ghost before = self.rows@;
        let mut rows: Vec<(u64, V)> = Vec::new();
        std::mem::swap(&mut rows, &mut self.rows);
        let r = rows.pop();
        proof {
            if before.len() > 0 {
                let n = before.len() - 1;
                let key = before[n].0;
                lemma_row(before, n);
                assert(rows@ =~= before.take(n));
                assert forall|k: u64| #[trigger] map_of(before).contains_key(k) implies k
                    <= key by {
                    let i = choose|i: int| holds(before, k, i);
                    if i < n {
                        assert(before[i].0 < before[n].0);
                    }
                }
                assert forall|k: u64|
                    map_of(rows@).contains_key(k) == map_of(before).remove(key).contains_key(k) by {
                    if map_of(rows@).contains_key(k) {
                        let i = choose|i: int| holds(rows@, k, i);
                        lemma_row(before, i);
                        assert(before[i].0 < before[n].0);
                    }
                    if map_of(before).contains_key(k) && k != key {
                        let i = choose|i: int| holds(before, k, i);
                        assert(holds(rows@, k, i));
                    }
                }
                assert forall|k: u64| map_of(rows@).contains_key(k) implies map_of(rows@)[k]
                    == map_of(before).remove(key)[k] by {
                    let i = choose|i: int| holds(rows@, k, i);
                    lemma_row(before, i);
                    lemma_row(rows@, i);
                }
                assert(map_of(rows@) =~= map_of(before).remove(key));
            } else {
                assert(rows@ =~= before);
                assert forall|k: u64| !map_of(before).contains_key(k) by {
                    assert forall|i: int| !holds(before, k, i) by {}
                }
            }
        }
        self.rows = rows;
        r
    }

    /// Takes `key` and its value out.
    pub fn remove(&mut self, key: u64) -> (r: Option<V>)
        ensures
            match r {
                Some(value) => {
                    &&& old(self)@.contains_key(key)
                    &&& value == old(self)@[key]
                    &&& final(self)@ == old(self)@.remove(key)
                },
                None => final(self)@ == old(self)@ && !old(self)@.contains_key(key),
            },
    {
        let found = self.find(key);
        proof {
            use_type_invariant(&*self);
        }
        match found {
            None => None,
            Some(at) => {
                let ghost before = self.rows@;
                let mut rows: Vec<(u64, V)> = Vec::new();
                std::mem::swap(&mut rows, &mut self.rows);
                let row = rows.remove(at);
                proof {
                    let n = at as int;
                    assert(rows@ =~= before.remove(n));
                    assert forall|i: int, j: int| 0 <= i < j < rows@.len() implies (
                    #[trigger] rows@[i]).0 < (#[trigger] rows@[j]).0 by {
                        let k = if i < n {
                            i
                        } else {
                            i + 1
                        };
                        let m = if j < n {
                            j
                        } else {
                            j + 1
                        };
                        assert(rows@[i] == before[k] && rows@[j] == before[m]);
                    }
                    assert forall|k: u64|
                        map_of(rows@).contains_key(k) == map_of(before).remove(key).contains_key(
                            k,
                        ) by {
                        if map_of(rows@).contains_key(k) {
                            let i = choose|i: int| holds(rows@, k, i);
                            let m = if i < n {
                                i
                            } else {
                                i + 1
                            };
                            assert(rows@[i] == before[m]);
                            lemma_row(before, m);
                            if m < n {
                                assert(before[m].0 < before[n].0);
                            } else {
                                assert(before[n].0 < before[m].0);
                            }
                        }
                        if map_of(before).contains_key(k) && k != key {
                            let i = choose|i: int| holds(before, k, i);
                            let m = if i < n {
                                i
                            } else {
                                i - 1
                            };
                            assert(rows@[m] == before[i]);
                            assert(holds(rows@, k, m));
                        }
                    }
                    assert forall|k: u64| map_of(rows@).contains_key(k) implies map_of(rows@)[k]
                        == map_of(before).remove(key)[k] by {
                        let i = choose|i: int| holds(rows@, k, i);
                        let m = if i < n {
                            i
                        } else {
                            i + 1
                        };
                        assert(rows@[i] == before[m]);
                        lemma_row(before, m);
                        lemma_row(rows@, i);
                    }
                    assert(map_of(rows@) =~= map_of(before).remove(key));
                }
                self.rows = rows;
                Some(row.1)
            },
        }
    }

    /// All keys, in ascending order.
    pub fn keys(&self) -> (r: Vec<u64>)
        ensures
            forall|i: int, j: int| 0 <= i < j < r@.len() ==> r@[i] < r@[j],
            forall|key: u64| #[trigger] r@.contains(key) <==> self@.contains_key(key),
    {
        proof {
            use_type_invariant(self);
        }
        let mut out: Vec<u64> = Vec::new();
        let mut i: usize = 0;
        while i < self.rows.len()
            invariant
                is_ascending(self.rows@),
                i <= self.rows@.len(),
                out@.len() == i,
                forall|k: int| 0 <= k < i ==> #[trigger] out@[k] == self.rows@[k].0,
            decreases self.rows@.len() - i,
        {
            out.push(self.rows[i].0);
            i += 1;
        }
        proof {
            assert forall|key: u64| #[trigger] out@.contains(key) <==> self@.contains_key(key) by {
                if out@.contains(key) {
                    let k = choose|k: int| 0 <= k < out@.len() && out@[k] == key;
                    lemma_row(self.rows@, k);
                }
                if self@.contains_key(key) {
                    let k = choose|k: int| holds(self.rows@, key, k);
                    assert(out@[k] == key);
                }
            }
        }
        out
    }

    /// The largest key below `bound`, with its value.
    pub fn largest_below(&self, bound: u64) -> (r: Option<(u64, &V)>)
        ensures
            match r {
                Some((key, value)) => {
                    &&& key < bound
                    &&& self@.contains_key(key)
                    &&& *value == self@[key]
                    &&& forall|k: u64| #[trigger]
                        self@.contains_key(k) && k < bound ==> k <= key
                },
                None => forall|k: u64| #[trigger] self@.contains_key(k) ==> k >= bound,
            },
    {
        let i: usize = self.position(bound);
        proof {
            use_type_invariant(self);
            assert forall|k: u64| #[trigger] self@.contains_key(k) && k < bound implies i > 0 && k
                <= self.rows@[i - 1].0 by {
                let j = choose|j: int| holds(self.rows@, k, j);
                if j >= i {
                    assert(self.rows@[j].0 >= bound);
                }
                if j < i - 1 {
                    assert(self.rows@[j].0 < self.rows@[i - 1].0);
                }
            }
        }
        if i > 0 {
            proof {
                lemma_row(self.rows@, i - 1);
            }
            Some((self.rows[i - 1].0, &self.rows[i - 1].1))
        } else {
            None
        }
    }
}

spec fn before_insert<V>(before: Seq<(u64, V)>, key: u64, value: V) -> Map<u64, V> {
    map_of(before).insert(key, value)
}

proof fn lemma_replaced<V>(
    before: Seq<(u64, V)>,
    after: Seq<(u64, V)>,
    i: int,
    key: u64,
    value: V,
    k: u64,
)
    requires
        is_ascending(before),
        0 <= i < before.len(),
        before[i].0 == key,
        after == before.update(i, (key, value)),
    ensures
        is_ascending(after),
        map_of(after).contains_key(k) == before_insert(before, key, value).contains_key(k),
        map_of(after).contains_key(k) ==> map_of(after)[k] == before_insert(before, key, value)[k],
{
    assert(is_ascending(after)) by {
        assert forall|a: int, b: int| 0 <= a < b < after.len() implies (#[trigger] after[a]).0 < (
        #[trigger] after[b]).0 by {
            assert(before[a].0 < before[b].0);
        }
    }
    lemma_row(after, i);
    if map_of(after).contains_key(k) {
        let j = choose|j: int| holds(after, k, j);
        lemma_row(before, j);
        lemma_row(after, j);
    }
    if map_of(before).contains_key(k) {
        let j = choose|j: int| holds(before, k, j);
        lemma_row(before, j);
        assert(holds(after, k, j));
    }
}

proof fn lemma_inserted<V>(
    before: Seq<(u64, V)>,
    after: Seq<(u64, V)>,
    i: int,
    key: u64,
    value: V,
    k: u64,
)
    requires
        is_ascending(before),
        0 <= i <= before.len(),
        forall|j: int| 0 <= j < i ==> (#[trigger] before[j]).0 < key,
        forall|j: int| i <= j < before.len() ==> (#[trigger] before[j]).0 > key,
        after == before.insert(i, (key, value)),
    ensures
        is_ascending(after),
        map_of(after).contains_key(k) == before_insert(before, key, value).contains_key(k),
        map_of(after).contains_key(k) ==> map_of(after)[k] == before_insert(before, key, value)[k],
{
    assert(is_ascending(after)) by {
        assert forall|a: int, b: int| 0 <= a < b < after.len() implies (#[trigger] after[a]).0 < (
        #[trigger] after[b]).0 by {
            if a < i && b > i {
                assert(before[a].0 < key < before[b - 1].0);
            } else if a == i {
                assert(before[b - 1].0 > key);
            } else if b == i {
                assert(before[a].0 < key);
            } else if b < i {
                assert(before[a].0 < before[b].0);
            } else {
                assert(before[a - 1].0 < before[b - 1].0);
            }
        }
    }
    lemma_row(after, i);
    if map_of(after).contains_key(k) {
        let j = choose|j: int| holds(after, k, j);
        lemma_row(after, j);
        if j < i {
            lemma_row(before, j);
        } else if j > i {
            lemma_row(before, j - 1);
        }
    }
    if map_of(before).contains_key(k) {
        let j = choose|j: int| holds(before, k, j);
        lemma_row(before, j);
        if j < i {
            assert(holds(after, k, j));
        } else {
            assert(holds(after, k, j + 1));
        }
    }
}

} // verus!
