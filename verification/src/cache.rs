//! A small text cache: values stored under text keys, read back later, and
//! cleared all at once.
use vstd::prelude::*;

verus! {

/// Text values stored under text keys; each key holds one value at most.
///
/// The entries are kept as a list of pairs: vstd specifies the standard hash
/// map only for keys whose hashing it models (integers and `bool`), not for
/// `String`.
pub struct Cache {
    entries: Vec<(String, String)>,
}

impl Cache {
    /// No key appears twice among the entries.
    #[verifier::type_invariant]
    spec fn wf(&self) -> bool {
        forall|i: int, j: int|
            0 <= i < self.entries.len() && 0 <= j < self.entries.len() && i != j
                ==> #[trigger] self.entries@[i].0@ != #[trigger] self.entries@[j].0@
    }

    closed spec fn holds(&self, key: Seq<char>) -> bool {
        exists|i: int| 0 <= i < self.entries.len() && #[trigger] self.entries@[i].0@ == key
    }

    closed spec fn index_of(&self, key: Seq<char>) -> int {
        choose|i: int| 0 <= i < self.entries.len() && #[trigger] self.entries@[i].0@ == key
    }

    /// An empty cache.
    pub fn new() -> (cache: Self)
        ensures
            cache@ == Map::<Seq<char>, Seq<char>>::empty(),
    {
        let cache = Cache { entries: Vec::new() };
        assert(cache@ =~= Map::<Seq<char>, Seq<char>>::empty());
        cache
    }
}

impl View for Cache {
    type V = Map<Seq<char>, Seq<char>>;

    /// The value stored under each key.
    closed spec fn view(&self) -> Map<Seq<char>, Seq<char>> {
        Map::new(|k: Seq<char>| self.holds(k), |k: Seq<char>| self.entries@[self.index_of(k)].1@)
    }
}

proof fn lemma_lookup(cache: &Cache, i: int)
    requires
        cache.wf(),
        0 <= i < cache.entries.len(),
    ensures
        cache@.contains_key(cache.entries@[i].0@),
        cache@[cache.entries@[i].0@] == cache.entries@[i].1@,
{
    let k = cache.entries@[i].0@;
    assert(cache.holds(k));
    let j = cache.index_of(k);
    assert(cache.entries@[j].0@ == k);
    assert(j == i);
}

/// Stores `value` under `key`, replacing what was stored there.
pub fn add_data(cache: &mut Cache, key: &str, value: &str)
    ensures
        final(cache)@ == old(cache)@.insert(key@, value@),
{
    proof {
        use_type_invariant(&*cache);
    }
    let k = String::from_str(key);
    let v = String::from_str(value);
    let ghost before = *cache;
    let mut entries: Vec<(String, String)> = Vec::new();
    std::mem::swap(&mut entries, &mut cache.entries);
    let mut i: usize = 0;
    while i < entries.len()
        invariant
            entries@ == before.entries@,
            before == *old(cache),
            before.wf(),
            k@ == key@,
            v@ == value@,
            i <= entries.len(),
            forall|j: int| 0 <= j < i ==> #[trigger] entries@[j].0@ != k@,
        decreases entries.len() - i,
    {
        if entries[i].0 == k {
            entries.set(i, (k, v));
            let ghost after = Cache { entries: entries };
            proof {
                assert(before.entries@[i as int].0@ == key@);
                assert(after.entries@[i as int].0@ == key@);
                assert(after.wf()) by {
                    assert forall|a: int, b: int|
                        0 <= a < after.entries.len() && 0 <= b < after.entries.len() && a != b
                        implies #[trigger] after.entries@[a].0@ != #[trigger] after.entries@[b].0@ by {
                        assert(before.entries@[a].0@ == after.entries@[a].0@);
                        assert(before.entries@[b].0@ == after.entries@[b].0@);
                    }
                }
                assert forall|key2: Seq<char>|
                    #[trigger] after@.contains_key(key2) == before@.insert(key@, value@).contains_key(
                        key2,
                    ) by {
                    if before.holds(key2) {
                        let w = choose|j: int|
                            0 <= j < before.entries.len() && #[trigger] before.entries@[j].0@ == key2;
                        assert(after.entries@[w].0@ == key2);
                    }
                    if after.holds(key2) {
                        let w = choose|j: int|
                            0 <= j < after.entries.len() && #[trigger] after.entries@[j].0@ == key2;
                        assert(before.entries@[w].0@ == key2);
                    }
                }
                assert forall|key2: Seq<char>| #[trigger]
                    after@.contains_key(key2) implies after@[key2] == before@.insert(
                    key@,
                    value@,
                )[key2] by {
                    let w = choose|j: int|
                        0 <= j < after.entries.len() && #[trigger] after.entries@[j].0@ == key2;
                    lemma_lookup(&after, w);
                    if key2 != key@ {
                        assert(before.entries@[w] == after.entries@[w]);
                        lemma_lookup(&before, w);
                    }
                }
                assert(after@ =~= before@.insert(key@, value@));
            }
            cache.entries = entries;
            return;
        }
        i = i + 1;
    }
    entries.push((k, v));
    let ghost after = Cache { entries: entries };
    proof {
        let n = before.entries.len() as int;
        assert(after.entries@[n].0@ == key@);
        assert(after.wf()) by {
            assert forall|a: int, b: int|
                0 <= a < after.entries.len() && 0 <= b < after.entries.len() && a != b
                implies #[trigger] after.entries@[a].0@ != #[trigger] after.entries@[b].0@ by {
                if a < n {
                    assert(before.entries@[a] == after.entries@[a]);
                }
                if b < n {
                    assert(before.entries@[b] == after.entries@[b]);
                }
            }
        }
        assert forall|key2: Seq<char>|
            #[trigger] after@.contains_key(key2) == before@.insert(key@, value@).contains_key(key2) by {
            if before.holds(key2) {
                let w = choose|j: int|
                    0 <= j < before.entries.len() && #[trigger] before.entries@[j].0@ == key2;
                assert(after.entries@[w].0@ == key2);
            }
            if key2 == key@ {
                assert(after.entries@[n].0@ == key2);
            }
            if after.holds(key2) && key2 != key@ {
                let w = choose|j: int|
                    0 <= j < after.entries.len() && #[trigger] after.entries@[j].0@ == key2;
                assert(w < n);
                assert(before.entries@[w].0@ == key2);
            }
        }
        assert forall|key2: Seq<char>| #[trigger]
            after@.contains_key(key2) implies after@[key2] == before@.insert(key@, value@)[key2] by {
            let w = choose|j: int|
                0 <= j < after.entries.len() && #[trigger] after.entries@[j].0@ == key2;
            lemma_lookup(&after, w);
            if key2 != key@ {
                assert(w < n);
                assert(before.entries@[w] == after.entries@[w]);
                lemma_lookup(&before, w);
            }
        }
        assert(after@ =~= before@.insert(key@, value@));
    }
    cache.entries = entries;
}

/// The value stored under `key`, if any.
pub fn get_data(cache: &Cache, key: &str) -> (value: Option<String>)
    ensures
        match value {
            Some(v) => cache@.contains_key(key@) && cache@[key@] == v@,
            None => !cache@.contains_key(key@),
        },
{
    proof {
        use_type_invariant(cache);
    }
    let k = String::from_str(key);
    let mut i: usize = 0;
    while i < cache.entries.len()
        invariant
            cache.wf(),
            k@ == key@,
            i <= cache.entries.len(),
            forall|j: int| 0 <= j < i ==> #[trigger] cache.entries@[j].0@ != k@,
        decreases cache.entries.len() - i,
    {
        if cache.entries[i].0 == k {
            proof {
                lemma_lookup(cache, i as int);
            }
            return Some(cache.entries[i].1.clone());
        }
        i = i + 1;
    }
    proof {
        if cache.holds(key@) {
            let w = choose|j: int|
                0 <= j < cache.entries.len() && #[trigger] cache.entries@[j].0@ == key@;
            assert(cache.entries@[w].0@ != k@);
        }
    }
    None
}

/// Removes every stored value.
pub fn clear(cache: &mut Cache)
    ensures
        final(cache)@ == Map::<Seq<char>, Seq<char>>::empty(),
{
    cache.entries = Vec::new();
    assert(cache@ =~= Map::<Seq<char>, Seq<char>>::empty());
}

/// Readies the cache for booklet `booklet_num` of a run: the first booklet
/// starts from an empty cache, a later one keeps what the earlier ones stored.
pub fn start_booklet(cache: &mut Cache, booklet_num: i32)
    ensures
        booklet_num == 1 ==> final(cache)@ == Map::<Seq<char>, Seq<char>>::empty(),
        booklet_num != 1 ==> final(cache)@ == old(cache)@,
{
    if booklet_num == 1 {
        clear(cache);
    }
}

/// Reading back a write: after `add_data(key, value)` the cache holds
/// `value` under `key`, and every other key holds what it held before.
pub proof fn lemma_read_after_write(before: Cache, after: Cache, key: Seq<char>, value: Seq<char>)
    requires
        after@ == before@.insert(key, value),
    ensures
        after@.contains_key(key),
        after@[key] == value,
        forall|other: Seq<char>|
            other != key ==> (#[trigger] after@.contains_key(other) == before@.contains_key(other) && (
            after@.contains_key(other) ==> after@[other] == before@[other])),
{
}

/// After `clear` no key holds a value.
pub proof fn lemma_cleared(after: Cache)
    requires
        after@ == Map::<Seq<char>, Seq<char>>::empty(),
    ensures
        forall|key: Seq<char>| !(#[trigger] after@.contains_key(key)),
{
}

} // verus!
