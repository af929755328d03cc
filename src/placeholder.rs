use vstd::prelude::*;
use crate::descriptor::{CachedImage, DescriptorModel};

verus! {

/// A blur placeholder: its SVG markup and when it was stored, in seconds
/// since the Unix epoch.
#[derive(Clone, Debug)]
pub struct BlurEntry {
    pub svg_data: String,
    pub created_at: i64,
}

/// What the cache holds for one descriptor: the markup and its creation time.
pub type EntryModel = (Seq<char>, i64);

/// An entry stored at `created` has expired at `now` when a nonzero time to
/// live is set and the entry is older than it; `None` and `Some(0)` keep
/// entries for good.
pub open spec fn is_expired(created: i64, now: i64, ttl: Option<u64>) -> bool {
    match ttl {
        Some(t) => t > 0 && now - created > t,
        None => false,
    }
}

/// The in-memory placeholder cache. Entries expire lazily: an expired entry is
/// dropped when it is read.
pub struct BlurCache {
    entries: Vec<(CachedImage, BlurEntry)>,
    contents: Ghost<Map<DescriptorModel, EntryModel>>,
}

impl View for BlurCache {
    type V = Map<DescriptorModel, EntryModel>;

    closed spec fn view(&self) -> Map<DescriptorModel, EntryModel> {
        self.contents@
    }
}

fn expired(created: i64, now: i64, ttl: Option<u64>) -> (r: bool)
    ensures
        r == is_expired(created, now, ttl),
{
    match ttl {
        Some(t) => t > 0 && (now as i128) - (created as i128) > t as i128,
        None => false,
    }
}

impl BlurCache {
    /// Each stored key once, and the model is exactly what is stored.
    pub closed spec fn wf(&self) -> bool {
        &&& forall|i: int|
            0 <= i < self.entries@.len() ==> #[trigger] self.contents@.contains_key(
                self.entries@[i].0@,
            ) && self.contents@[self.entries@[i].0@] == (
                self.entries@[i].1.svg_data@,
                self.entries@[i].1.created_at,
            )
        &&& forall|k: DescriptorModel| #[trigger]
            self.contents@.contains_key(k) ==> exists|i: int|
                0 <= i < self.entries@.len() && self.entries@[i].0@ == k
        &&& forall|i: int, j: int|
            0 <= i < self.entries@.len() && 0 <= j < self.entries@.len() && i != j
                ==> self.entries@[i].0@ != self.entries@[j].0@
    }

    pub fn new() -> (r: BlurCache)
        ensures
            r.wf(),
            r@ == Map::<DescriptorModel, EntryModel>::empty(),
    {
        BlurCache { entries: Vec::new(), contents: Ghost(Map::empty()) }
    }

    fn find(&self, key: &CachedImage) -> (r: Option<usize>)
        ensures
            r matches Some(i) ==> i < self.entries@.len() && self.entries@[i as int].0@ == key@,
            r is None ==> forall|i: int|
                0 <= i < self.entries@.len() ==> self.entries@[i].0@ != key@,
    {
        let mut i: usize = 0;
        while i < self.entries.len()
            invariant
                i <= self.entries@.len(),
                forall|j: int| 0 <= j < i ==> self.entries@[j].0@ != key@,
            decreases self.entries.len() - i,
        {
            if self.entries[i].0.same_as(key) {
                return Some(i);
            }
            i = i + 1;
        }
        None
    }

    /// Whether an entry is stored for `key`, expired or not.
    pub fn contains(&self, key: &CachedImage) -> (r: bool)
        requires
            self.wf(),
        ensures
            r == self@.contains_key(key@),
    {
        let r = self.find(key);
        proof {
            if r is None && self@.contains_key(key@) {
                let i = choose|i: int| 0 <= i < self.entries@.len() && self.entries@[i].0@ == key@;
            }
        }
        r.is_some()
    }

    /// The number of stored entries, expired or not.
    pub fn len(&self) -> (r: usize)
        requires
            self.wf(),
        ensures
            r == self@.len(),
    {
        proof {
            self.lemma_len();
        }
        self.entries.len()
    }

    proof fn lemma_len(&self)
        requires
            self.wf(),
        ensures
            self@.len() == self.entries@.len(),
    {
        let keys = self.entries@.map_values(|e: (CachedImage, BlurEntry)| e.0@);
        assert(keys.no_duplicates()) by {
            assert forall|i: int, j: int|
                0 <= i < keys.len() && 0 <= j < keys.len() && i != j implies keys[i]
                != keys[j] by {}
        }
        keys.unique_seq_to_set();
        assert(keys.to_set() =~= self@.dom()) by {
            assert forall|k: DescriptorModel| self@.dom().contains(k) implies keys.to_set().contains(k) by {
                let i = choose|i: int| 0 <= i < self.entries@.len() && self.entries@[i].0@ == k;
                assert(keys[i] == k);
            }
        }
    }

    /// Stores `svg` for `key` with creation time `now`, replacing what was there.
    pub fn put(&mut self, key: CachedImage, svg: String, now: i64)
        requires
            old(self).wf(),
        ensures
            final(self).wf(),
            final(self)@ == old(self)@.insert(key@, (svg@, now)),
    {
        let ghost k = key@;
        let ghost m = self.contents@.insert(k, (svg@, now));
        let entry = BlurEntry { svg_data: svg, created_at: now };
        match self.find(&key) {
            Some(i) => {
                self.entries.set(i, (key, entry));
                self.contents = Ghost(m);
                proof {
                    assert forall|q: DescriptorModel| #[trigger] m.contains_key(q) implies exists|j: int|
                        0 <= j < self.entries@.len() && self.entries@[j].0@ == q by {
                        if q == k {
                            assert(self.entries@[i as int].0@ == q);
                        } else {
                            let j = choose|j: int|
                                0 <= j < old(self).entries@.len() && old(self).entries@[j].0@ == q;
                            assert(self.entries@[j].0@ == q);
                        }
                    }
                }
            },
            None => {
                self.entries.push((key, entry));
                self.contents = Ghost(m);
                proof {
                    let n = self.entries@.len() - 1;
                    assert forall|q: DescriptorModel| #[trigger] m.contains_key(q) implies exists|j: int|
                        0 <= j < self.entries@.len() && self.entries@[j].0@ == q by {
                        if q == k {
                            assert(self.entries@[n].0@ == q);
                        } else {
                            let j = choose|j: int|
                                0 <= j < old(self).entries@.len() && old(self).entries@[j].0@ == q;
                            assert(self.entries@[j].0@ == q);
                        }
                    }
                }
            },
        }
    }

    /// Reads the markup stored for `key` at time `now`. An entry that has
    /// expired is removed and nothing is returned.
    pub fn get_at(&mut self, key: &CachedImage, now: i64, ttl: Option<u64>) -> (r: Option<String>)
        requires
            old(self).wf(),
        ensures
            final(self).wf(),
            !old(self)@.contains_key(key@) ==> r is None && final(self)@ == old(self)@,
            old(self)@.contains_key(key@) && is_expired(old(self)@[key@].1, now, ttl) ==> r is None
                && final(self)@ == old(self)@.remove(key@),
            old(self)@.contains_key(key@) && !is_expired(old(self)@[key@].1, now, ttl) ==> (
            r matches Some(s) && s@ == old(self)@[key@].0) && final(self)@ == old(self)@,
    {
        match self.find(key) {
            None => {
                proof {
                    if self@.contains_key(key@) {
                        let i = choose|i: int|
                            0 <= i < self.entries@.len() && self.entries@[i].0@ == key@;
                    }
                }
                None
            },
            Some(i) => {
                if expired(self.entries[i].1.created_at, now, ttl) {
                    let ghost m = self.contents@.remove(key@);
                    let ghost before = self.entries@;
                    self.entries.remove(i);
                    self.contents = Ghost(m);
                    proof {
                        assert forall|a: int|
                            0 <= a < self.entries@.len() implies #[trigger] self.contents@.contains_key(
                            self.entries@[a].0@,
                        ) && self.contents@[self.entries@[a].0@] == (
                            self.entries@[a].1.svg_data@,
                            self.entries@[a].1.created_at,
                        ) by {
                            if a < i {
                                assert(self.entries@[a] == before[a]);
                            } else {
                                assert(self.entries@[a] == before[a + 1]);
                            }
                        }
                        assert forall|q: DescriptorModel| #[trigger]
                            m.contains_key(q) implies exists|j: int|
                            0 <= j < self.entries@.len() && self.entries@[j].0@ == q by {
                            let j = choose|j: int| 0 <= j < before.len() && before[j].0@ == q;
                            if j < i {
                                assert(self.entries@[j].0@ == q);
                            } else {
                                assert(self.entries@[j - 1].0@ == q);
                            }
                        }
                        assert forall|a: int, b: int|
                            0 <= a < self.entries@.len() && 0 <= b < self.entries@.len() && a
                                != b implies self.entries@[a].0@ != self.entries@[b].0@ by {
                            let a2 = if a < i { a } else { a + 1 };
                            let b2 = if b < i { b } else { b + 1 };
                            assert(self.entries@[a] == before[a2]);
                            assert(self.entries@[b] == before[b2]);
                        }
                    }
                    None
                } else {
                    Some(self.entries[i].1.svg_data.clone())
                }
            },
        }
    }
}

/// The stored entries, each key once, as pairs of descriptor and markup.
pub open spec fn snapshot_matches(
    snap: Seq<(CachedImage, String)>,
    m: Map<DescriptorModel, EntryModel>,
) -> bool {
    &&& snap.len() == m.len()
    &&& forall|i: int|
        0 <= i < snap.len() ==> #[trigger] m.contains_key(snap[i].0@) && m[snap[i].0@].0
            == snap[i].1@
    &&& forall|k: DescriptorModel| #[trigger]
        m.contains_key(k) ==> exists|i: int| 0 <= i < snap.len() && snap[i].0@ == k
}

impl BlurCache {
    /// Every stored placeholder with its descriptor, expired or not.
    pub fn snapshot(&self) -> (r: Vec<(CachedImage, String)>)
        requires
            self.wf(),
        ensures
            snapshot_matches(r@, self@),
    {
        proof {
            self.lemma_len();
        }
        let mut out: Vec<(CachedImage, String)> = Vec::new();
        let mut i: usize = 0;
        while i < self.entries.len()
            invariant
                self.wf(),
                i <= self.entries@.len(),
                out@.len() == i,
                forall|j: int|
                    0 <= j < i ==> out@[j].0@ == self.entries@[j].0@ && out@[j].1@
                        == self.entries@[j].1.svg_data@,
            decreases self.entries.len() - i,
        {
            let key = self.entries[i].0.duplicate();
            let svg = self.entries[i].1.svg_data.clone();
            out.push((key, svg));
            i = i + 1;
        }
        proof {
            assert forall|k: DescriptorModel| #[trigger] self@.contains_key(k) implies exists|j: int|
                0 <= j < out@.len() && out@[j].0@ == k by {
                let j = choose|j: int| 0 <= j < self.entries@.len() && self.entries@[j].0@ == k;
                assert(out@[j].0@ == k);
            }
            assert forall|j: int| 0 <= j < out@.len() implies #[trigger] self@.contains_key(out@[j].0@)
                && self@[out@[j].0@].0 == out@[j].1@ by {
                assert(self.contents@.contains_key(self.entries@[j].0@));
            }
        }
        out
    }
}

} // verus!
