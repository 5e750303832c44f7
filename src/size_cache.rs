use vstd::prelude::*;

verus! {

/// Smallest subtree size, exclusive, whose aggregate is remembered across scans.
pub const MEMO_THRESHOLD: u64 = 1_000_000_000;

/// The map that a sequence of `(path, size)` records denotes: a later record of a
/// path replaces an earlier one.
pub open spec fn records_map(s: Seq<(String, u64)>) -> Map<Seq<char>, u64>
    decreases s.len(),
{
    if s.len() == 0 {
        Map::empty()
    } else {
        records_map(s.drop_last()).insert(s.last().0@, s.last().1)
    }
}

/// Process-lifetime memo from a directory path to its aggregate byte size.
///
/// The records are kept in a vector searched from the newest: std's hash map gives a
/// lookup by `String` key no specification that this map view could be proved from.
pub struct SizeCache {
    records: Vec<(String, u64)>,
}

impl View for SizeCache {
    type V = Map<Seq<char>, u64>;

    closed spec fn view(&self) -> Map<Seq<char>, u64> {
        records_map(self.records@)
    }
}

proof fn lemma_records_lookup(s: Seq<(String, u64)>, key: Seq<char>, i: int)
    requires
        0 <= i < s.len(),
        s[i].0@ == key,
        forall|j: int| i < j < s.len() ==> s[j].0@ != key,
    ensures
        records_map(s).contains_key(key),
        records_map(s)[key] == s[i].1,
    decreases s.len(),
{
    if i < s.len() - 1 {
        lemma_records_lookup(s.drop_last(), key, i);
    }
}

proof fn lemma_records_absent(s: Seq<(String, u64)>, key: Seq<char>)
    requires
        forall|j: int| 0 <= j < s.len() ==> s[j].0@ != key,
    ensures
        !records_map(s).contains_key(key),
    decreases s.len(),
{
    if s.len() > 0 {
        lemma_records_absent(s.drop_last(), key);
    }
}

impl SizeCache {
    /// An empty cache.
    pub fn new() -> (r: SizeCache)
        ensures
            r@ == Map::<Seq<char>, u64>::empty(),
    {
        SizeCache { records: Vec::new() }
    }

    /// The remembered size of `path`, if any.
    pub fn lookup(&self, path: &String) -> (r: Option<u64>)
        ensures
            r == (if self@.contains_key(path@) {
                Some(self@[path@])
            } else {
                None::<u64>
            }),
    {
        let mut i: usize = self.records.len();
        while i > 0
            invariant
                i <= self.records@.len(),
                forall|j: int| i <= j < self.records@.len() ==> self.records@[j].0@ != path@,
            decreases i,
        {
            i = i - 1;
            if self.records[i].0 == *path {
                proof {
                    lemma_records_lookup(self.records@, path@, i as int);
                }
                return Some(self.records[i].1);
            }
        }
        proof {
            lemma_records_absent(self.records@, path@);
        }
        None
    }

    /// Remembers `size` as the aggregate of `path`, replacing any earlier value.
    pub fn record(&mut self, path: String, size: u64)
        ensures
            final(self)@ == old(self)@.insert(path@, size),
    {
        self.records.push((path, size));
        proof {
            assert(self.records@.drop_last() == old(self).records@);
        }
    }
}

} // verus!
