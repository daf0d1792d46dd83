use crate::order::{
    lemma_text_lt_irreflexive, lemma_text_lt_total, lemma_text_lt_transitive, text_before, text_lt,
};
use crate::record::{parse_line, parse_record, HashRecord, LineFormat};
use vstd::prelude::*;

verus! {

/// Whether position `i` of the records holds the given path.
pub open spec fn holds_at(records: Seq<HashRecord>, path: Seq<char>, i: int) -> bool {
    0 <= i < records.len() && records[i].path@ == path
}

/// Whether no path occurs twice among the records.
pub open spec fn distinct_paths(records: Seq<HashRecord>) -> bool {
    forall|i: int, j: int|
        0 <= i < j < records.len() ==> records[i].path@ != records[j].path@
}

/// Whether the records stand in strictly ascending order of path.
pub open spec fn sorted_paths(records: Seq<HashRecord>) -> bool {
    forall|i: int, j: int|
        0 <= i < j < records.len() ==> text_lt(records[i].path@, records[j].path@)
}

/// Records in strictly ascending order of path hold no path twice.
pub proof fn lemma_sorted_paths_distinct(records: Seq<HashRecord>)
    requires
        sorted_paths(records),
    ensures
        distinct_paths(records),
{
    assert forall|i: int, j: int| 0 <= i < j < records.len() implies records[i].path@
        != records[j].path@ by {
        lemma_text_lt_irreflexive(records[i].path@);
    }
}

/// The mapping from path to digest that a list of records stands for.
pub open spec fn records_map(records: Seq<HashRecord>) -> Map<Seq<char>, Seq<char>> {
    Map::new(
        |path: Seq<char>| exists|i: int| holds_at(records, path, i),
        |path: Seq<char>| records[choose|i: int| holds_at(records, path, i)].digest@,
    )
}

/// With distinct paths, each record's path maps to that record's digest.
pub proof fn lemma_record_in_map(records: Seq<HashRecord>, i: int)
    requires
        distinct_paths(records),
        0 <= i < records.len(),
    ensures
        records_map(records).dom().contains(records[i].path@),
        records_map(records)[records[i].path@] == records[i].digest@,
{
    let path = records[i].path@;
    assert(holds_at(records, path, i));
    let k = choose|k: int| holds_at(records, path, k);
    assert(k == i);
}

/// The mapping that a sequence of index lines builds: each well-formed line
/// sets its path's digest, a later line for the same path replacing an
/// earlier one; malformed lines change nothing.
pub open spec fn index_of_lines(lines: Seq<String>, format: LineFormat) -> Map<
    Seq<char>,
    Seq<char>,
>
    decreases lines.len(),
{
    if lines.len() == 0 {
        Map::empty()
    } else {
        let earlier = index_of_lines(lines.drop_last(), format);
        match parse_line(lines.last()@, format) {
            Some((path, digest)) => earlier.insert(path, digest),
            None => earlier,
        }
    }
}

/// A recorded set of digests: at most one digest per path. The records are
/// kept in ascending order of path, so that a path is found by bisection.
pub struct HashIndex {
    entries: Vec<HashRecord>,
}

impl View for HashIndex {
    type V = Map<Seq<char>, Seq<char>>;

    open spec fn view(&self) -> Map<Seq<char>, Seq<char>> {
        records_map(self.records())
    }
}

impl HashIndex {
    /// The records held, in ascending order of path.
    pub closed spec fn records(&self) -> Seq<HashRecord> {
        self.entries@
    }

    /// The invariant of the type: the records stand in strictly ascending
    /// order of path, so no path is held twice.
    pub open spec fn wf(&self) -> bool {
        sorted_paths(self.records())
    }

    /// An index that holds nothing.
    pub fn new() -> (index: HashIndex)
        ensures
            index.wf(),
            index.records().len() == 0,
            index@ == Map::<Seq<char>, Seq<char>>::empty(),
    {
        let index = HashIndex { entries: Vec::new() };
        assert(index@ =~= Map::<Seq<char>, Seq<char>>::empty());
        index
    }

    /// Number of paths held.
    pub fn len(&self) -> (n: usize)
        ensures
            n == self.records().len(),
    {
        self.entries.len()
    }

    /// The record at a position.
    pub fn record(&self, i: usize) -> (record: &HashRecord)
        requires
            i < self.records().len(),
        ensures
            *record == self.records()[i as int],
    {
        &self.entries[i]
    }

    /// Looks for a path by bisection: where it stands, or else where it
    /// would have to be put.
    fn search(&self, path: &str) -> (found: Result<usize, usize>)
        requires
            self.wf(),
        ensures
            match found {
                Ok(i) => holds_at(self.records(), path@, i as int),
                Err(i) => {
                    &&& i <= self.records().len()
                    &&& forall|j: int| 0 <= j < i ==> text_lt(self.records()[j].path@, path@)
                    &&& forall|j: int|
                        i <= j < self.records().len() ==> text_lt(path@, self.records()[j].path@)
                },
            },
    {
        let mut low: usize = 0;
        let mut high: usize = self.entries.len();
        while low < high
            invariant
                self.wf(),
                low <= high <= self.entries@.len(),
                forall|j: int| 0 <= j < low ==> text_lt(self.entries@[j].path@, path@),
                forall|j: int|
                    high <= j < self.entries@.len() ==> text_lt(path@, self.entries@[j].path@),
            decreases high - low,
        {
            let mid: usize = low + (high - low) / 2;
            let here = self.entries[mid].path.as_str();
            if text_before(here, path) {
                proof {
                    assert forall|j: int| 0 <= j < mid + 1 implies text_lt(
                        self.entries@[j].path@,
                        path@,
                    ) by {
                        if j < mid {
                            lemma_text_lt_transitive(self.entries@[j].path@, here@, path@);
                        }
                    }
                }
                low = mid + 1;
            } else if text_before(path, here) {
                proof {
                    assert forall|j: int| mid <= j < self.entries@.len() implies text_lt(
                        path@,
                        self.entries@[j].path@,
                    ) by {
                        if j > mid {
                            lemma_text_lt_transitive(path@, here@, self.entries@[j].path@);
                        }
                    }
                }
                high = mid;
            } else {
                proof {
                    if here@ != path@ {
                        lemma_text_lt_total(here@, path@);
                    }
                }
                return Ok(mid);
            }
        }
        Err(low)
    }

    /// The digest recorded for a path, if the index holds the path.
    pub fn get(&self, path: &str) -> (digest: Option<&String>)
        requires
            self.wf(),
        ensures
            match digest {
                Some(d) => self@.dom().contains(path@) && d@ == self@[path@],
                None => !self@.dom().contains(path@),
            },
    {
        match self.search(path) {
            Ok(i) => {
                proof {
                    lemma_sorted_paths_distinct(self.records());
                    lemma_record_in_map(self.records(), i as int);
                }
                Some(&self.entries[i].digest)
            },
            Err(i) => {
                proof {
                    if self@.dom().contains(path@) {
                        let k = choose|k: int| holds_at(self.records(), path@, k);
                        lemma_text_lt_irreflexive(path@);
                    }
                }
                None
            },
        }
    }

    /// Whether the index holds a path.
    pub fn contains_key(&self, path: &str) -> (held: bool)
        requires
            self.wf(),
        ensures
            held == self@.dom().contains(path@),
    {
        self.get(path).is_some()
    }

    /// Records a digest for a path. A digest recorded earlier for the same
    /// path is replaced.
    pub fn insert(&mut self, path: String, digest: String)
        requires
            old(self).wf(),
        ensures
            final(self).wf(),
            final(self)@ == old(self)@.insert(path@, digest@),
            final(self).records().len() == old(self).records().len() + (if old(self)@.dom().contains(
                path@,
            ) {
                0int
            } else {
                1int
            }),
    {
        let ghost before = self.entries@;
        let ghost target = old(self)@.insert(path@, digest@);
        let found = self.search(path.as_str());
        let record = HashRecord { path, digest };
        proof {
            lemma_sorted_paths_distinct(before);
        }
        match found {
            Ok(i) => {
                self.entries.set(i, record);
                proof {
                    let after = self.entries@;
                    assert(sorted_paths(after)) by {
                        assert forall|a: int, b: int| 0 <= a < b < after.len() implies text_lt(
                            after[a].path@,
                            after[b].path@,
                        ) by {
                            assert(after[a].path@ == before[a].path@);
                            assert(after[b].path@ == before[b].path@);
                        }
                    }
                    lemma_sorted_paths_distinct(after);
                    assert forall|p: Seq<char>| #[trigger]
                        records_map(after).dom().contains(p) == target.dom().contains(p) by {
                        if records_map(after).dom().contains(p) {
                            let k = choose|k: int| holds_at(after, p, k);
                            assert(holds_at(before, p, k));
                        }
                        if target.dom().contains(p) {
                            if p == record.path@ {
                                assert(holds_at(after, p, i as int));
                            } else {
                                let k = choose|k: int| holds_at(before, p, k);
                                assert(holds_at(after, p, k));
                            }
                        }
                    }
                    assert forall|p: Seq<char>| #[trigger]
                        records_map(after).dom().contains(p) implies records_map(after)[p]
                        == target[p] by {
                        let k = choose|k: int| holds_at(after, p, k);
                        lemma_record_in_map(after, k);
                        if k != i {
                            assert(holds_at(before, p, k));
                            lemma_record_in_map(before, k);
                        }
                    }
                    assert(records_map(after) =~= target);
                    lemma_record_in_map(before, i as int);
                }
            },
            Err(i) => {
                self.entries.insert(i, record);
                proof {
                    let after = self.entries@;
                    assert(after == before.insert(i as int, record));
                    assert(sorted_paths(after)) by {
                        assert forall|a: int, b: int| 0 <= a < b < after.len() implies text_lt(
                            after[a].path@,
                            after[b].path@,
                        ) by {
                            let a0 = if a < i {
                                a
                            } else {
                                a - 1
                            };
                            let b0 = if b < i {
                                b
                            } else {
                                b - 1
                            };
                            if a != i {
                                assert(after[a] == before[a0]);
                            }
                            if b != i {
                                assert(after[b] == before[b0]);
                            }
                        }
                    }
                    lemma_sorted_paths_distinct(after);
                    assert(!old(self)@.dom().contains(record.path@)) by {
                        if old(self)@.dom().contains(record.path@) {
                            let k = choose|k: int| holds_at(before, record.path@, k);
                            lemma_text_lt_irreflexive(record.path@);
                        }
                    }
                    assert forall|p: Seq<char>| #[trigger]
                        records_map(after).dom().contains(p) == target.dom().contains(p) by {
                        if records_map(after).dom().contains(p) {
                            let k = choose|k: int| holds_at(after, p, k);
                            if k < i {
                                assert(holds_at(before, p, k));
                            } else if k > i {
                                assert(holds_at(before, p, k - 1));
                            }
                        }
                        if target.dom().contains(p) {
                            if p == record.path@ {
                                assert(holds_at(after, p, i as int));
                            } else {
                                let k = choose|k: int| holds_at(before, p, k);
                                if k < i {
                                    assert(holds_at(after, p, k));
                                } else {
                                    assert(after[k + 1] == before[k]);
                                    assert(holds_at(after, p, k + 1));
                                }
                            }
                        }
                    }
                    assert forall|p: Seq<char>| #[trigger]
                        records_map(after).dom().contains(p) implies records_map(after)[p]
                        == target[p] by {
                        let k = choose|k: int| holds_at(after, p, k);
                        lemma_record_in_map(after, k);
                        if k < i {
                            assert(holds_at(before, p, k));
                            lemma_record_in_map(before, k);
                        } else if k > i {
                            assert(holds_at(before, p, k - 1));
                            lemma_record_in_map(before, k - 1);
                        }
                    }
                    assert(records_map(after) =~= target);
                }
            },
        }
    }

    /// Builds an index from the lines of an index file. Malformed lines are
    /// passed over; of several lines for one path the last counts. The index
    /// holds at most as many paths as there are lines.
    pub fn from_lines(lines: &Vec<String>, format: LineFormat) -> (index: HashIndex)
        ensures
            index.wf(),
            index@ == index_of_lines(lines@, format),
            index.records().len() <= lines@.len(),
    {
        let mut index = HashIndex::new();
        let mut i: usize = 0;
        while i < lines.len()
            invariant
                i <= lines.len(),
                index.wf(),
                index@ == index_of_lines(lines@.take(i as int), format),
                index.records().len() <= i,
            decreases lines.len() - i,
        {
            let parsed = parse_record(lines[i].as_str(), format);
            proof {
                assert(lines@.take(i + 1).drop_last() =~= lines@.take(i as int));
                assert(lines@.take(i + 1).last() == lines@[i as int]);
            }
            match parsed {
                Some(record) => {
                    index.insert(record.path, record.digest);
                },
                None => {},
            }
            i += 1;
        }
        assert(lines@.take(i as int) =~= lines@);
        index
    }
}

} // verus!
