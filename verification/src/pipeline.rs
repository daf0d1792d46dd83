use crate::algorithm::HashAlgorithm;
use crate::hasher::{hash_content, hex_digest};
use crate::record::HashRecord;
use vstd::prelude::*;

verus! {

/// What kind of filesystem entry a traversal came upon.
#[derive(Debug, Clone, Copy, PartialEq, Eq, Structural)]
pub enum EntryKind {
    File,
    Dir,
    Other,
}

/// Which entries a listing leaves out.
#[derive(Debug, Clone, Copy, PartialEq, Eq, Structural)]
pub struct Exclusions {
    pub files: bool,
    pub dirs: bool,
    pub hidden: bool,
    pub other: bool,
}

impl Exclusions {
    /// Whether a listing shows an entry of the given kind.
    pub open spec fn spec_admits(&self, kind: EntryKind) -> bool {
        match kind {
            EntryKind::File => !self.files,
            EntryKind::Dir => !self.dirs,
            EntryKind::Other => !self.other,
        }
    }

    /// Whether a listing shows an entry of the given kind.
    pub fn admits(&self, kind: EntryKind) -> (shown: bool)
        ensures
            shown == self.spec_admits(kind),
    {
        match kind {
            EntryKind::File => !self.files,
            EntryKind::Dir => !self.dirs,
            EntryKind::Other => !self.other,
        }
    }
}

/// Whether an entry is handed to the checksum pipeline: regular files only,
/// whatever the listing's exclusions say, since nothing else has content.
pub fn is_hashed(kind: EntryKind) -> (hashed: bool)
    ensures
        hashed == (kind == EntryKind::File),
{
    match kind {
        EntryKind::File => true,
        _ => false,
    }
}

/// The depth limit handed to the traversal: a configured depth of zero
/// stands for no limit.
pub fn depth_limit(depth: usize) -> (limit: usize)
    ensures
        limit == (if depth == 0 {
            usize::MAX
        } else {
            depth
        }),
{
    if depth == 0 {
        usize::MAX
    } else {
        depth
    }
}

/// How many entries of each kind a traversal came upon.
#[derive(Debug, Clone, Copy, PartialEq, Eq, Structural)]
pub struct Counts {
    pub files: usize,
    pub dirs: usize,
    pub other: usize,
}

/// The number of entries of a kind among the given ones.
pub open spec fn count_of(kinds: Seq<EntryKind>, kind: EntryKind) -> nat
    decreases kinds.len(),
{
    if kinds.len() == 0 {
        0
    } else {
        count_of(kinds.drop_last(), kind) + (if kinds.last() == kind {
            1nat
        } else {
            0nat
        })
    }
}

proof fn lemma_count_bound(kinds: Seq<EntryKind>, kind: EntryKind)
    ensures
        count_of(kinds, kind) <= kinds.len(),
    decreases kinds.len(),
{
    if kinds.len() > 0 {
        lemma_count_bound(kinds.drop_last(), kind);
    }
}

impl Counts {
    /// The counts after one more entry of the given kind.
    pub open spec fn with_one(self, kind: EntryKind) -> (int, int, int) {
        match kind {
            EntryKind::File => (self.files + 1, self.dirs as int, self.other as int),
            EntryKind::Dir => (self.files as int, self.dirs + 1, self.other as int),
            EntryKind::Other => (self.files as int, self.dirs as int, self.other + 1),
        }
    }

    /// The counts as a triple of files, directories and other entries.
    pub open spec fn triple(self) -> (int, int, int) {
        (self.files as int, self.dirs as int, self.other as int)
    }

    /// No entry counted yet.
    pub fn new() -> (counts: Counts)
        ensures
            counts.triple() == (0int, 0int, 0int),
    {
        Counts { files: 0, dirs: 0, other: 0 }
    }

    /// Counts one more entry of the given kind.
    pub fn record(&mut self, kind: EntryKind)
        requires
            old(self).files < usize::MAX,
            old(self).dirs < usize::MAX,
            old(self).other < usize::MAX,
        ensures
            final(self).triple() == old(self).with_one(kind),
    {
        match kind {
            EntryKind::File => {
                self.files = self.files + 1;
            },
            EntryKind::Dir => {
                self.dirs = self.dirs + 1;
            },
            EntryKind::Other => {
                self.other = self.other + 1;
            },
        }
    }

    /// Adds the counts that another worker kept to these.
    pub fn merge(&mut self, other: &Counts)
        requires
            old(self).files + other.files <= usize::MAX,
            old(self).dirs + other.dirs <= usize::MAX,
            old(self).other + other.other <= usize::MAX,
        ensures
            final(self).triple() == (
                old(self).files + other.files,
                old(self).dirs + other.dirs,
                old(self).other + other.other,
            ),
    {
        self.files = self.files + other.files;
        self.dirs = self.dirs + other.dirs;
        self.other = self.other + other.other;
    }

    /// Counts the entries of a finished traversal by kind.
    pub fn of(kinds: &Vec<EntryKind>) -> (counts: Counts)
        ensures
            counts.files == count_of(kinds@, EntryKind::File),
            counts.dirs == count_of(kinds@, EntryKind::Dir),
            counts.other == count_of(kinds@, EntryKind::Other),
    {
        let mut counts = Counts::new();
        let mut i: usize = 0;
        while i < kinds.len()
            invariant
                i <= kinds.len(),
                counts.files == count_of(kinds@.take(i as int), EntryKind::File),
                counts.dirs == count_of(kinds@.take(i as int), EntryKind::Dir),
                counts.other == count_of(kinds@.take(i as int), EntryKind::Other),
            decreases kinds.len() - i,
        {
            proof {
                lemma_count_bound(kinds@.take(i as int), EntryKind::File);
                lemma_count_bound(kinds@.take(i as int), EntryKind::Dir);
                lemma_count_bound(kinds@.take(i as int), EntryKind::Other);
                assert(kinds@.take(i + 1).drop_last() =~= kinds@.take(i as int));
            }
            counts.record(kinds[i]);
            i += 1;
        }
        assert(kinds@.take(i as int) =~= kinds@);
        counts
    }
}

/// When the records of a run are written out.
#[derive(Debug, Clone, Copy, PartialEq, Eq, Structural)]
pub enum SinkMode {
    /// Each record as soon as its digest is final.
    Live,
    /// All records in one pass, once every worker is done.
    Batch,
    /// No record at all.
    Silent,
}

/// The sink mode that a configuration selects. Live output wins over
/// silence.
pub fn sink_mode(live_print: bool, silent: bool) -> (mode: SinkMode)
    ensures
        mode == (if live_print {
            SinkMode::Live
        } else if silent {
            SinkMode::Silent
        } else {
            SinkMode::Batch
        }),
{
    if live_print {
        SinkMode::Live
    } else if silent {
        SinkMode::Silent
    } else {
        SinkMode::Batch
    }
}

impl SinkMode {
    /// Whether a record is written the moment it is ready.
    pub fn emits_when_ready(&self) -> (emits: bool)
        ensures
            emits == (*self == SinkMode::Live),
    {
        match self {
            SinkMode::Live => true,
            _ => false,
        }
    }

    /// Whether the records are written after the pipeline has drained.
    pub fn emits_when_drained(&self) -> (emits: bool)
        ensures
            emits == (*self == SinkMode::Batch),
    {
        match self {
            SinkMode::Batch => true,
            _ => false,
        }
    }
}

/// A file as the path source and the reader hand it to the pipeline: its
/// path, and its content unless it could not be read.
#[derive(Debug, Clone)]
pub struct FileRead {
    pub path: String,
    pub content: Option<Vec<u8>>,
}

/// The (path, digest) pair that a file yields: none if it could not be
/// read.
pub open spec fn pair_of(algorithm: HashAlgorithm, file: FileRead) -> Option<
    (Seq<char>, Seq<char>),
> {
    match file.content {
        Some(content) => Some((file.path@, hex_digest(algorithm, content@))),
        None => None,
    }
}

/// The pairs that a list of files yields, in the order of the files.
pub open spec fn pairs_of(algorithm: HashAlgorithm, files: Seq<FileRead>) -> Seq<
    (Seq<char>, Seq<char>),
>
    decreases files.len(),
{
    if files.len() == 0 {
        Seq::empty()
    } else {
        let earlier = pairs_of(algorithm, files.drop_last());
        match pair_of(algorithm, files.last()) {
            Some(pair) => earlier.push(pair),
            None => earlier,
        }
    }
}

/// The number of files that could be read.
pub open spec fn readable(files: Seq<FileRead>) -> nat
    decreases files.len(),
{
    if files.len() == 0 {
        0
    } else {
        readable(files.drop_last()) + (if files.last().content is Some {
            1nat
        } else {
            0nat
        })
    }
}

/// The (path, digest) pairs that a list of records stands for.
pub open spec fn record_pairs(records: Seq<HashRecord>) -> Seq<(Seq<char>, Seq<char>)> {
    Seq::new(records.len(), |i: int| (records[i].path@, records[i].digest@))
}

/// The record for one file, or `None` for a file that could not be read:
/// such a file is dropped, and is no failure of the run.
pub fn record_for(algorithm: HashAlgorithm, file: &FileRead) -> (record: Option<HashRecord>)
    ensures
        crate::record::record_view(record) == pair_of(algorithm, *file),
        record matches Some(r) ==> r.digest@.len() == 2 * algorithm.spec_digest_size(),
{
    match &file.content {
        Some(content) => {
            let digest = hash_content(algorithm, content.as_slice());
            Some(HashRecord { path: file.path.clone(), digest })
        },
        None => None,
    }
}

/// Digests a list of files one after the other: the records of the files
/// that could be read, in the order of the files.
pub fn checksum_batch(algorithm: HashAlgorithm, files: &Vec<FileRead>) -> (records: Vec<
    HashRecord,
>)
    ensures
        record_pairs(records@) == pairs_of(algorithm, files@),
        records@.len() == readable(files@),
        forall|i: int|
            0 <= i < records@.len() ==> (#[trigger] records@[i]).digest@.len() == 2
                * algorithm.spec_digest_size(),
{
    let mut records: Vec<HashRecord> = Vec::new();
    let mut i: usize = 0;
    assert(record_pairs(records@) =~= pairs_of(algorithm, files@.take(0)));
    while i < files.len()
        invariant
            i <= files.len(),
            record_pairs(records@) == pairs_of(algorithm, files@.take(i as int)),
            records@.len() == readable(files@.take(i as int)),
            forall|n: int|
                0 <= n < records@.len() ==> (#[trigger] records@[n]).digest@.len() == 2
                    * algorithm.spec_digest_size(),
        decreases files.len() - i,
    {
        proof {
            assert(files@.take(i + 1).drop_last() =~= files@.take(i as int));
        }
        let ghost before = records@;
        match record_for(algorithm, &files[i]) {
            Some(record) => {
                records.push(record);
                assert(record_pairs(records@) =~= record_pairs(before).push(
                    (record.path@, record.digest@),
                ));
            },
            None => {},
        }
        i += 1;
    }
    assert(files@.take(i as int) =~= files@);
    records
}

/// A pair is among those that a list of files yields exactly if one of the
/// files yields it.
pub proof fn lemma_pairs_membership(
    algorithm: HashAlgorithm,
    files: Seq<FileRead>,
    pair: (Seq<char>, Seq<char>),
)
    ensures
        pairs_of(algorithm, files).contains(pair) <==> exists|i: int|
            0 <= i < files.len() && pair_of(algorithm, #[trigger] files[i]) == Some(pair),
    decreases files.len(),
{
    if files.len() > 0 {
        let head = files.drop_last();
        let earlier = pairs_of(algorithm, head);
        lemma_pairs_membership(algorithm, head, pair);
        if pairs_of(algorithm, files).contains(pair) {
            if earlier.contains(pair) {
                let i = choose|i: int|
                    0 <= i < head.len() && pair_of(algorithm, #[trigger] head[i]) == Some(pair);
                assert(files[i] == head[i]);
            } else {
                let n = choose|n: int|
                    0 <= n < pairs_of(algorithm, files).len() && pairs_of(algorithm, files)[n]
                        == pair;
                if n < earlier.len() {
                    assert(earlier[n] == pair);
                }
                assert(pair_of(algorithm, files[files.len() - 1]) == Some(pair));
            }
        }
        if exists|i: int|
            0 <= i < files.len() && pair_of(algorithm, #[trigger] files[i]) == Some(pair) {
            let i = choose|i: int|
                0 <= i < files.len() && pair_of(algorithm, #[trigger] files[i]) == Some(pair);
            if i < head.len() {
                assert(head[i] == files[i]);
                assert(earlier.contains(pair));
                let n = choose|n: int| 0 <= n < earlier.len() && earlier[n] == pair;
                assert(pairs_of(algorithm, files)[n] == pair);
            } else {
                assert(files.last() == files[i]);
                assert(pairs_of(algorithm, files)[earlier.len() as int] == pair);
            }
        }
    }
}

/// The set of emitted pairs depends on which files are handed in, not on
/// the order in which they are dealt with: two lists that hold the same
/// files yield the same set of pairs.
pub proof fn lemma_emitted_set_ignores_order(
    algorithm: HashAlgorithm,
    first: Seq<FileRead>,
    second: Seq<FileRead>,
)
    requires
        forall|i: int| 0 <= i < first.len() ==> second.contains(#[trigger] first[i]),
        forall|i: int| 0 <= i < second.len() ==> first.contains(#[trigger] second[i]),
    ensures
        pairs_of(algorithm, first).to_set() == pairs_of(algorithm, second).to_set(),
{
    assert forall|pair: (Seq<char>, Seq<char>)|
        pairs_of(algorithm, first).contains(pair) == pairs_of(algorithm, second).contains(
            pair,
        ) by {
        lemma_pairs_membership(algorithm, first, pair);
        lemma_pairs_membership(algorithm, second, pair);
        if pairs_of(algorithm, first).contains(pair) {
            let i = choose|i: int|
                0 <= i < first.len() && pair_of(algorithm, #[trigger] first[i]) == Some(pair);
            assert(second.contains(first[i]));
            let j = choose|j: int| 0 <= j < second.len() && second[j] == first[i];
            assert(pair_of(algorithm, second[j]) == Some(pair));
        }
        if pairs_of(algorithm, second).contains(pair) {
            let i = choose|i: int|
                0 <= i < second.len() && pair_of(algorithm, #[trigger] second[i]) == Some(pair);
            assert(first.contains(second[i]));
            let j = choose|j: int| 0 <= j < first.len() && first[j] == second[i];
            assert(pair_of(algorithm, first[j]) == Some(pair));
        }
    }
    assert(pairs_of(algorithm, first).to_set() =~= pairs_of(algorithm, second).to_set());
}

/// Every file that could be read yields exactly one record, and no other
/// record is made: there are as many pairs as readable files.
pub proof fn lemma_one_record_per_readable_file(algorithm: HashAlgorithm, files: Seq<FileRead>)
    ensures
        pairs_of(algorithm, files).len() == readable(files),
    decreases files.len(),
{
    if files.len() > 0 {
        lemma_one_record_per_readable_file(algorithm, files.drop_last());
    }
}

} // verus!
