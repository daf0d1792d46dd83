use crate::hex::{normalize, normalized};
use crate::index::{
    distinct_paths, holds_at, lemma_record_in_map, lemma_sorted_paths_distinct, HashIndex,
};
use crate::order::{
    lemma_text_lt_irreflexive, lemma_text_lt_total, lemma_text_lt_transitive, text_before, text_lt,
};
use crate::record::HashRecord;
use vstd::prelude::*;
use vstd::string::StringExecFns;

verus! {

/// The three ways in which a compared index can differ from the baseline on
/// one path.
#[derive(Debug, Clone, Copy, PartialEq, Eq, Structural)]
pub enum Category {
    /// Both hold the path, with different digests.
    Mismatch,
    /// The baseline holds the path, the compared index does not.
    Missing,
    /// The compared index holds the path, the baseline does not.
    Excess,
}

/// One reported difference. `source` is the position of the compared index
/// among the comparisons. `expected` is the baseline's digest for the path
/// and `actual` the compared index's, each present exactly if that side
/// holds the path.
#[derive(Debug, Clone)]
pub struct Discrepancy {
    pub path: String,
    pub source: usize,
    pub expected: Option<String>,
    pub actual: Option<String>,
}

/// The text of an optional digest, empty where there is none.
pub open spec fn text_or_empty(digest: Option<String>) -> Seq<char> {
    match digest {
        Some(d) => d@,
        None => Seq::empty(),
    }
}

/// The line that reports an entry of a category; `source_name` names the
/// compared index that the entry's source stands for.
pub open spec fn report_line(
    item: Discrepancy,
    category: Category,
    source_name: Seq<char>,
) -> Seq<char> {
    match category {
        Category::Mismatch => "[!("@ + source_name + ")] "@ + text_or_empty(item.actual)
            + " != "@ + text_or_empty(item.expected) + " == "@ + item.path@,
        Category::Missing => "[-("@ + source_name + ")] "@ + item.path@,
        Category::Excess => "[+("@ + source_name + ")] "@ + text_or_empty(item.actual) + " "@
            + item.path@,
    }
}

fn digest_text(digest: &Option<String>) -> (text: &str)
    ensures
        text@ == text_or_empty(*digest),
{
    match digest {
        Some(d) => d.as_str(),
        None => {
            proof {
                reveal_strlit("");
            }
            assert(""@ =~= Seq::<char>::empty());
            ""
        },
    }
}

impl Discrepancy {
    /// Writes the line that reports this entry under the given category.
    pub fn render(&self, category: Category, source_name: &str) -> (line: String)
        ensures
            line@ == report_line(*self, category, source_name@),
    {
        match category {
            Category::Mismatch => String::from_str("[!(").concat(source_name).concat(")] ").concat(
                digest_text(&self.actual),
            ).concat(" != ").concat(digest_text(&self.expected)).concat(" == ").concat(
                self.path.as_str(),
            ),
            Category::Missing => String::from_str("[-(").concat(source_name).concat(")] ").concat(
                self.path.as_str(),
            ),
            Category::Excess => String::from_str("[+(").concat(source_name).concat(")] ").concat(
                digest_text(&self.actual),
            ).concat(" ").concat(self.path.as_str()),
        }
    }
}

/// The outcome of a comparison: one list per category, each ordered by path
/// and then by source.
#[derive(Debug)]
pub struct DiffReport {
    pub mismatches: Vec<Discrepancy>,
    pub missing: Vec<Discrepancy>,
    pub excess: Vec<Discrepancy>,
}

/// The digest that an index records for a path, if any.
pub open spec fn lookup(index: Map<Seq<char>, Seq<char>>, path: Seq<char>) -> Option<Seq<char>> {
    if index.dom().contains(path) {
        Some(index[path])
    } else {
        None
    }
}

/// How a path is classified when one index is compared against the
/// baseline; `None` where the two agree on it. Digests are compared in
/// case-normalized form.
pub open spec fn classify(
    base: Map<Seq<char>, Seq<char>>,
    other: Map<Seq<char>, Seq<char>>,
    path: Seq<char>,
) -> Option<Category> {
    match (lookup(base, path), lookup(other, path)) {
        (Some(expected), Some(actual)) => if normalized(expected) != normalized(actual) {
            Some(Category::Mismatch)
        } else {
            None
        },
        (Some(_), None) => Some(Category::Missing),
        (None, Some(_)) => Some(Category::Excess),
        (None, None) => None,
    }
}

/// The text of an optional digest.
pub open spec fn text_of(digest: Option<String>) -> Option<Seq<char>> {
    match digest {
        Some(d) => Some(d@),
        None => None,
    }
}

/// What each of the compared indices stands for.
pub open spec fn index_views(comparisons: Seq<HashIndex>) -> Seq<Map<Seq<char>, Seq<char>>> {
    Seq::new(comparisons.len(), |k: int| comparisons[k]@)
}

/// Whether an entry rightly stands in the list of a category: its source is
/// one of the comparisons, that comparison classifies its path so, and its
/// digests are those that the two sides record.
pub open spec fn item_ok(
    item: Discrepancy,
    category: Category,
    base: Map<Seq<char>, Seq<char>>,
    others: Seq<Map<Seq<char>, Seq<char>>>,
) -> bool {
    &&& item.source < others.len()
    &&& classify(base, others[item.source as int], item.path@) == Some(category)
    &&& text_of(item.expected) == lookup(base, item.path@)
    &&& text_of(item.actual) == lookup(others[item.source as int], item.path@)
}

/// The reporting order: by path, then by source.
pub open spec fn key_lt(a: Discrepancy, b: Discrepancy) -> bool {
    text_lt(a.path@, b.path@) || (a.path@ == b.path@ && a.source < b.source)
}

/// Whether a list is in strictly ascending reporting order; such a list
/// names no path and source twice.
pub open spec fn sorted(list: Seq<Discrepancy>) -> bool {
    forall|i: int, j: int| 0 <= i < j < list.len() ==> key_lt(list[i], list[j])
}

/// Whether position `i` of a list reports the given path for the given
/// source.
pub open spec fn listed_at(list: Seq<Discrepancy>, path: Seq<char>, source: int, i: int) -> bool {
    0 <= i < list.len() && list[i].path@ == path && list[i].source == source
}

/// Whether a list reports the given path for the given source.
pub open spec fn listed(list: Seq<Discrepancy>, path: Seq<char>, source: int) -> bool {
    exists|i: int| listed_at(list, path, source, i)
}

/// Whether a path stands among the first `i` records.
spec fn seen_before(records: Seq<HashRecord>, i: int, path: Seq<char>) -> bool {
    exists|j: int| 0 <= j < i && holds_at(records, path, j)
}

/// The pairs of path and source that a comparison has dealt with once it is
/// done with the comparisons before `k` and with the first `i` of the given
/// records of comparison `k`.
spec fn in_scope(
    path: Seq<char>,
    source: int,
    k: int,
    records: Seq<HashRecord>,
    i: int,
) -> bool {
    source < k || (source == k && seen_before(records, i, path))
}

/// Whether a list is exactly the report of one category over the pairs in
/// scope: in order, holding only entries that belong, and all of them.
spec fn progress_ok(
    list: Seq<Discrepancy>,
    category: Category,
    base: Map<Seq<char>, Seq<char>>,
    others: Seq<Map<Seq<char>, Seq<char>>>,
    k: int,
    records: Seq<HashRecord>,
    i: int,
) -> bool {
    &&& sorted(list)
    &&& forall|n: int|
        0 <= n < list.len() ==> item_ok(#[trigger] list[n], category, base, others) && in_scope(
            list[n].path@,
            list[n].source as int,
            k,
            records,
            i,
        )
    &&& forall|path: Seq<char>, source: int|
        0 <= source < others.len() && in_scope(path, source, k, records, i) && #[trigger] classify(
            base,
            others[source],
            path,
        ) == Some(category) ==> listed(list, path, source)
}

/// Whether a list is the complete report of one category: in strictly
/// ascending order by path and source, holding an entry for each path and
/// comparison that fall under the category, and no other entry.
pub open spec fn category_report(
    list: Seq<Discrepancy>,
    category: Category,
    base: Map<Seq<char>, Seq<char>>,
    others: Seq<Map<Seq<char>, Seq<char>>>,
) -> bool {
    &&& sorted(list)
    &&& forall|n: int| 0 <= n < list.len() ==> item_ok(#[trigger] list[n], category, base, others)
    &&& forall|path: Seq<char>, source: int|
        0 <= source < others.len() && #[trigger] classify(base, others[source], path) == Some(
            category,
        ) ==> listed(list, path, source)
}

impl DiffReport {
    /// Whether this is the report of comparing each of `others` against
    /// `base`.
    pub open spec fn describes(
        &self,
        base: Map<Seq<char>, Seq<char>>,
        others: Seq<Map<Seq<char>, Seq<char>>>,
    ) -> bool {
        &&& category_report(self.mismatches@, Category::Mismatch, base, others)
        &&& category_report(self.missing@, Category::Missing, base, others)
        &&& category_report(self.excess@, Category::Excess, base, others)
    }

    /// The total number of discrepancies.
    pub open spec fn spec_total(&self) -> nat {
        self.mismatches@.len() + self.missing@.len() + self.excess@.len()
    }

    /// The total number of discrepancies: mismatches, missing and excess
    /// entries over all comparisons.
    pub fn total(&self) -> (count: u128)
        ensures
            count == self.spec_total(),
    {
        self.mismatches.len() as u128 + self.missing.len() as u128 + self.excess.len() as u128
    }

    /// Whether the comparison found nothing: the validation succeeded.
    pub fn is_clean(&self) -> (clean: bool)
        ensures
            clean == (self.spec_total() == 0),
    {
        self.mismatches.len() == 0 && self.missing.len() == 0 && self.excess.len() == 0
    }
}

proof fn lemma_key_lt_transitive(a: Discrepancy, b: Discrepancy, c: Discrepancy)
    requires
        key_lt(a, b),
        key_lt(b, c),
    ensures
        key_lt(a, c),
{
    if text_lt(a.path@, b.path@) && text_lt(b.path@, c.path@) {
        lemma_text_lt_transitive(a.path@, b.path@, c.path@);
    }
}

proof fn lemma_key_lt_total(a: Discrepancy, b: Discrepancy)
    requires
        !(a.path@ == b.path@ && a.source == b.source),
    ensures
        key_lt(a, b) || key_lt(b, a),
{
    if a.path@ != b.path@ {
        lemma_text_lt_total(a.path@, b.path@);
    }
}

fn key_before(a: &Discrepancy, b: &Discrepancy) -> (before: bool)
    ensures
        before == key_lt(*a, *b),
{
    if text_before(a.path.as_str(), b.path.as_str()) {
        true
    } else if a.path == b.path {
        a.source < b.source
    } else {
        false
    }
}

/// Leaving out a record that does not fall under a list's category keeps
/// the list right for the larger scope.
proof fn lemma_step_skip(
    list: Seq<Discrepancy>,
    category: Category,
    base: Map<Seq<char>, Seq<char>>,
    others: Seq<Map<Seq<char>, Seq<char>>>,
    k: int,
    records: Seq<HashRecord>,
    i: int,
)
    requires
        progress_ok(list, category, base, others, k, records, i),
        0 <= i < records.len(),
        0 <= k < others.len(),
        classify(base, others[k], records[i].path@) != Some(category),
    ensures
        progress_ok(list, category, base, others, k, records, i + 1),
{
    assert forall|n: int| 0 <= n < list.len() implies in_scope(
        (#[trigger] list[n]).path@,
        list[n].source as int,
        k,
        records,
        i + 1,
    ) by {
        lemma_scope_grows(list[n].path@, list[n].source as int, k, records, i);
    }
    assert forall|path: Seq<char>, source: int|
        0 <= source < others.len() && in_scope(path, source, k, records, i + 1)
            && #[trigger] classify(base, others[source], path) == Some(category) implies listed(
        list,
        path,
        source,
    ) by {
        if !in_scope(path, source, k, records, i) {
            let j = choose|j: int| 0 <= j < i + 1 && holds_at(records, path, j);
            if j < i {
                assert(seen_before(records, i, path));
            }
            assert(j == i);
        }
    }
}

proof fn lemma_scope_grows(path: Seq<char>, source: int, k: int, records: Seq<HashRecord>, i: int)
    requires
        in_scope(path, source, k, records, i),
    ensures
        in_scope(path, source, k, records, i + 1),
{
    if source == k {
        let j = choose|j: int| 0 <= j < i && holds_at(records, path, j);
        assert(0 <= j < i + 1 && holds_at(records, path, j));
    }
}

/// Puts an entry for record `i` of comparison `k` in its place in the list.
fn insert_sorted(
    list: &mut Vec<Discrepancy>,
    item: Discrepancy,
    Ghost(category): Ghost<Category>,
    Ghost(base): Ghost<Map<Seq<char>, Seq<char>>>,
    Ghost(others): Ghost<Seq<Map<Seq<char>, Seq<char>>>>,
    Ghost(records): Ghost<Seq<HashRecord>>,
    Ghost(i): Ghost<int>,
)
    requires
        progress_ok(old(list)@, category, base, others, item.source as int, records, i),
        distinct_paths(records),
        0 <= i < records.len(),
        records[i].path@ == item.path@,
        item_ok(item, category, base, others),
    ensures
        progress_ok(final(list)@, category, base, others, item.source as int, records, i + 1),
{
    let ghost before = list@;
    let ghost k = item.source as int;
    let ghost it = item;
    proof {
        // The entry's path and source are not yet listed.
        assert forall|n: int| 0 <= n < before.len() implies !(before[n].path@ == it.path@
            && before[n].source == it.source) by {
            if before[n].path@ == it.path@ && before[n].source == it.source {
                assert(in_scope(before[n].path@, before[n].source as int, k, records, i));
                let j = choose|j: int| 0 <= j < i && holds_at(records, it.path@, j);
                assert(records[j].path@ == records[i].path@);
            }
        }
    }
    let mut low: usize = 0;
    let mut high: usize = list.len();
    while low < high
        invariant
            list@ == before,
            sorted(before),
            low <= high <= before.len(),
            forall|n: int|
                0 <= n < before.len() ==> !((#[trigger] before[n]).path@ == item.path@
                    && before[n].source == item.source),
            forall|n: int| 0 <= n < low ==> key_lt(before[n], item),
            forall|n: int| high <= n < before.len() ==> key_lt(item, before[n]),
        decreases high - low,
    {
        let mid: usize = low + (high - low) / 2;
        if key_before(&list[mid], &item) {
            proof {
                assert forall|n: int| 0 <= n < mid + 1 implies key_lt(before[n], item) by {
                    if n < mid {
                        lemma_key_lt_transitive(before[n], before[mid as int], item);
                    }
                }
            }
            low = mid + 1;
        } else {
            proof {
                lemma_key_lt_total(before[mid as int], item);
                assert forall|n: int| mid <= n < before.len() implies key_lt(item, before[n]) by {
                    if n > mid {
                        lemma_key_lt_transitive(item, before[mid as int], before[n]);
                    }
                }
            }
            high = mid;
        }
    }
    let pos: usize = low;
    list.insert(pos, item);
    proof {
        let after = list@;
        assert(after == before.insert(pos as int, it));
        assert forall|a: int, b: int| 0 <= a < b < after.len() implies key_lt(
            after[a],
            after[b],
        ) by {
            if a != pos {
                assert(after[a] == before[if a < pos { a } else { a - 1 }]);
            }
            if b != pos {
                assert(after[b] == before[if b < pos { b } else { b - 1 }]);
            }
        }
        assert forall|n: int| 0 <= n < after.len() implies item_ok(
            #[trigger] after[n],
            category,
            base,
            others,
        ) && in_scope(after[n].path@, after[n].source as int, k, records, i + 1) by {
            if n == pos {
                assert(holds_at(records, it.path@, i));
                assert(seen_before(records, i + 1, it.path@));
            } else {
                let m = if n < pos {
                    n
                } else {
                    n - 1
                };
                assert(after[n] == before[m]);
                lemma_scope_grows(before[m].path@, before[m].source as int, k, records, i);
            }
        }
        assert forall|path: Seq<char>, source: int|
            0 <= source < others.len() && in_scope(path, source, k, records, i + 1)
                && #[trigger] classify(base, others[source], path) == Some(
                category,
            ) implies listed(after, path, source) by {
            if path == it.path@ && source == k {
                assert(listed_at(after, path, source, pos as int));
            } else {
                if !in_scope(path, source, k, records, i) {
                    let j = choose|j: int| 0 <= j < i + 1 && holds_at(records, path, j);
                    if j < i {
                        assert(seen_before(records, i, path));
                    }
                    assert(j == i);
                }
                assert(listed(before, path, source));
                let m = choose|m: int| listed_at(before, path, source, m);
                if m < pos {
                    assert(listed_at(after, path, source, m));
                } else {
                    assert(after[m + 1] == before[m]);
                    assert(listed_at(after, path, source, m + 1));
                }
            }
        }
    }
}

/// Once every record of a comparison has been dealt with, a list is right
/// for the scope of the next comparison.
proof fn lemma_advance(
    list: Seq<Discrepancy>,
    category: Category,
    base: Map<Seq<char>, Seq<char>>,
    others: Seq<Map<Seq<char>, Seq<char>>>,
    k: int,
    records: Seq<HashRecord>,
    next: Seq<HashRecord>,
)
    requires
        progress_ok(list, category, base, others, k, records, records.len() as int),
        0 <= k < others.len(),
        forall|path: Seq<char>|
            #[trigger] classify(base, others[k], path) == Some(category) ==> exists|j: int|
                holds_at(records, path, j),
    ensures
        progress_ok(list, category, base, others, k + 1, next, 0),
{
    assert forall|path: Seq<char>, source: int|
        0 <= source < others.len() && in_scope(path, source, k + 1, next, 0)
            && #[trigger] classify(base, others[source], path) == Some(category) implies listed(
        list,
        path,
        source,
    ) by {
        if source == k {
            let j = choose|j: int| holds_at(records, path, j);
            assert(0 <= j < records.len() && holds_at(records, path, j));
            assert(seen_before(records, records.len() as int, path));
        }
        assert(in_scope(path, source, k, records, records.len() as int));
    }
}

/// A list that is right for a scope stays right when the records of that
/// scope are exchanged while none of them has been dealt with.
proof fn lemma_rebase(
    list: Seq<Discrepancy>,
    category: Category,
    base: Map<Seq<char>, Seq<char>>,
    others: Seq<Map<Seq<char>, Seq<char>>>,
    k: int,
    records: Seq<HashRecord>,
    next: Seq<HashRecord>,
)
    requires
        progress_ok(list, category, base, others, k, records, 0),
    ensures
        progress_ok(list, category, base, others, k, next, 0),
{
    assert forall|n: int| 0 <= n < list.len() implies in_scope(
        (#[trigger] list[n]).path@,
        list[n].source as int,
        k,
        next,
        0,
    ) by {
        assert(in_scope(list[n].path@, list[n].source as int, k, records, 0));
    }
    assert forall|path: Seq<char>, source: int|
        0 <= source < others.len() && in_scope(path, source, k, next, 0) && #[trigger] classify(
            base,
            others[source],
            path,
        ) == Some(category) implies listed(list, path, source) by {
        assert(in_scope(path, source, k, records, 0));
    }
}

/// Compares each of the given indices against the baseline, each on its
/// own. The report lists, per category and in order of path and then of
/// position among the comparisons, every path on which a compared index
/// differs from the baseline, and nothing else.
pub fn diff(baseline: &HashIndex, comparisons: &Vec<HashIndex>) -> (report: DiffReport)
    requires
        baseline.wf(),
        forall|k: int| 0 <= k < comparisons@.len() ==> (#[trigger] comparisons@[k]).wf(),
    ensures
        report.describes(baseline@, index_views(comparisons@)),
{
    let ghost base = baseline@;
    let ghost others = index_views(comparisons@);
    let ghost base_records = baseline.records();
    let mut mismatches: Vec<Discrepancy> = Vec::new();
    let mut missing: Vec<Discrepancy> = Vec::new();
    let mut excess: Vec<Discrepancy> = Vec::new();
    let count: usize = baseline.len();
    let mut k: usize = 0;
    while k < comparisons.len()
        invariant
            k <= comparisons.len(),
            baseline.wf(),
            forall|n: int| 0 <= n < comparisons@.len() ==> (#[trigger] comparisons@[n]).wf(),
            base == baseline@,
            others == index_views(comparisons@),
            base_records == baseline.records(),
            count == base_records.len(),
            progress_ok(mismatches@, Category::Mismatch, base, others, k as int, base_records, 0),
            progress_ok(missing@, Category::Missing, base, others, k as int, base_records, 0),
            progress_ok(excess@, Category::Excess, base, others, k as int, base_records, 0),
        decreases comparisons.len() - k,
    {
        let other = &comparisons[k];
        let ghost other_records = other.records();
        assert(others[k as int] == other@);
        let mut i: usize = 0;
        while i < count
            invariant
                i <= count,
                k < comparisons.len(),
                baseline.wf(),
                other.wf(),
                *other == comparisons@[k as int],
                base == baseline@,
                others == index_views(comparisons@),
                others[k as int] == other@,
                base_records == baseline.records(),
                count == base_records.len(),
                progress_ok(
                    mismatches@,
                    Category::Mismatch,
                    base,
                    others,
                    k as int,
                    base_records,
                    i as int,
                ),
                progress_ok(
                    missing@,
                    Category::Missing,
                    base,
                    others,
                    k as int,
                    base_records,
                    i as int,
                ),
            decreases count - i,
        {
            let record = baseline.record(i);
            proof {
                lemma_sorted_paths_distinct(base_records);
                lemma_record_in_map(base_records, i as int);
            }
            match other.get(record.path.as_str()) {
                Some(found) => {
                    let differs = if *found == record.digest {
                        false
                    } else {
                        !(normalize(found.as_str()) == normalize(record.digest.as_str()))
                    };
                    if differs {
                        let item = Discrepancy {
                            path: record.path.clone(),
                            source: k,
                            expected: Some(record.digest.clone()),
                            actual: Some(found.clone()),
                        };
                        insert_sorted(
                            &mut mismatches,
                            item,
                            Ghost(Category::Mismatch),
                            Ghost(base),
                            Ghost(others),
                            Ghost(base_records),
                            Ghost(i as int),
                        );
                    } else {
                        proof {
                            lemma_step_skip(
                                mismatches@,
                                Category::Mismatch,
                                base,
                                others,
                                k as int,
                                base_records,
                                i as int,
                            );
                        }
                    }
                    proof {
                        lemma_step_skip(
                            missing@,
                            Category::Missing,
                            base,
                            others,
                            k as int,
                            base_records,
                            i as int,
                        );
                    }
                },
                None => {
                    let item = Discrepancy {
                        path: record.path.clone(),
                        source: k,
                        expected: Some(record.digest.clone()),
                        actual: None,
                    };
                    insert_sorted(
                        &mut missing,
                        item,
                        Ghost(Category::Missing),
                        Ghost(base),
                        Ghost(others),
                        Ghost(base_records),
                        Ghost(i as int),
                    );
                    proof {
                        lemma_step_skip(
                            mismatches@,
                            Category::Mismatch,
                            base,
                            others,
                            k as int,
                            base_records,
                            i as int,
                        );
                    }
                },
            }
            i += 1;
        }
        proof {
            lemma_advance(
                mismatches@,
                Category::Mismatch,
                base,
                others,
                k as int,
                base_records,
                base_records,
            );
            lemma_advance(
                missing@,
                Category::Missing,
                base,
                others,
                k as int,
                base_records,
                base_records,
            );
            lemma_rebase(
                excess@,
                Category::Excess,
                base,
                others,
                k as int,
                base_records,
                other_records,
            );
        }
        let other_count: usize = other.len();
        let mut j: usize = 0;
        while j < other_count
            invariant
                j <= other_count,
                k < comparisons.len(),
                baseline.wf(),
                other.wf(),
                base == baseline@,
                others == index_views(comparisons@),
                others[k as int] == other@,
                other_records == other.records(),
                other_count == other_records.len(),
                progress_ok(
                    excess@,
                    Category::Excess,
                    base,
                    others,
                    k as int,
                    other_records,
                    j as int,
                ),
            decreases other_count - j,
        {
            let record = other.record(j);
            proof {
                lemma_sorted_paths_distinct(other_records);
                lemma_record_in_map(other_records, j as int);
            }
            if !baseline.contains_key(record.path.as_str()) {
                let item = Discrepancy {
                    path: record.path.clone(),
                    source: k,
                    expected: None,
                    actual: Some(record.digest.clone()),
                };
                insert_sorted(
                    &mut excess,
                    item,
                    Ghost(Category::Excess),
                    Ghost(base),
                    Ghost(others),
                    Ghost(other_records),
                    Ghost(j as int),
                );
            } else {
                proof {
                    lemma_step_skip(
                        excess@,
                        Category::Excess,
                        base,
                        others,
                        k as int,
                        other_records,
                        j as int,
                    );
                }
            }
            j += 1;
        }
        proof {
            lemma_advance(
                excess@,
                Category::Excess,
                base,
                others,
                k as int,
                other_records,
                base_records,
            );
        }
        k += 1;
    }
    DiffReport { mismatches, missing, excess }
}

/// Whether two entries report the same thing: the same path for the same
/// source, with the same digests.
pub open spec fn same_entry(a: Discrepancy, b: Discrepancy) -> bool {
    &&& a.path@ == b.path@
    &&& a.source == b.source
    &&& text_of(a.expected) == text_of(b.expected)
    &&& text_of(a.actual) == text_of(b.actual)
}

proof fn lemma_key_lt_irreflexive(a: Discrepancy, b: Discrepancy)
    requires
        key_lt(a, b),
    ensures
        !(a.path@ == b.path@ && a.source == b.source),
{
    lemma_text_lt_irreflexive(a.path@);
}

/// Two lists in strictly ascending order that report the same paths for the
/// same sources do so position by position.
proof fn lemma_sorted_same_keys(a: Seq<Discrepancy>, b: Seq<Discrepancy>)
    requires
        sorted(a),
        sorted(b),
        forall|i: int| 0 <= i < a.len() ==> listed(b, (#[trigger] a[i]).path@, a[i].source as int),
        forall|i: int| 0 <= i < b.len() ==> listed(a, (#[trigger] b[i]).path@, b[i].source as int),
    ensures
        a.len() == b.len(),
        forall|i: int|
            0 <= i < a.len() ==> (#[trigger] a[i]).path@ == b[i].path@ && a[i].source
                == b[i].source,
    decreases a.len(),
{
    if a.len() == 0 {
        if b.len() > 0 {
            let m = choose|m: int| listed_at(a, b[0].path@, b[0].source as int, m);
            assert(listed_at(a, b[0].path@, b[0].source as int, m));
        }
    } else {
        let la = a.len() - 1;
        let m = choose|m: int| listed_at(b, a[la].path@, a[la].source as int, m);
        assert(listed_at(b, a[la].path@, a[la].source as int, m));
        let lb = b.len() - 1;
        let n = choose|n: int| listed_at(a, b[lb].path@, b[lb].source as int, n);
        assert(listed_at(a, b[lb].path@, b[lb].source as int, n));
        if m < lb {
            // a's last entry stands before b's last, which a holds at n.
            assert(key_lt(b[m], b[lb]));
            if n < la {
                assert(key_lt(a[n], a[la]));
                lemma_text_lt_irreflexive(a[n].path@);
                if text_lt(b[m].path@, b[lb].path@) && text_lt(a[n].path@, a[la].path@) {
                    lemma_text_lt_transitive(a[n].path@, a[la].path@, a[n].path@);
                }
            } else {
                lemma_key_lt_irreflexive(b[m], b[lb]);
            }
            assert(false);
        }
        let a0 = a.drop_last();
        let b0 = b.drop_last();
        assert forall|i: int| 0 <= i < a0.len() implies listed(
            b0,
            (#[trigger] a0[i]).path@,
            a0[i].source as int,
        ) by {
            let j = choose|j: int| listed_at(b, a[i].path@, a[i].source as int, j);
            assert(listed_at(b, a[i].path@, a[i].source as int, j));
            if j == lb {
                assert(key_lt(a[i], a[la]));
                lemma_key_lt_irreflexive(a[i], a[la]);
            }
            assert(listed_at(b0, a0[i].path@, a0[i].source as int, j));
        }
        assert forall|i: int| 0 <= i < b0.len() implies listed(
            a0,
            (#[trigger] b0[i]).path@,
            b0[i].source as int,
        ) by {
            let j = choose|j: int| listed_at(a, b[i].path@, b[i].source as int, j);
            assert(listed_at(a, b[i].path@, b[i].source as int, j));
            if j == la {
                assert(key_lt(b[i], b[lb]));
                lemma_key_lt_irreflexive(b[i], b[lb]);
            }
            assert(listed_at(a0, b0[i].path@, b0[i].source as int, j));
        }
        assert(sorted(a0)) by {
            assert forall|i: int, j: int| 0 <= i < j < a0.len() implies key_lt(a0[i], a0[j]) by {
                assert(key_lt(a[i], a[j]));
            }
        }
        assert(sorted(b0)) by {
            assert forall|i: int, j: int| 0 <= i < j < b0.len() implies key_lt(b0[i], b0[j]) by {
                assert(key_lt(b[i], b[j]));
            }
        }
        lemma_sorted_same_keys(a0, b0);
        assert forall|i: int| 0 <= i < a.len() implies (#[trigger] a[i]).path@ == b[i].path@
            && a[i].source == b[i].source by {
            if i < la {
                assert(a0[i] == a[i] && b0[i] == b[i]);
            }
        }
    }
}

/// The report of a category is determined by the indices compared: any two
/// lists that are the report of the same comparison have the same length
/// and hold the same entries in the same places.
pub proof fn lemma_report_unique(
    first: Seq<Discrepancy>,
    second: Seq<Discrepancy>,
    category: Category,
    base: Map<Seq<char>, Seq<char>>,
    others: Seq<Map<Seq<char>, Seq<char>>>,
)
    requires
        category_report(first, category, base, others),
        category_report(second, category, base, others),
    ensures
        first.len() == second.len(),
        forall|i: int| 0 <= i < first.len() ==> same_entry(#[trigger] first[i], second[i]),
{
    lemma_sorted_same_keys(first, second);
    assert forall|i: int| 0 <= i < first.len() implies same_entry(
        #[trigger] first[i],
        second[i],
    ) by {
        assert(item_ok(first[i], category, base, others));
        assert(item_ok(second[i], category, base, others));
    }
}

/// A list reports a path for a source exactly if that comparison classifies
/// the path under the list's category.
pub proof fn lemma_listed_iff_classified(
    list: Seq<Discrepancy>,
    category: Category,
    base: Map<Seq<char>, Seq<char>>,
    others: Seq<Map<Seq<char>, Seq<char>>>,
    path: Seq<char>,
    source: int,
)
    requires
        category_report(list, category, base, others),
    ensures
        listed(list, path, source) <==> 0 <= source < others.len() && classify(
            base,
            others[source],
            path,
        ) == Some(category),
{
    if listed(list, path, source) {
        let i = choose|i: int| listed_at(list, path, source, i);
        assert(item_ok(list[i], category, base, others));
    }
}

/// An index compared against itself, any number of times over, differs
/// nowhere: the report has no mismatch, nothing missing, no excess, and a
/// total of zero.
pub proof fn lemma_self_comparison_is_clean(
    report: DiffReport,
    index: Map<Seq<char>, Seq<char>>,
    others: Seq<Map<Seq<char>, Seq<char>>>,
)
    requires
        report.describes(index, others),
        forall|k: int| 0 <= k < others.len() ==> #[trigger] others[k] == index,
    ensures
        report.mismatches@.len() == 0,
        report.missing@.len() == 0,
        report.excess@.len() == 0,
        report.spec_total() == 0,
{
    if report.mismatches@.len() > 0 {
        assert(item_ok(report.mismatches@[0], Category::Mismatch, index, others));
    }
    if report.missing@.len() > 0 {
        assert(item_ok(report.missing@[0], Category::Missing, index, others));
    }
    if report.excess@.len() > 0 {
        assert(item_ok(report.excess@[0], Category::Excess, index, others));
    }
}

/// Moving an entry from the baseline to the compared index turns a missing
/// path into an excess one.
pub proof fn lemma_moved_entry_flips(
    base: Map<Seq<char>, Seq<char>>,
    other: Map<Seq<char>, Seq<char>>,
    path: Seq<char>,
)
    requires
        classify(base, other, path) == Some(Category::Missing),
    ensures
        classify(base.remove(path), other.insert(path, base[path]), path) == Some(
            Category::Excess,
        ),
{
}

/// No path is reported under two categories for the same comparison; in
/// particular never as both missing and excess.
pub proof fn lemma_categories_exclude_each_other(
    report: DiffReport,
    base: Map<Seq<char>, Seq<char>>,
    others: Seq<Map<Seq<char>, Seq<char>>>,
    path: Seq<char>,
    source: int,
)
    requires
        report.describes(base, others),
    ensures
        !(listed(report.missing@, path, source) && listed(report.excess@, path, source)),
        !(listed(report.mismatches@, path, source) && listed(report.missing@, path, source)),
        !(listed(report.mismatches@, path, source) && listed(report.excess@, path, source)),
{
    lemma_listed_iff_classified(report.mismatches@, Category::Mismatch, base, others, path, source);
    lemma_listed_iff_classified(report.missing@, Category::Missing, base, others, path, source);
    lemma_listed_iff_classified(report.excess@, Category::Excess, base, others, path, source);
}

} // verus!
