//! The ranked report: measurements in rising order of the flash they take,
//! as a markdown table.

use crate::decimal::{decimal, decimal_string};
use crate::sizes::{SizeRecord, SizeResult, MISSING};
use vstd::prelude::*;
use vstd::set_lib::{
    lemma_int_range, lemma_len_subset, lemma_subset_equality, set_int_range,
};
use vstd::string::StringExecFns;

verus! {

/// Whether the measurement at position `i` stands before the one at `j` in
/// the ranking: it takes less flash, or as much and was made earlier.
pub open spec fn ranks_before(totals: Seq<nat>, i: int, j: int) -> bool {
    totals[i] < totals[j] || (totals[i] == totals[j] && i < j)
}

/// `order` with the position `p` put behind the last position whose
/// measurement takes no more flash than that at `p`.
pub open spec fn placed(order: Seq<int>, totals: Seq<nat>, p: int) -> Seq<int>
    decreases order.len(),
{
    if order.len() > 0 && totals[order.last()] > totals[p] {
        placed(order.drop_last(), totals, p).push(order.last())
    } else {
        order.push(p)
    }
}

/// The ranking of the first `n` measurements: their positions in the rising
/// order of their totals; measurements with the same total keep the order in
/// which they were made.
pub open spec fn ranking_of_first(totals: Seq<nat>, n: nat) -> Seq<int>
    decreases n,
{
    if n == 0 {
        Seq::empty()
    } else {
        placed(ranking_of_first(totals, (n - 1) as nat), totals, n - 1)
    }
}

/// The ranking of all the measurements.
pub open spec fn ranking(totals: Seq<nat>) -> Seq<int> {
    ranking_of_first(totals, totals.len())
}

/// The totals of the records, each at its record's position.
pub open spec fn totals_of(records: Seq<SizeRecord>) -> Seq<nat> {
    Seq::new(records.len(), |i: int| records[i].total())
}

/// The records in the order of the ranking.
pub open spec fn ranked(records: Seq<SizeRecord>) -> Seq<SizeRecord> {
    let order = ranking(totals_of(records));
    Seq::new(order.len(), |k: int| records[order[k]])
}

/// Putting `p` in at `at` is `placed`, where all positions from `at` on take
/// more flash than `p` and the one before `at`, if there is one, does not.
proof fn lemma_placed_at(order: Seq<int>, totals: Seq<nat>, p: int, at: int)
    requires
        0 <= at <= order.len(),
        forall|k: int| at <= k < order.len() ==> totals[#[trigger] order[k]] > totals[p],
        at > 0 ==> totals[order[at - 1]] <= totals[p],
    ensures
        placed(order, totals, p) == order.insert(at, p),
    decreases order.len() - at,
{
    if at == order.len() {
        assert(order.insert(at, p) =~= order.push(p));
        if at > 0 {
            assert(order.last() == order[at - 1]);
        }
    } else {
        let shorter = order.drop_last();
        assert(totals[order[order.len() - 1]] > totals[p]);
        assert forall|k: int| at <= k < shorter.len() implies totals[#[trigger] shorter[k]]
            > totals[p] by {
            assert(shorter[k] == order[k]);
        }
        if at > 0 {
            assert(shorter[at - 1] == order[at - 1]);
        }
        lemma_placed_at(shorter, totals, p, at);
        assert(shorter.insert(at, p).push(order.last()) =~= order.insert(at, p));
    }
}

/// Whether `order` holds each of the positions below `n` once and nothing else.
pub open spec fn is_arrangement(order: Seq<int>, n: nat) -> bool {
    &&& order.len() == n
    &&& forall|k: int| 0 <= k < order.len() ==> 0 <= #[trigger] order[k] < n
    &&& forall|a: int, b: int| 0 <= a < b < order.len() ==> order[a] != order[b]
}

/// Whether each position in `order` ranks before those behind it.
pub open spec fn is_ranked(order: Seq<int>, totals: Seq<nat>) -> bool {
    forall|a: int, b: int|
        0 <= a < b < order.len() ==> ranks_before(totals, #[trigger] order[a], #[trigger] order[b])
}

/// Placing a position that is above all those placed keeps the ranking.
proof fn lemma_placed_ranked(order: Seq<int>, totals: Seq<nat>, p: int)
    requires
        is_ranked(order, totals),
        forall|k: int| 0 <= k < order.len() ==> 0 <= #[trigger] order[k] < p,
        0 <= p < totals.len(),
    ensures
        is_ranked(placed(order, totals, p), totals),
        placed(order, totals, p).len() == order.len() + 1,
        forall|k: int|
            0 <= k < placed(order, totals, p).len() ==> 0 <= #[trigger] placed(order, totals, p)[k]
                <= p,
        forall|a: int, b: int|
            0 <= a < b < placed(order, totals, p).len() ==> placed(order, totals, p)[a] != placed(
                order,
                totals,
                p,
            )[b],
        forall|k: int|
            0 <= k < placed(order, totals, p).len() && placed(order, totals, p)[k] != p
                ==> order.contains(#[trigger] placed(order, totals, p)[k]),
        placed(order, totals, p).contains(p),
    decreases order.len(),
{
    let result = placed(order, totals, p);
    if order.len() > 0 && totals[order.last()] > totals[p] {
        let shorter = order.drop_last();
        let last = order.last();
        let inner = placed(shorter, totals, p);
        assert forall|a: int, b: int| 0 <= a < b < shorter.len() implies ranks_before(
            totals,
            #[trigger] shorter[a],
            #[trigger] shorter[b],
        ) by {
            assert(shorter[a] == order[a] && shorter[b] == order[b]);
        }
        assert forall|k: int| 0 <= k < shorter.len() implies 0 <= #[trigger] shorter[k] < p by {
            assert(shorter[k] == order[k]);
        }
        lemma_placed_ranked(shorter, totals, p);
        assert(result == inner.push(last));
        assert(0 <= order[order.len() - 1] < p);
        assert forall|a: int, b: int| 0 <= a < b < result.len() implies ranks_before(
            totals,
            #[trigger] result[a],
            #[trigger] result[b],
        ) && result[a] != result[b] by {
            if b < inner.len() {
                assert(result[a] == inner[a] && result[b] == inner[b]);
            } else {
                assert(result[b] == last);
                assert(result[a] == inner[a]);
                if inner[a] == p {
                } else {
                    assert(shorter.contains(inner[a]));
                    let w = choose|w: int| 0 <= w < shorter.len() && shorter[w] == inner[a];
                    assert(order[w] == inner[a]);
                    assert(ranks_before(totals, order[w], order[order.len() - 1]));
                }
            }
        }
        assert forall|k: int| 0 <= k < result.len() implies 0 <= #[trigger] result[k] <= p by {
            if k < inner.len() {
                assert(result[k] == inner[k]);
            }
        }
        assert forall|k: int| 0 <= k < result.len() && result[k] != p implies order.contains(
            #[trigger] result[k],
        ) by {
            if k < inner.len() {
                assert(result[k] == inner[k]);
                assert(shorter.contains(inner[k]));
                let w = choose|w: int| 0 <= w < shorter.len() && shorter[w] == inner[k];
                assert(order[w] == inner[k]);
            } else {
                assert(order[order.len() - 1] == result[k]);
            }
        }
        let at = choose|at: int| 0 <= at < inner.len() && inner[at] == p;
        assert(result[at] == p);
    } else {
        assert(result == order.push(p));
        assert forall|a: int, b: int| 0 <= a < b < result.len() implies ranks_before(
            totals,
            #[trigger] result[a],
            #[trigger] result[b],
        ) && result[a] != result[b] by {
            assert(result[a] == order[a]);
            assert(0 <= order[a] < p);
            if b < order.len() {
                assert(result[b] == order[b]);
            } else {
                assert(result[b] == p);
                assert(ranks_before(totals, order[a], order[order.len() - 1]) || a == order.len()
                    - 1);
                assert(totals[order[order.len() - 1]] <= totals[p]);
            }
        }
        assert forall|k: int| 0 <= k < result.len() && result[k] != p implies order.contains(
            #[trigger] result[k],
        ) by {
            assert(result[k] == order[k]);
        }
        assert forall|k: int| 0 <= k < result.len() implies 0 <= #[trigger] result[k] <= p by {
            if k < order.len() {
                assert(result[k] == order[k]);
            } else {
                assert(result[k] == p);
            }
        }
        assert(result[order.len() as int] == p);
    }
}

/// The ranking of the first `n` measurements holds each of their positions
/// once, and each of them ranks before those behind it.
pub proof fn lemma_ranking_of_first(totals: Seq<nat>, n: nat)
    requires
        n <= totals.len(),
    ensures
        is_arrangement(ranking_of_first(totals, n), n),
        is_ranked(ranking_of_first(totals, n), totals),
    decreases n,
{
    if n > 0 {
        lemma_ranking_of_first(totals, (n - 1) as nat);
        lemma_placed_ranked(ranking_of_first(totals, (n - 1) as nat), totals, n - 1);
    }
}

/// The law of the ranking. It holds each position once; along it the totals
/// never fall; and of two measurements with the same total the one made
/// earlier comes first.
pub proof fn lemma_ranking_stable(totals: Seq<nat>)
    ensures
        is_arrangement(ranking(totals), totals.len()),
        forall|a: int, b: int|
            0 <= a < b < totals.len() ==> {
                let first = #[trigger] ranking(totals)[a];
                let second = #[trigger] ranking(totals)[b];
                totals[first] < totals[second] || (totals[first] == totals[second] && first
                    < second)
            },
{
    lemma_ranking_of_first(totals, totals.len());
    let order = ranking(totals);
    assert forall|a: int, b: int| 0 <= a < b < totals.len() implies {
        let first = #[trigger] order[a];
        let second = #[trigger] order[b];
        totals[first] < totals[second] || (totals[first] == totals[second] && first < second)
    } by {
        assert(ranks_before(totals, order[a], order[b]));
    }
}

/// An arrangement of the positions below `n` holds each of them: the result
/// is a place where `p` stands.
proof fn lemma_arrangement_holds(order: Seq<int>, n: nat, p: int) -> (at: int)
    requires
        is_arrangement(order, n),
        0 <= p < n,
    ensures
        0 <= at < n,
        order[at] == p,
{
    let held = order.to_set();
    let all = set_int_range(0, n as int);
    assert(order.no_duplicates()) by {
        assert forall|i: int, j: int|
            0 <= i < order.len() && 0 <= j < order.len() && i != j implies order[i]
            != order[j] by {
            if i < j {
                assert(order[i] != order[j]);
            } else {
                assert(order[j] != order[i]);
            }
        }
    }
    order.unique_seq_to_set();
    lemma_int_range(0, n as int);
    assert(held.subset_of(all)) by {
        assert forall|x: int| held.contains(x) implies all.contains(x) by {
            let i = choose|i: int| 0 <= i < order.len() && order[i] == x;
            assert(0 <= order[i] < n);
        }
    }
    lemma_len_subset(held, all);
    lemma_subset_equality(held, all);
    assert(all.contains(p));
    assert(held.contains(p));
    choose|i: int| 0 <= i < order.len() && order[i] == p
}

/// The ranking of the first `n` measurements is the only order that holds
/// each of their positions once with each ranking before those behind it.
proof fn lemma_ranking_of_first_unique(totals: Seq<nat>, n: nat, order: Seq<int>)
    requires
        n <= totals.len(),
        is_arrangement(order, n),
        is_ranked(order, totals),
    ensures
        order == ranking_of_first(totals, n),
    decreases n,
{
    if n == 0 {
        assert(order =~= Seq::<int>::empty());
    } else {
        let p = n - 1;
        let at = lemma_arrangement_holds(order, n, p);
        let rest = order.remove(at);
        assert forall|k: int| 0 <= k < rest.len() implies 0 <= #[trigger] rest[k] < n - 1 by {
            if k < at {
                assert(rest[k] == order[k]);
                assert(order[k] != order[at]);
            } else {
                assert(rest[k] == order[k + 1]);
                assert(order[at] != order[k + 1]);
            }
        }
        assert forall|a: int, b: int| 0 <= a < b < rest.len() implies rest[a] != rest[b]
            && ranks_before(totals, #[trigger] rest[a], #[trigger] rest[b]) by {
            let from = if a < at {
                a
            } else {
                a + 1
            };
            let to = if b < at {
                b
            } else {
                b + 1
            };
            assert(rest[a] == order[from]);
            assert(rest[b] == order[to]);
            assert(order[from] != order[to]);
            assert(ranks_before(totals, order[from], order[to]));
        }
        lemma_ranking_of_first_unique(totals, (n - 1) as nat, rest);
        assert forall|k: int| at <= k < rest.len() implies totals[#[trigger] rest[k]]
            > totals[p] by {
            assert(rest[k] == order[k + 1]);
            assert(ranks_before(totals, order[at], order[k + 1]));
            assert(0 <= rest[k] < n - 1);
        }
        if at > 0 {
            assert(rest[at - 1] == order[at - 1]);
            assert(ranks_before(totals, order[at - 1], order[at]));
        }
        lemma_placed_at(rest, totals, p, at);
        assert(rest.insert(at, p) =~= order);
    }
}

/// The ranking is the only such order: an order that holds each position
/// once, along which the totals never fall and in which, of two measurements
/// with the same total, the one made earlier comes first, is the ranking.
pub proof fn lemma_ranking_unique(totals: Seq<nat>, order: Seq<int>)
    requires
        is_arrangement(order, totals.len()),
        forall|a: int, b: int|
            0 <= a < b < order.len() ==> {
                let first = #[trigger] order[a];
                let second = #[trigger] order[b];
                totals[first] < totals[second] || (totals[first] == totals[second] && first
                    < second)
            },
    ensures
        order == ranking(totals),
{
    assert forall|a: int, b: int| 0 <= a < b < order.len() implies ranks_before(
        totals,
        #[trigger] order[a],
        #[trigger] order[b],
    ) by {
        let first = order[a];
        let second = order[b];
        assert(totals[first] < totals[second] || (totals[first] == totals[second] && first
            < second));
    }
    lemma_ranking_of_first_unique(totals, totals.len(), order);
}

/// Along the ranked records the totals never fall, and every record is
/// there: the ranked records are as many as the records, each taken from its
/// position in the ranking.
pub proof fn lemma_ranked_rises(records: Seq<SizeRecord>)
    ensures
        ranked(records).len() == records.len(),
        forall|k: int|
            0 <= k < records.len() ==> 0 <= ranking(totals_of(records))[k] < records.len()
                && #[trigger] ranked(records)[k] == records[ranking(totals_of(records))[k]],
        forall|a: int, b: int|
            0 <= a < b < records.len() ==> (#[trigger] ranked(records)[a]).total() <= (
            #[trigger] ranked(records)[b]).total(),
{
    let totals = totals_of(records);
    let order = ranking(totals);
    lemma_ranking_stable(totals);
    assert forall|a: int, b: int| 0 <= a < b < records.len() implies (#[trigger] ranked(
        records,
    )[a]).total() <= (#[trigger] ranked(records)[b]).total() by {
        assert(0 <= order[a] < records.len());
        assert(0 <= order[b] < records.len());
        assert(totals[order[a]] == records[order[a]].total());
        assert(totals[order[b]] == records[order[b]].total());
    }
}

/// A record with a missing size stands behind every record whose total is
/// below [`MISSING`]: what was not measured never looks small.
pub proof fn lemma_missing_ranks_last(records: Seq<SizeRecord>, a: int, b: int)
    requires
        0 <= a < records.len(),
        0 <= b < records.len(),
        ranked(records)[a].text == MISSING || ranked(records)[a].rodata == MISSING,
        ranked(records)[b].total() < MISSING,
    ensures
        b < a,
{
    lemma_ranked_rises(records);
    if a < b {
        assert(ranked(records)[a].total() <= ranked(records)[b].total());
    }
}

/// The line that opens a table, with the empty line before it, and the line
/// that rules it off.
pub open spec fn table_head() -> Seq<char> {
    "\n|features|text|rodata|total flash|\n|--------|---:|-----:|----------:|\n"@
}

/// The table row of a record: its configuration token, its two sizes and
/// their sum, between bars.
pub open spec fn row_text(record: SizeRecord) -> Seq<char> {
    "|"@ + record.features + "|"@ + decimal(record.text as nat) + "|"@ + decimal(
        record.rodata as nat,
    ) + "|"@ + decimal(record.total()) + "|\n"@
}

/// The rows of the records, in their order.
pub open spec fn rows_text(records: Seq<SizeRecord>) -> Seq<char>
    decreases records.len(),
{
    if records.len() == 0 {
        Seq::empty()
    } else {
        rows_text(records.drop_last()) + row_text(records.last())
    }
}

/// The table of the records: the head, then the rows in the order of the
/// ranking.
pub open spec fn table_text(records: Seq<SizeRecord>) -> Seq<char> {
    table_head() + rows_text(ranked(records))
}

/// A part of a grouped report, as plain values: the prose that introduces a
/// table, with its headings, and the measurements of the table.
pub struct SectionRecord {
    /// What stands above the table.
    pub prose: Seq<char>,
    /// The measurements, in the order in which they were made.
    pub records: Seq<SizeRecord>,
}

/// A part of a grouped report: the prose that introduces a table, with its
/// headings, and the measurements of the table.
#[derive(Debug)]
pub struct Section {
    /// What stands above the table.
    pub prose: String,
    /// The measurements, in the order in which they were made.
    pub results: Vec<SizeResult>,
}

impl View for Section {
    type V = SectionRecord;

    open spec fn view(&self) -> SectionRecord {
        SectionRecord { prose: self.prose@, records: self.results.deep_view() }
    }
}

impl DeepView for Section {
    type V = SectionRecord;

    open spec fn deep_view(&self) -> SectionRecord {
        self@
    }
}

/// The text of a section: its prose, its table, and an empty line.
pub open spec fn section_text(section: SectionRecord) -> Seq<char> {
    section.prose + table_text(section.records) + "\n"@
}

/// The text of the sections, in their order.
pub open spec fn sections_text(sections: Seq<SectionRecord>) -> Seq<char>
    decreases sections.len(),
{
    if sections.len() == 0 {
        Seq::empty()
    } else {
        sections_text(sections.drop_last()) + section_text(sections.last())
    }
}

/// The positions of the results in the order of the ranking: by rising
/// total, and by the order in which they were made where totals are equal.
pub fn rank(results: &Vec<SizeResult>) -> (order: Vec<usize>)
    ensures
        order.len() == results.len(),
        forall|k: int|
            0 <= k < order.len() ==> #[trigger] order[k] == ranking(
                totals_of(results.deep_view()),
            )[k],
{
    let ghost totals = totals_of(results.deep_view());
    let mut order: Vec<usize> = Vec::new();
    let mut i: usize = 0;
    while i < results.len()
        invariant
            i <= results.len(),
            totals == totals_of(results.deep_view()),
            order.len() == i,
            forall|k: int|
                0 <= k < i ==> #[trigger] order[k] == ranking_of_first(totals, i as nat)[k],
            ranking_of_first(totals, i as nat).len() == i,
        decreases results.len() - i,
    {
        let ghost before = ranking_of_first(totals, i as nat);
        proof {
            lemma_ranking_of_first(totals, i as nat);
        }
        let total = results[i].total();
        let mut at: usize = order.len();
        while at > 0 && results[order[at - 1]].total() > total
            invariant
                at <= order.len(),
                order.len() == i,
                i < results.len(),
                before.len() == i,
                totals == totals_of(results.deep_view()),
                total == totals[i as int],
                forall|k: int| 0 <= k < i ==> #[trigger] order[k] == before[k],
                forall|k: int| 0 <= k < i ==> 0 <= #[trigger] before[k] < i,
                forall|k: int| at <= k < i ==> totals[#[trigger] before[k]] > totals[i as int],
            decreases at,
        {
            proof {
                assert(order[at - 1] == before[at - 1]);
                assert(results.deep_view()[before[at - 1]] == results[before[at - 1]]@);
            }
            at = at - 1;
        }
        proof {
            if at > 0 {
                assert(order[at - 1] == before[at - 1]);
                assert(results.deep_view()[before[at - 1]] == results[before[at - 1]]@);
            }
            lemma_placed_at(before, totals, i as int, at as int);
        }
        let ghost earlier = order@;
        order.insert(at, i);
        proof {
            let after = ranking_of_first(totals, (i + 1) as nat);
            assert(after == before.insert(at as int, i as int));
            assert forall|k: int| 0 <= k < i + 1 implies #[trigger] order[k] == after[k] by {
                if k < at {
                    assert(order[k] == earlier[k]);
                } else if k > at {
                    assert(order[k] == earlier[k - 1]);
                }
            }
        }
        i = i + 1;
    }
    order
}

/// The results in the order of the ranking.
pub fn sort_by_total(results: &Vec<SizeResult>) -> (sorted: Vec<SizeResult>)
    ensures
        sorted.deep_view() == ranked(results.deep_view()),
{
    let order = rank(results);
    let ghost records = results.deep_view();
    let ghost target = ranked(records);
    proof {
        lemma_ranking_stable(totals_of(records));
    }
    let mut sorted: Vec<SizeResult> = Vec::new();
    let mut k: usize = 0;
    while k < order.len()
        invariant
            k <= order.len() == results.len(),
            records == results.deep_view(),
            target == ranked(records),
            target.len() == order.len(),
            forall|j: int|
                0 <= j < order.len() ==> #[trigger] order[j] == ranking(totals_of(records))[j],
            forall|j: int|
                0 <= j < order.len() ==> 0 <= #[trigger] ranking(totals_of(records))[j]
                    < results.len(),
            sorted.len() == k,
            forall|j: int| 0 <= j < k ==> (#[trigger] sorted[j])@ == target[j],
        decreases order.len() - k,
    {
        assert(order[k as int] == ranking(totals_of(records))[k as int]);
        let result = &results[order[k]];
        let copy = SizeResult {
            features: result.features.clone(),
            text: result.text,
            rodata: result.rodata,
        };
        assert(copy@ == records[order[k as int] as int]);
        sorted.push(copy);
        k = k + 1;
    }
    assert(sorted.deep_view() =~= target);
    sorted
}

/// The table row of a result.
pub fn render_row(result: &SizeResult) -> (row: String)
    ensures
        row@ == row_text(result@),
{
    let mut row = String::from_str("|");
    row.append(result.features.as_str());
    row.append("|");
    row.append(decimal_string(result.text as u64).as_str());
    row.append("|");
    row.append(decimal_string(result.rodata as u64).as_str());
    row.append("|");
    row.append(decimal_string(result.total()).as_str());
    row.append("|\n");
    row
}

/// The markdown table of the results: an empty line, the head, and a row for
/// each result, in the order of the ranking.
pub fn render_table(results: &Vec<SizeResult>) -> (table: String)
    ensures
        table@ == table_text(results.deep_view()),
{
    let sorted = sort_by_total(results);
    let ghost rows = sorted.deep_view();
    let mut table = String::from_str(
        "\n|features|text|rodata|total flash|\n|--------|---:|-----:|----------:|\n",
    );
    let mut k: usize = 0;
    proof {
        assert(rows.take(0) =~= Seq::<SizeRecord>::empty());
    }
    while k < sorted.len()
        invariant
            k <= sorted.len(),
            rows == sorted.deep_view(),
            table@ == table_head() + rows_text(rows.take(k as int)),
        decreases sorted.len() - k,
    {
        let row = render_row(&sorted[k]);
        table.append(row.as_str());
        proof {
            let more = rows.take(k + 1);
            assert(more.drop_last() =~= rows.take(k as int));
            assert(more.last() == sorted[k as int]@);
            assert(table@ =~= table_head() + rows_text(more));
        }
        k = k + 1;
    }
    proof {
        assert(rows.take(k as int) =~= rows);
    }
    table
}

/// The grouped report: the title, then each section's prose, table and empty
/// line, in the order of the sections.
pub fn render_report(title: &str, sections: &Vec<Section>) -> (report: String)
    ensures
        report@ == title@ + sections_text(sections.deep_view()),
{
    let ghost parts = sections.deep_view();
    let mut report = String::from_str(title);
    let mut k: usize = 0;
    proof {
        assert(parts.take(0) =~= Seq::<SectionRecord>::empty());
        assert(report@ =~= title@ + sections_text(parts.take(0)));
    }
    while k < sections.len()
        invariant
            k <= sections.len(),
            parts == sections.deep_view(),
            report@ == title@ + sections_text(parts.take(k as int)),
        decreases sections.len() - k,
    {
        let section = &sections[k];
        report.append(section.prose.as_str());
        report.append(render_table(&section.results).as_str());
        report.append("\n");
        proof {
            let more = parts.take(k + 1);
            assert(more.drop_last() =~= parts.take(k as int));
            assert(more.last() == section@);
            assert(report@ =~= title@ + sections_text(more));
        }
        k = k + 1;
    }
    proof {
        assert(parts.take(k as int) =~= parts);
    }
    report
}

} // verus!
